//! Decoders of metadata payloads.
pub mod exif;
pub mod xmp;
