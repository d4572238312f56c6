//! Parsers, one for each family of formats.
pub mod jpeg;
pub mod png;
pub mod gif;
pub mod webp;
pub mod bmff;
pub mod ebml;
pub mod items;
pub mod movie;
