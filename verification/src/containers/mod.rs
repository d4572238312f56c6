//! The structure of container formats, below what the formats mean by it.
pub mod isobmff;
pub mod ebml;
