//! Bounds on what reading untrusted input may allocate.
use vstd::prelude::*;

verus! {

#[derive(Clone, Copy, Debug, PartialEq, Eq, Structural)]
pub struct Limits {
    /// The longest payload or tag value that is decoded.
    pub max_payload_bytes: usize,
    /// The most bytes that a stream may hold back while it waits for more.
    pub max_retained_bytes: usize,
    /// The deepest nesting of XMP elements that is tracked.
    pub max_depth: u16,
    /// The most tags of one origin.
    pub max_tags: usize,
    /// The most EXIF directories that are read.
    pub max_ifds: usize,
    pub max_total_alloc: usize,
}

/// The limits where none are given.
pub open spec fn default_limits() -> Limits {
    Limits {
        max_payload_bytes: 0x400_0000,
        max_retained_bytes: 0x100_0000,
        max_depth: 32,
        max_tags: 8192,
        max_ifds: 32,
        max_total_alloc: 0x800_0000,
    }
}

impl Default for Limits {
    fn default() -> (r: Self)
        ensures
            r == default_limits(),
    {
        Limits {
            max_payload_bytes: 64 * 1024 * 1024,
            max_retained_bytes: 16 * 1024 * 1024,
            max_depth: 32,
            max_tags: 8192,
            max_ifds: 32,
            max_total_alloc: 128 * 1024 * 1024,
        }
    }
}

} // verus!
