//! Ways to get bytes to the parsers.
pub mod push;
pub mod session;
pub mod slice;
pub mod strip_slice;
