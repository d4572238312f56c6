//! Stripping a source that arrives in pieces is stripping the file in one buffer.
use vstd::prelude::*;

use crate::adapters::strip_slice::{gathered, stripped};
use crate::error::Error;
use crate::laws::agreement::joined;
use crate::strip::{StripOptions, Stripped};

verus! {

/// The input of a strip after all of the pieces were read; none where it got too long.
pub open spec fn gathered_all(pieces: Seq<Seq<u8>>, opts: StripOptions) -> Option<Seq<u8>>
    decreases pieces.len(),
{
    if pieces.len() == 0 {
        Some(seq![])
    } else {
        match gathered_all(pieces.drop_last(), opts) {
            Some(b) => gathered(b, pieces.last(), opts),
            None => None,
        }
    }
}

/// What stripping a source that reads `pieces` comes to. What is put out is written only
/// where it succeeds.
pub open spec fn source_stripped(pieces: Seq<Seq<u8>>, opts: StripOptions) -> Result<
    Stripped,
    Error,
> {
    match gathered_all(pieces, opts) {
        Some(b) => stripped(b, opts),
        None => Err(Error::Io),
    }
}

/// The input of a strip is all of the pieces put together, and it gets too long exactly
/// where their sum does.
pub proof fn gathering_is_joining(pieces: Seq<Seq<u8>>, opts: StripOptions)
    ensures
        gathered_all(pieces, opts) == (if joined(pieces).len() <= opts.limits.max_payload_bytes {
            Some(joined(pieces))
        } else {
            None
        }),
    decreases pieces.len(),
{
    if pieces.len() > 0 {
        gathering_is_joining(pieces.drop_last(), opts);
    }
}

/// A source, however it is cut, is refused exactly where it is too long, and else stripped
/// like the file in one buffer.
pub proof fn sources_strip_like_buffers(pieces: Seq<Seq<u8>>, opts: StripOptions)
    ensures
        source_stripped(pieces, opts) == (if joined(pieces).len()
            > opts.limits.max_payload_bytes {
            Err(Error::Io)
        } else {
            stripped(joined(pieces), opts)
        }),
{
    gathering_is_joining(pieces, opts);
}

} // verus!
