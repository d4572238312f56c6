//! Reading a whole buffer.
use vstd::prelude::*;

use crate::driver::{drive_slice, finalize, finalized, nothing, pull_budget, slice_run};
use crate::error::Error;
use crate::limits::{default_limits, Limits};
use crate::model::{Metadata, MetadataView};
use crate::probe::{parser_for, probe, probed, start_mode, AnyParser};

verus! {

/// How to read.
#[derive(Clone, Copy, Debug, PartialEq, Eq, Structural)]
pub struct Options {
    pub limits: Limits,
}

impl Default for Options {
    fn default() -> (r: Self)
        ensures
            r.limits == default_limits(),
    {
        Options { limits: Limits::default() }
    }
}

/// The metadata of the file `buf`, where its format is known.
pub open spec fn metadata_of(buf: Seq<u8>, limits: Limits) -> Option<MetadataView> {
    match start_mode(probed(buf), limits) {
        Some(m) => Some(
            finalized(
                slice_run::<AnyParser>(
                    buf,
                    m,
                    0,
                    nothing(limits),
                    pull_budget(buf.len() as int),
                ),
                probed(buf),
            ),
        ),
        None => None,
    }
}

/// What reading comes to: metadata, or that the format is not known.
pub open spec fn reads_as(r: Result<Metadata, Error>, m: Option<MetadataView>) -> bool {
    match r {
        Ok(meta) => m == Some(meta@),
        Err(e) => m is None && e == Error::UnrecognizedFormat,
    }
}

/// Reads the metadata of the file `buf`.
pub fn read_slice(buf: &[u8], opts: Options) -> (r: Result<Metadata, Error>)
    ensures
        reads_as(r, metadata_of(buf@, opts.limits)),
{
    let fmt = probe(buf);
    match parser_for(fmt, opts.limits) {
        Some(mut parser) => {
            let col = drive_slice(buf, &mut parser, opts.limits);
            Ok(finalize(col, fmt))
        },
        None => Err(Error::UnrecognizedFormat),
    }
}

} // verus!
