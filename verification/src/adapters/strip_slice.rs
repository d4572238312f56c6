//! Stripping a whole buffer.
use vstd::prelude::*;

use crate::bytes::put;
use crate::error::Error;
use crate::probe::{probe, probed};
use crate::strip::{
    drive_strip_slice, nothing_stripped, planner_for, strip_mode, strip_run, AnyStripper,
    StripOptions, StripReport, Stripped,
};

verus! {

/// What stripping the file `buf` comes to.
pub open spec fn stripped(buf: Seq<u8>, opts: StripOptions) -> Result<Stripped, Error> {
    match strip_mode(probed(buf), opts) {
        Ok(m) => Ok(strip_run::<AnyStripper>(buf, m, 0, nothing_stripped())),
        Err(e) => Err(e),
    }
}

/// Removes the metadata of the file `buf`: gives the clean file and a report.
pub fn strip_slice(buf: &[u8], opts: StripOptions) -> (r: Result<(Vec<u8>, StripReport), Error>)
    ensures
        match r {
            Ok((out, report)) => match stripped(buf@, opts) {
                Ok(s) => {
                    &&& out@ == s.out
                    &&& report.bytes_removed == s.bytes
                    &&& report.removed@ == s.kinds
                    &&& report.format == probed(buf@)
                    &&& report.warnings@.len() == 0
                },
                Err(_) => false,
            },
            Err(e) => stripped(buf@, opts) == Err::<Stripped, Error>(e),
        },
{
    let fmt = probe(buf);
    match planner_for(&fmt, opts) {
        Ok(mut planner) => Ok(drive_strip_slice(buf, &mut planner, fmt)),
        Err(e) => Err(e),
    }
}

/// The input of a strip after `chunk` was read, unless that gets too long.
pub open spec fn gathered(input: Seq<u8>, chunk: Seq<u8>, opts: StripOptions) -> Option<Seq<u8>> {
    if input.len() + chunk.len() <= opts.limits.max_payload_bytes {
        Some(input + chunk)
    } else {
        None
    }
}

/// Adds what was read to the input of a strip, unless that gets too long.
pub fn gather(input: &mut Vec<u8>, chunk: &[u8], opts: &StripOptions) -> (r: Result<(), Error>)
    ensures
        match gathered(old(input)@, chunk@, *opts) {
            Some(b) => r is Ok && final(input)@ == b,
            None => r == Err::<(), Error>(Error::Io) && final(input)@ == old(input)@,
        },
{
    let cap: usize = opts.limits.max_payload_bytes;
    if chunk.len() > cap || input.len() > cap - chunk.len() {
        return Err(Error::Io);
    }
    put(input, chunk);
    Ok(())
}

} // verus!
