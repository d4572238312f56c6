//! Files of boxes: what the brand at their start says of their format.
use vstd::prelude::*;

use crate::bytes::lit;
use crate::laws::files::{a_box, lemma_brand};
use crate::model::FileFormat;
use crate::probe::probed;

verus! {

/// Brands of AVIF.
pub open spec fn of_avif(b: Seq<u8>) -> bool {
    b == lit("avif") || b == lit("avis")
}

/// Brands of HEIF.
pub open spec fn of_heif(b: Seq<u8>) -> bool {
    b == lit("heic") || b == lit("heix") || b == lit("heim") || b == lit("heis") || b == lit("hevc")
        || b == lit("hevx") || b == lit("mif1") || b == lit("msf1")
}

/// The first box of a file names its brand: AVIF and HEIF have theirs, QuickTime has one, and
/// all others are MP4.
pub proof fn brands_tell_formats(x: Seq<u8>, rest: Seq<u8>)
    requires
        4 <= x.len() < 0x4000_0000,
    ensures
        ({
            let f = a_box(lit("ftyp"), x) + rest;
            let b = x.subrange(0, 4);
            &&& of_avif(b) ==> probed(f) == FileFormat::Avif
            &&& of_heif(b) && !of_avif(b) ==> probed(f) == FileFormat::Heif
            &&& b == lit("qt  ") && !of_avif(b) && !of_heif(b) ==> probed(f) == FileFormat::Mov
            &&& b != lit("qt  ") && !of_avif(b) && !of_heif(b) ==> probed(f) == FileFormat::Mp4
        }),
{
    lemma_brand(a_box(lit("ftyp"), x) + rest, x, rest);
}

} // verus!
