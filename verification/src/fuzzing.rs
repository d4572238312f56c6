//! Entry points that go around the detection of formats, and a bound on live memory, for
//! runs on arbitrary input.
use vstd::prelude::*;

use crate::codecs::exif::decoded as exif_decoded;
use crate::codecs::xmp::decoded as xmp_decoded;
use crate::driver::{drive_slice, finalize, finalized, nothing, pull_budget, slice_run};
use crate::formats::bmff::{BmffMode, BmffParser};
use crate::formats::ebml::{EbmlMode, EbmlParser};
use crate::limits::Limits;
use crate::model::{
    exif_views, xmp_views, ExifTag, FileFormat, Metadata, Warning, XmpProperty,
};

verus! {

/// The most bytes that may be live at a time.
pub const ALLOC_CEILING: usize = 256 * 1024 * 1024;

/// Limits far below the usual ones.
pub fn fuzz_limits() -> (r: Limits)
    ensures
        r == (Limits {
            max_payload_bytes: 0x10_0000,
            max_retained_bytes: 0x10_0000,
            max_depth: 16,
            max_tags: 256,
            max_ifds: 8,
            max_total_alloc: 0x80_0000,
        }),
{
    Limits {
        max_payload_bytes: 0x10_0000,
        max_retained_bytes: 0x10_0000,
        max_depth: 16,
        max_tags: 256,
        max_ifds: 8,
        max_total_alloc: 0x80_0000,
    }
}

/// Decodes TIFF bytes by themselves.
pub fn decode_exif(tiff: &[u8], limits: &Limits) -> (r: (Vec<ExifTag>, Vec<Warning>))
    ensures
        (exif_views(r.0@), r.1@) == exif_decoded(tiff@, seq![], seq![], *limits),
        r.0@.len() <= limits.max_tags,
{
    let mut out: Vec<ExifTag> = Vec::new();
    let mut warnings: Vec<Warning> = Vec::new();
    assert(exif_views(out@) =~= seq![]);
    assert(warnings@ =~= seq![]);
    crate::codecs::exif::decode(tiff, &mut out, &mut warnings, limits);
    (out, warnings)
}

/// Decodes an XMP packet by itself.
pub fn decode_xmp(packet: &[u8], limits: &Limits) -> (r: (Vec<XmpProperty>, Vec<Warning>))
    ensures
        (xmp_views(r.0@), r.1@) == xmp_decoded(packet@, seq![], seq![], *limits),
        r.0@.len() <= limits.max_tags,
{
    let mut out: Vec<XmpProperty> = Vec::new();
    let mut warnings: Vec<Warning> = Vec::new();
    assert(xmp_views(out@) =~= seq![]);
    assert(warnings@ =~= seq![]);
    crate::codecs::xmp::decode(packet, &mut out, &mut warnings, limits);
    assert(xmp_views(out@).len() == out@.len());
    (out, warnings)
}

/// Reads `data` as boxes, whatever it is.
pub fn drive_bmff(data: &[u8], limits: Limits) -> (r: Metadata)
    ensures
        r@ == finalized(
            slice_run::<BmffParser>(
                data@,
                BmffMode::Walk { at: 0, max_tags: limits.max_tags },
                0,
                nothing(limits),
                pull_budget(data@.len() as int),
            ),
            FileFormat::Mp4,
        ),
{
    let mut parser = BmffParser::with_limits(limits);
    let col = drive_slice(data, &mut parser, limits);
    finalize(col, FileFormat::Mp4)
}

/// Reads `data` as EBML elements, whatever it is.
pub fn drive_ebml(data: &[u8], limits: Limits) -> (r: Metadata)
    ensures
        r@ == finalized(
            slice_run::<EbmlParser>(
                data@,
                EbmlMode::Walk,
                0,
                nothing(limits),
                pull_budget(data@.len() as int),
            ),
            FileFormat::Mkv,
        ),
{
    let mut parser = EbmlParser::new();
    let col = drive_slice(data, &mut parser, limits);
    finalize(col, FileFormat::Mkv)
}

/// What is live after `n` more bytes, where that stays within the ceiling.
pub fn reserve(live: usize, ceiling: usize, n: usize) -> (r: Option<usize>)
    ensures
        r == (if live + n <= ceiling {
            Some((live + n) as usize)
        } else {
            None
        }),
{
    match live.checked_add(n) {
        Some(next) => if next <= ceiling {
            Some(next)
        } else {
            None
        },
        None => None,
    }
}

/// Counts live bytes against a ceiling.
#[derive(Debug)]
pub struct AllocCounter {
    live: usize,
    ceiling: usize,
}

impl AllocCounter {
    /// The bytes that are live.
    pub closed spec fn view(&self) -> usize {
        self.live
    }

    pub closed spec fn ceiling(&self) -> usize {
        self.ceiling
    }

    pub fn new(ceiling: usize) -> (r: Self)
        ensures
            r@ == 0,
            r.ceiling() == ceiling,
    {
        AllocCounter { live: 0, ceiling }
    }

    /// Takes in `n` bytes, unless that would go over the ceiling.
    pub fn try_add(&mut self, n: usize) -> (r: bool)
        ensures
            r == (old(self)@ + n <= old(self).ceiling()),
            final(self)@ == (if r {
                old(self)@ + n
            } else {
                old(self)@ as int
            }),
            final(self).ceiling() == old(self).ceiling(),
    {
        match reserve(self.live, self.ceiling, n) {
            Some(next) => {
                self.live = next;
                true
            },
            None => false,
        }
    }

    /// Lets go of `n` bytes. More than are live wrap around.
    pub fn sub(&mut self, n: usize)
        ensures
            final(self)@ == (if n <= old(self)@ {
                old(self)@ - n
            } else {
                old(self)@ - n + usize::MAX + 1
            }),
            final(self).ceiling() == old(self).ceiling(),
    {
        self.live = self.live.wrapping_sub(n);
    }

    pub fn live(&self) -> (r: usize)
        ensures
            r == self@,
    {
        self.live
    }
}

} // verus!
