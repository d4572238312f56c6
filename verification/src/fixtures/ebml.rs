//! Matroska and WebM files.
use vstd::prelude::*;

use crate::bytes::{be32_bytes, be64_bytes, lit, put, put_be32, put_be64};
use crate::fixtures::parts::{nought, zeros};

verus! {

/// A size in eight bytes: a marker and 56 bits.
pub open spec fn size8(n: int) -> Seq<u8> {
    seq![1u8] + be64_bytes(n as u64).subrange(1, 8)
}

/// An element: its id, its size and its payload.
pub open spec fn elem(id: Seq<u8>, payload: Seq<u8>) -> Seq<u8> {
    id + size8(payload.len() as int) + payload
}

pub fn ebml_elem(id: &[u8], payload: &[u8]) -> (r: Vec<u8>)
    ensures
        r@ == elem(id@, payload@),
{
    let mut e: Vec<u8> = Vec::new();
    put(&mut e, id);
    e.push(1);
    let mut size: Vec<u8> = Vec::new();
    put_be64(&mut size, payload.len() as u64);
    assert(size@ =~= be64_bytes(payload@.len() as u64));
    put(&mut e, vstd::slice::slice_subrange(size.as_slice(), 1, 8));
    put(&mut e, payload);
    assert(e@ =~= elem(id@, payload@));
    e
}

fn put_elem(b: &mut Vec<u8>, id: &[u8], payload: &[u8])
    ensures
        final(b)@ == old(b)@ + elem(id@, payload@),
{
    let e = ebml_elem(id, payload);
    put(b, e.as_slice());
}

/// A track with a video of the given size.
pub open spec fn video_track(w: u32, h: u32) -> Seq<u8> {
    elem(
        seq![0xAEu8],
        elem(
            seq![0xE0u8],
            elem(seq![0xB0u8], be32_bytes(w)) + elem(seq![0xBAu8], be32_bytes(h)),
        ),
    )
}

fn be32_vec(x: u32) -> (r: Vec<u8>)
    ensures
        r@ == be32_bytes(x),
{
    let mut v: Vec<u8> = Vec::new();
    put_be32(&mut v, x);
    assert(v@ =~= be32_bytes(x));
    v
}

fn be64_vec(x: u64) -> (r: Vec<u8>)
    ensures
        r@ == be64_bytes(x),
{
    let mut v: Vec<u8> = Vec::new();
    put_be64(&mut v, x);
    assert(v@ =~= be64_bytes(x));
    v
}

pub fn ebml_video_track(w: u32, h: u32) -> (r: Vec<u8>)
    ensures
        r@ == video_track(w, h),
{
    let width = be32_vec(w);
    let mut size = ebml_elem(&[0xB0], width.as_slice());
    let height = be32_vec(h);
    put_elem(&mut size, &[0xBA], height.as_slice());
    let video = ebml_elem(&[0xE0], size.as_slice());
    let track = ebml_elem(&[0xAE], video.as_slice());
    assert([0xB0u8]@ =~= seq![0xB0u8]);
    assert([0xBAu8]@ =~= seq![0xBAu8]);
    assert([0xE0u8]@ =~= seq![0xE0u8]);
    assert([0xAEu8]@ =~= seq![0xAEu8]);
    track
}

/// Segment information: a scale of a millisecond, a duration of 5000 as a floating-point
/// number of 64 bits, and a date of nought.
pub open spec fn info() -> Seq<u8> {
    elem(
        seq![0x15u8, 0x49u8, 0xA9u8, 0x66u8],
        elem(seq![0x2Au8, 0xD7u8, 0xB1u8], be64_bytes(1_000_000)) + elem(
            seq![0x44u8, 0x89u8],
            be64_bytes(0x40B3_8800_0000_0000),
        ) + elem(seq![0x44u8, 0x61u8], be64_bytes(0)),
    )
}

pub fn ebml_info() -> (r: Vec<u8>)
    ensures
        r@ == info(),
{
    let scale = be64_vec(1_000_000);
    let mut p = ebml_elem(&[0x2A, 0xD7, 0xB1], scale.as_slice());
    let duration = be64_vec(0x40B3_8800_0000_0000);
    put_elem(&mut p, &[0x44, 0x89], duration.as_slice());
    let date = be64_vec(0);
    put_elem(&mut p, &[0x44, 0x61], date.as_slice());
    assert([0x2Au8, 0xD7u8, 0xB1u8]@ =~= seq![0x2Au8, 0xD7u8, 0xB1u8]);
    assert([0x44u8, 0x89u8]@ =~= seq![0x44u8, 0x89u8]);
    assert([0x44u8, 0x61u8]@ =~= seq![0x44u8, 0x61u8]);
    assert([0x15u8, 0x49u8, 0xA9u8, 0x66u8]@ =~= seq![0x15u8, 0x49u8, 0xA9u8, 0x66u8]);
    ebml_elem(&[0x15, 0x49, 0xA9, 0x66], p.as_slice())
}

/// The header: the type of the document.
pub open spec fn ebml_head(doctype: Seq<u8>) -> Seq<u8> {
    elem(seq![0x1Au8, 0x45u8, 0xDFu8, 0xA3u8], elem(seq![0x42u8, 0x82u8], doctype))
}

pub fn ebml_header(doctype: &[u8]) -> (r: Vec<u8>)
    ensures
        r@ == ebml_head(doctype@),
{
    let dt = ebml_elem(&[0x42, 0x82], doctype);
    assert([0x42u8, 0x82u8]@ =~= seq![0x42u8, 0x82u8]);
    assert([0x1Au8, 0x45u8, 0xDFu8, 0xA3u8]@ =~= seq![0x1Au8, 0x45u8, 0xDFu8, 0xA3u8]);
    ebml_elem(&[0x1A, 0x45, 0xDF, 0xA3], dt.as_slice())
}

/// The tracks of a segment: one video.
pub open spec fn tracks(w: u32, h: u32) -> Seq<u8> {
    elem(seq![0x16u8, 0x54u8, 0xAEu8, 0x6Bu8], video_track(w, h))
}

fn make_tracks(w: u32, h: u32) -> (r: Vec<u8>)
    ensures
        r@ == tracks(w, h),
{
    let track = ebml_video_track(w, h);
    assert([0x16u8, 0x54u8, 0xAEu8, 0x6Bu8]@ =~= seq![0x16u8, 0x54u8, 0xAEu8, 0x6Bu8]);
    ebml_elem(&[0x16, 0x54, 0xAE, 0x6B], track.as_slice())
}

/// Information, an element of no interest that is longer than a read, tracks, and image data.
pub open spec fn ebml_file(doctype: Seq<u8>) -> Seq<u8> {
    ebml_head(doctype) + elem(
        seq![0x18u8, 0x53u8, 0x80u8, 0x67u8],
        info() + elem(seq![0xECu8], nought(10_000)) + tracks(1280, 720) + elem(
            seq![0x1Fu8, 0x43u8, 0xB6u8, 0x75u8],
            nought(16),
        ),
    )
}

pub fn fixture_ebml(doctype: &[u8]) -> (r: Vec<u8>)
    ensures
        r@ == ebml_file(doctype@),
{
    let mut children = ebml_info();
    let void = zeros(10_000);
    put_elem(&mut children, &[0xEC], void.as_slice());
    let t = make_tracks(1280, 720);
    put(&mut children, t.as_slice());
    let image = zeros(16);
    put_elem(&mut children, &[0x1F, 0x43, 0xB6, 0x75], image.as_slice());
    assert([0xECu8]@ =~= seq![0xECu8]);
    assert([0x1Fu8, 0x43u8, 0xB6u8, 0x75u8]@ =~= seq![0x1Fu8, 0x43u8, 0xB6u8, 0x75u8]);
    assert([0x18u8, 0x53u8, 0x80u8, 0x67u8]@ =~= seq![0x18u8, 0x53u8, 0x80u8, 0x67u8]);
    let mut f = ebml_header(doctype);
    put_elem(&mut f, &[0x18, 0x53, 0x80, 0x67], children.as_slice());
    f
}

/// A segment that does not tell its size.
pub open spec fn ebml_unknown_size() -> Seq<u8> {
    ebml_head(lit("webm")) + seq![
        0x18u8, 0x53u8, 0x80u8, 0x67u8, 0x01u8, 0xFFu8, 0xFFu8, 0xFFu8, 0xFFu8, 0xFFu8, 0xFFu8,
        0xFFu8,
    ] + info() + tracks(640, 480)
}

pub fn fixture_ebml_unknown_size_segment() -> (r: Vec<u8>)
    ensures
        r@ == ebml_unknown_size(),
{
    let mut f = ebml_header("webm".as_bytes());
    put(
        &mut f,
        &[0x18, 0x53, 0x80, 0x67, 0x01, 0xFF, 0xFF, 0xFF, 0xFF, 0xFF, 0xFF, 0xFF],
    );
    let i = ebml_info();
    put(&mut f, i.as_slice());
    let t = make_tracks(640, 480);
    put(&mut f, t.as_slice());
    f
}

} // verus!
