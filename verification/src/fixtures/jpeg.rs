//! TIFF data, and JPEG files around it.
use vstd::prelude::*;

use crate::bytes::{
    be16_bytes, le16_bytes, le32_bytes, lit, put, put_be16, put_le16, put_le32, put_str,
};
use crate::fixtures::parts::{bytes_of, nought, zeros};
use crate::strip::exif_synth::{app1_bytes, jpeg_app1_exif};

verus! {

/// A little-endian header; the first directory follows at once.
pub open spec fn tiff_head() -> Seq<u8> {
    lit("II") + le16_bytes(42) + le32_bytes(8)
}

fn start_tiff() -> (r: Vec<u8>)
    ensures
        r@ == tiff_head(),
{
    let mut t = bytes_of("II");
    put_le16(&mut t, 42);
    put_le32(&mut t, 8);
    t
}

/// An entry of a directory.
pub open spec fn entry(tag: u16, typ: u16, cnt: u32, val: u32) -> Seq<u8> {
    le16_bytes(tag) + le16_bytes(typ) + le32_bytes(cnt) + le32_bytes(val)
}

fn put_entry(t: &mut Vec<u8>, tag: u16, typ: u16, cnt: u32, val: u32)
    ensures
        final(t)@ == old(t)@ + entry(tag, typ, cnt, val),
{
    put_le16(t, tag);
    put_le16(t, typ);
    put_le32(t, cnt);
    put_le32(t, val);
    assert(t@ =~= old(t)@ + entry(tag, typ, cnt, val));
}

pub open spec fn rational(n: u32, d: u32) -> Seq<u8> {
    le32_bytes(n) + le32_bytes(d)
}

fn put_rational(t: &mut Vec<u8>, n: u32, d: u32)
    ensures
        final(t)@ == old(t)@ + rational(n, d),
{
    put_le32(t, n);
    put_le32(t, d);
    assert(t@ =~= old(t)@ + rational(n, d));
}

/// Make and Orientation.
pub open spec fn tiff_basic() -> Seq<u8> {
    tiff_head() + le16_bytes(2) + entry(0x010F, 2, 5, 38) + entry(0x0112, 3, 1, 6) + le32_bytes(0)
        + lit("Acme\0")
}

pub fn make_tiff() -> (r: Vec<u8>)
    ensures
        r@ == tiff_basic(),
{
    let mut t = start_tiff();
    put_le16(&mut t, 2);
    put_entry(&mut t, 0x010F, 2, 5, 38);
    put_entry(&mut t, 0x0112, 3, 1, 6);
    put_le32(&mut t, 0);
    put_str(&mut t, "Acme\0");
    t
}

/// A pointer to an EXIF directory with FNumber.
pub open spec fn tiff_subifd() -> Seq<u8> {
    tiff_head() + le16_bytes(1) + entry(0x8769, 4, 1, 26) + le32_bytes(0) + le16_bytes(1) + entry(
        0x829D,
        5,
        1,
        44,
    ) + le32_bytes(0) + rational(4, 1)
}

pub fn make_tiff_subifd() -> (r: Vec<u8>)
    ensures
        r@ == tiff_subifd(),
{
    let mut t = start_tiff();
    put_le16(&mut t, 1);
    put_entry(&mut t, 0x8769, 4, 1, 26);
    put_le32(&mut t, 0);
    put_le16(&mut t, 1);
    put_entry(&mut t, 0x829D, 5, 1, 44);
    put_le32(&mut t, 0);
    put_rational(&mut t, 4, 1);
    t
}

/// A pointer to a GPS directory with a latitude of three rationals.
pub open spec fn tiff_gps_list() -> Seq<u8> {
    tiff_head() + le16_bytes(1) + entry(0x8825, 4, 1, 26) + le32_bytes(0) + le16_bytes(1) + entry(
        0x0002,
        5,
        3,
        44,
    ) + le32_bytes(0) + rational(12, 1) + rational(34, 1) + rational(56, 1)
}

pub fn make_tiff_gps_list() -> (r: Vec<u8>)
    ensures
        r@ == tiff_gps_list(),
{
    let mut t = start_tiff();
    put_le16(&mut t, 1);
    put_entry(&mut t, 0x8825, 4, 1, 26);
    put_le32(&mut t, 0);
    put_le16(&mut t, 1);
    put_entry(&mut t, 0x0002, 5, 3, 44);
    put_le32(&mut t, 0);
    put_rational(&mut t, 12, 1);
    put_rational(&mut t, 34, 1);
    put_rational(&mut t, 56, 1);
    t
}

/// An orientation for the image, and another one for its thumbnail.
pub open spec fn tiff_thumbnail() -> Seq<u8> {
    tiff_head() + le16_bytes(1) + entry(0x0112, 3, 1, 1) + le32_bytes(26) + le16_bytes(1) + entry(
        0x0112,
        3,
        1,
        6,
    ) + le32_bytes(0)
}

pub fn make_tiff_thumbnail() -> (r: Vec<u8>)
    ensures
        r@ == tiff_thumbnail(),
{
    let mut t = start_tiff();
    put_le16(&mut t, 1);
    put_entry(&mut t, 0x0112, 3, 1, 1);
    put_le32(&mut t, 26);
    put_le16(&mut t, 1);
    put_entry(&mut t, 0x0112, 3, 1, 6);
    put_le32(&mut t, 0);
    t
}

/// A pointer to an EXIF directory with DateTimeOriginal.
pub open spec fn tiff_datetime_original() -> Seq<u8> {
    tiff_head() + le16_bytes(1) + entry(0x8769, 4, 1, 26) + le32_bytes(0) + le16_bytes(1) + entry(
        0x9003,
        2,
        20,
        44,
    ) + le32_bytes(0) + lit("2003:01:24 09:20:00\0")
}

pub fn make_tiff_datetime_original() -> (r: Vec<u8>)
    ensures
        r@ == tiff_datetime_original(),
{
    let mut t = start_tiff();
    put_le16(&mut t, 1);
    put_entry(&mut t, 0x8769, 4, 1, 26);
    put_le32(&mut t, 0);
    put_le16(&mut t, 1);
    put_entry(&mut t, 0x9003, 2, 20, 44);
    put_le32(&mut t, 0);
    put_str(&mut t, "2003:01:24 09:20:00\0");
    t
}

/// A pointer to a GPS directory: 35 degrees north, 139 degrees east. The references stand in
/// their entries, least significant byte first.
pub open spec fn tiff_gps() -> Seq<u8> {
    tiff_head() + le16_bytes(1) + entry(0x8825, 4, 1, 26) + le32_bytes(0) + le16_bytes(4) + entry(
        0x0001,
        2,
        2,
        0x4E,
    ) + entry(0x0002, 5, 3, 80) + entry(0x0003, 2, 2, 0x45) + entry(0x0004, 5, 3, 104)
        + le32_bytes(0) + rational(35, 1) + rational(0, 1) + rational(0, 1) + rational(139, 1)
        + rational(0, 1) + rational(0, 1)
}

fn make_tiff_gps() -> (r: Vec<u8>)
    ensures
        r@ == tiff_gps(),
{
    let mut t = start_tiff();
    put_le16(&mut t, 1);
    put_entry(&mut t, 0x8825, 4, 1, 26);
    put_le32(&mut t, 0);
    put_le16(&mut t, 4);
    put_entry(&mut t, 0x0001, 2, 2, 0x4E);
    put_entry(&mut t, 0x0002, 5, 3, 80);
    put_entry(&mut t, 0x0003, 2, 2, 0x45);
    put_entry(&mut t, 0x0004, 5, 3, 104);
    put_le32(&mut t, 0);
    put_rational(&mut t, 35, 1);
    put_rational(&mut t, 0, 1);
    put_rational(&mut t, 0, 1);
    put_rational(&mut t, 139, 1);
    put_rational(&mut t, 0, 1);
    put_rational(&mut t, 0, 1);
    t
}

/// The start marker.
pub open spec fn soi() -> Seq<u8> {
    seq![0xFFu8, 0xD8u8]
}

/// The end marker.
pub open spec fn eoi() -> Seq<u8> {
    seq![0xFFu8, 0xD9u8]
}

fn start_jpeg() -> (r: Vec<u8>)
    ensures
        r@ == soi(),
{
    let v: Vec<u8> = vec![0xFF, 0xD8];
    assert(v@ =~= soi());
    v
}

fn end_jpeg(j: &mut Vec<u8>)
    ensures
        final(j)@ == old(j)@ + eoi(),
{
    j.push(0xFF);
    j.push(0xD9);
    assert(j@ =~= old(j)@ + eoi());
}

/// Segments, then EXIF and an end marker where they are wanted.
pub open spec fn wrapped(pre: Seq<u8>, with_exif: bool, with_eoi: bool) -> Seq<u8> {
    let head = soi() + pre;
    let body = if with_exif {
        head + app1_bytes(tiff_basic())
    } else {
        head
    };
    if with_eoi {
        body + eoi()
    } else {
        body
    }
}

pub fn wrap_jpeg(pre_segments: &[u8], with_exif: bool, with_eoi: bool) -> (r: Vec<u8>)
    ensures
        r@ == wrapped(pre_segments@, with_exif, with_eoi),
{
    let mut j = start_jpeg();
    put(&mut j, pre_segments);
    if with_exif {
        let tiff = make_tiff();
        let app1 = jpeg_app1_exif(tiff.as_slice());
        put(&mut j, app1.as_slice());
    }
    if with_eoi {
        end_jpeg(&mut j);
    }
    j
}

/// A JPEG file with the given TIFF data and nothing else.
pub open spec fn wrapped_tiff(tiff: Seq<u8>) -> Seq<u8> {
    soi() + app1_bytes(tiff) + eoi()
}

pub fn wrap_jpeg_tiff(tiff: &[u8]) -> (r: Vec<u8>)
    ensures
        r@ == wrapped_tiff(tiff@),
{
    let mut j = start_jpeg();
    let app1 = jpeg_app1_exif(tiff);
    put(&mut j, app1.as_slice());
    end_jpeg(&mut j);
    j
}

pub fn fixture_plain() -> (r: Vec<u8>)
    ensures
        r@ == wrapped(seq![], true, true),
{
    let none: Vec<u8> = Vec::new();
    assert(none@ =~= seq![]);
    wrap_jpeg(none.as_slice(), true, true)
}

/// An APP0 segment with `n` zero bytes.
pub open spec fn app0(n: u16) -> Seq<u8> {
    seq![0xFFu8, 0xE0u8] + be16_bytes((n + 2) as u16) + nought(n as nat)
}

fn app0_segment(n: u16) -> (r: Vec<u8>)
    requires
        n <= 0xFFFD,
    ensures
        r@ == app0(n),
{
    let mut s: Vec<u8> = vec![0xFF, 0xE0];
    assert(s@ =~= seq![0xFFu8, 0xE0u8]);
    put_be16(&mut s, n + 2);
    let body = zeros(n as usize);
    put(&mut s, body.as_slice());
    s
}

/// A segment of no interest before the EXIF data.
pub fn fixture_large_nonmeta() -> (r: Vec<u8>)
    ensures
        r@ == wrapped(app0(200), true, true),
{
    let pre = app0_segment(200);
    wrap_jpeg(pre.as_slice(), true, true)
}

/// A segment of no interest that is longer than a read.
pub fn fixture_huge_nonmeta() -> (r: Vec<u8>)
    ensures
        r@ == wrapped(app0(9000), true, true),
{
    let pre = app0_segment(9000);
    wrap_jpeg(pre.as_slice(), true, true)
}

/// An EXIF segment that breaks off.
pub fn fixture_truncated() -> (r: Vec<u8>)
    ensures
        r@ == seq![0xFFu8, 0xD8u8, 0xFFu8, 0xE1u8] + be16_bytes(200) + lit("Exif\0\0")
            + seq![0xAAu8, 0xBBu8],
{
    let mut j: Vec<u8> = vec![0xFF, 0xD8, 0xFF, 0xE1];
    assert(j@ =~= seq![0xFFu8, 0xD8u8, 0xFFu8, 0xE1u8]);
    put_be16(&mut j, 200);
    put_str(&mut j, "Exif\0\0");
    put(&mut j, &[0xAA, 0xBB]);
    j
}

/// A frame header before the EXIF data.
pub open spec fn jpeg_with_sof() -> Seq<u8> {
    soi() + seq![0xFFu8, 0xC0u8] + be16_bytes(10) + seq![8u8] + be16_bytes(1080) + be16_bytes(1920)
        + seq![1u8, 0x11u8, 0u8] + app1_bytes(tiff_basic()) + eoi()
}

pub fn fixture_with_sof() -> (r: Vec<u8>)
    ensures
        r@ == jpeg_with_sof(),
{
    let mut j = start_jpeg();
    put(&mut j, &[0xFF, 0xC0]);
    put_be16(&mut j, 10);
    put(&mut j, &[8]);
    put_be16(&mut j, 1080);
    put_be16(&mut j, 1920);
    put(&mut j, &[1, 0x11, 0]);
    let tiff = make_tiff();
    let app1 = jpeg_app1_exif(tiff.as_slice());
    put(&mut j, app1.as_slice());
    end_jpeg(&mut j);
    j
}

pub fn fixture_exif_subifd() -> (r: Vec<u8>)
    ensures
        r@ == wrapped_tiff(tiff_subifd()),
{
    let tiff = make_tiff_subifd();
    wrap_jpeg_tiff(tiff.as_slice())
}

pub fn build_jpeg_with_gps_ifd() -> (r: Vec<u8>)
    ensures
        r@ == wrapped_tiff(tiff_gps()),
{
    let tiff = make_tiff_gps();
    wrap_jpeg_tiff(tiff.as_slice())
}

} // verus!
