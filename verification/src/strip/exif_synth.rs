//! The smallest EXIF data that still tells an orientation, and its place in each format.
use vstd::prelude::*;

use crate::bytes::{
    be16_bytes, be32_bytes, le16_bytes, le32_bytes, lit, put, put_be16, put_be32, put_le16,
    put_le32, put_str,
};
use crate::strip::crc32::{crc, crc32};

verus! {

/// TIFF data with the one tag Orientation.
pub open spec fn orientation_bytes(v: u16) -> Seq<u8> {
    lit("II") + le16_bytes(42) + le32_bytes(8) + le16_bytes(1) + le16_bytes(0x0112) + le16_bytes(3)
        + le32_bytes(1) + le16_bytes(v) + le16_bytes(0) + le32_bytes(0)
}

pub fn orientation_tiff(val: u16) -> (r: Vec<u8>)
    ensures
        r@ == orientation_bytes(val),
{
    let mut t: Vec<u8> = Vec::new();
    put_str(&mut t, "II");
    put_le16(&mut t, 42);
    put_le32(&mut t, 8);
    put_le16(&mut t, 1);
    put_le16(&mut t, 0x0112);
    put_le16(&mut t, 3);
    put_le32(&mut t, 1);
    put_le16(&mut t, val);
    put_le16(&mut t, 0);
    put_le32(&mut t, 0);
    assert(t@ =~= orientation_bytes(val));
    t
}

/// A JPEG APP1 segment with EXIF data. Its length is given modulo 65536.
pub open spec fn app1_bytes(tiff: Seq<u8>) -> Seq<u8> {
    seq![0xFFu8, 0xE1u8] + be16_bytes(((tiff.len() + 8) % 0x1_0000) as u16) + lit("Exif\0\0") + tiff
}

pub fn jpeg_app1_exif(tiff: &[u8]) -> (r: Vec<u8>)
    ensures
        r@ == app1_bytes(tiff@),
{
    let mut s: Vec<u8> = Vec::new();
    s.push(0xFF);
    s.push(0xE1);
    let n: usize = tiff.len() % 0x1_0000;
    assert((tiff@.len() + 8) % 0x1_0000 == (n + 8) % 0x1_0000);
    put_be16(&mut s, ((n + 8) % 0x1_0000) as u16);
    put_str(&mut s, "Exif\0\0");
    put(&mut s, tiff);
    assert(s@ =~= app1_bytes(tiff@));
    s
}

/// A PNG chunk: length, type, data and the checksum of the two.
pub open spec fn chunk_bytes(ctype: Seq<u8>, data: Seq<u8>) -> Seq<u8> {
    be32_bytes((data.len() % 0x1_0000_0000) as u32) + ctype + data + be32_bytes(crc(ctype + data))
}

pub fn png_exif_chunk(tiff: &[u8]) -> (r: Vec<u8>)
    ensures
        r@ == chunk_bytes(lit("eXIf"), tiff@),
{
    let mut c: Vec<u8> = Vec::new();
    put_be32(&mut c, (tiff.len() as u64 % 0x1_0000_0000) as u32);
    put_str(&mut c, "eXIf");
    put(&mut c, tiff);
    let mut covered: Vec<u8> = Vec::new();
    put_str(&mut covered, "eXIf");
    put(&mut covered, tiff);
    assert(covered@ =~= lit("eXIf") + tiff@);
    put_be32(&mut c, crc32(covered.as_slice()));
    assert(c@ =~= chunk_bytes(lit("eXIf"), tiff@));
    c
}

/// A RIFF chunk: type, length and data, padded to an even length.
pub open spec fn riff_bytes(fourcc: Seq<u8>, data: Seq<u8>) -> Seq<u8> {
    fourcc + le32_bytes((data.len() % 0x1_0000_0000) as u32) + data + if data.len() % 2 == 1 {
        seq![0u8]
    } else {
        seq![]
    }
}

pub fn webp_exif_chunk(tiff: &[u8]) -> (r: Vec<u8>)
    ensures
        r@ == riff_bytes(lit("EXIF"), tiff@),
{
    let mut c: Vec<u8> = Vec::new();
    put_str(&mut c, "EXIF");
    put_le32(&mut c, (tiff.len() as u64 % 0x1_0000_0000) as u32);
    put(&mut c, tiff);
    if tiff.len() % 2 == 1 {
        c.push(0);
    }
    assert(c@ =~= riff_bytes(lit("EXIF"), tiff@));
    c
}

} // verus!
