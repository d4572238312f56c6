//! PNG, WebP and GIF files.
use vstd::prelude::*;

use crate::bytes::{
    be32_bytes, le16_bytes, le32_bytes, lit, put, put_be32, put_le16, put_le32, put_str,
};
use crate::fixtures::jpeg::{make_tiff, tiff_basic};
use crate::fixtures::parts::{acme, acme_xmp, bytes_of, len32, low32};
use crate::strip::exif_synth::riff_bytes;

verus! {

/// A PNG chunk whose checksum is nought.
pub open spec fn bare_chunk(ctype: Seq<u8>, data: Seq<u8>) -> Seq<u8> {
    be32_bytes(low32(data.len() as int)) + ctype + data + seq![0u8, 0u8, 0u8, 0u8]
}

fn chunk_of(ctype: &[u8], data: &[u8]) -> (r: Vec<u8>)
    ensures
        r@ == bare_chunk(ctype@, data@),
{
    let mut c: Vec<u8> = Vec::new();
    put_be32(&mut c, len32(data.len(), 0));
    put(&mut c, ctype);
    put(&mut c, data);
    put(&mut c, &[0, 0, 0, 0]);
    assert(c@ =~= bare_chunk(ctype@, data@));
    c
}

pub fn png_chunk(ctype: &[u8; 4], data: &[u8]) -> (r: Vec<u8>)
    ensures
        r@ == bare_chunk(ctype@, data@),
{
    chunk_of(ctype, data)
}

fn put_chunk(p: &mut Vec<u8>, ctype: &str, data: &[u8])
    ensures
        final(p)@ == old(p)@ + bare_chunk(lit(ctype), data@),
{
    let c = chunk_of(ctype.as_bytes(), data);
    put(p, c.as_slice());
}

pub open spec fn png_mark() -> Seq<u8> {
    seq![0x89u8, 0x50u8, 0x4Eu8, 0x47u8, 0x0Du8, 0x0Au8, 0x1Au8, 0x0Au8]
}

fn start_png() -> (r: Vec<u8>)
    ensures
        r@ == png_mark(),
{
    let v: Vec<u8> = vec![0x89, 0x50, 0x4E, 0x47, 0x0D, 0x0A, 0x1A, 0x0A];
    assert(v@ =~= png_mark());
    v
}

/// The data of a header chunk.
pub open spec fn ihdr(w: u32, h: u32) -> Seq<u8> {
    be32_bytes(w) + be32_bytes(h) + seq![8u8, 6u8, 0u8, 0u8, 0u8]
}

fn ihdr_data(w: u32, h: u32) -> (r: Vec<u8>)
    ensures
        r@ == ihdr(w, h),
{
    let mut d: Vec<u8> = Vec::new();
    put_be32(&mut d, w);
    put_be32(&mut d, h);
    put(&mut d, &[8, 6, 0, 0, 0]);
    assert(d@ =~= ihdr(w, h));
    d
}

/// The data of an XMP text chunk, with its compression flag.
pub open spec fn xmp_text(flag: u8, text: Seq<u8>) -> Seq<u8> {
    lit("XML:com.adobe.xmp") + seq![0u8, flag, 0u8, 0u8, 0u8] + text
}

fn xmp_text_data(flag: u8, text: &[u8]) -> (r: Vec<u8>)
    ensures
        r@ == xmp_text(flag, text@),
{
    let mut d = bytes_of("XML:com.adobe.xmp");
    put(&mut d, &[0, flag, 0, 0, 0]);
    put(&mut d, text);
    d
}

/// A size, EXIF and XMP.
pub open spec fn png_file() -> Seq<u8> {
    png_mark() + bare_chunk(lit("IHDR"), ihdr(1920, 1080)) + bare_chunk(lit("eXIf"), tiff_basic())
        + bare_chunk(lit("iTXt"), xmp_text(0, acme_xmp())) + bare_chunk(
        lit("IDAT"),
        seq![1u8, 2u8, 3u8, 4u8],
    ) + bare_chunk(lit("IEND"), seq![])
}

pub fn fixture_png() -> (r: Vec<u8>)
    ensures
        r@ == png_file(),
{
    let mut p = start_png();
    let head = ihdr_data(1920, 1080);
    put_chunk(&mut p, "IHDR", head.as_slice());
    let tiff = make_tiff();
    put_chunk(&mut p, "eXIf", tiff.as_slice());
    let packet = acme();
    let text = xmp_text_data(0, packet.as_slice());
    put_chunk(&mut p, "iTXt", text.as_slice());
    let image: Vec<u8> = vec![1, 2, 3, 4];
    assert(image@ =~= seq![1u8, 2u8, 3u8, 4u8]);
    put_chunk(&mut p, "IDAT", image.as_slice());
    let none: Vec<u8> = Vec::new();
    assert(none@ =~= seq![]);
    put_chunk(&mut p, "IEND", none.as_slice());
    p
}

/// An XMP text chunk that says it is compressed.
pub open spec fn png_compressed() -> Seq<u8> {
    png_mark() + bare_chunk(lit("IHDR"), ihdr(4, 4)) + bare_chunk(
        lit("iTXt"),
        xmp_text(1, lit("fake-compressed-payload")),
    ) + bare_chunk(lit("IEND"), seq![])
}

pub fn fixture_png_compressed_itxt() -> (r: Vec<u8>)
    ensures
        r@ == png_compressed(),
{
    let mut p = start_png();
    let head = ihdr_data(4, 4);
    put_chunk(&mut p, "IHDR", head.as_slice());
    let packet = bytes_of("fake-compressed-payload");
    let text = xmp_text_data(1, packet.as_slice());
    put_chunk(&mut p, "iTXt", text.as_slice());
    let none: Vec<u8> = Vec::new();
    assert(none@ =~= seq![]);
    put_chunk(&mut p, "IEND", none.as_slice());
    p
}

fn riff_of(fourcc: &[u8], data: &[u8]) -> (r: Vec<u8>)
    ensures
        r@ == riff_bytes(fourcc@, data@),
{
    let mut c: Vec<u8> = Vec::new();
    put(&mut c, fourcc);
    put_le32(&mut c, len32(data.len(), 0));
    put(&mut c, data);
    if data.len() % 2 == 1 {
        c.push(0);
    }
    assert(c@ =~= riff_bytes(fourcc@, data@));
    c
}

pub fn riff_chunk(fourcc: &[u8; 4], data: &[u8]) -> (r: Vec<u8>)
    ensures
        r@ == riff_bytes(fourcc@, data@),
{
    riff_of(fourcc, data)
}

fn put_riff(b: &mut Vec<u8>, fourcc: &str, data: &[u8])
    ensures
        final(b)@ == old(b)@ + riff_bytes(lit(fourcc), data@),
{
    let c = riff_of(fourcc.as_bytes(), data);
    put(b, c.as_slice());
}

/// The container around a body.
pub open spec fn riff_file(body: Seq<u8>) -> Seq<u8> {
    lit("RIFF") + le32_bytes(low32(body.len() as int)) + body
}

fn riff_around(body: &[u8]) -> (r: Vec<u8>)
    ensures
        r@ == riff_file(body@),
{
    let mut f = bytes_of("RIFF");
    put_le32(&mut f, len32(body.len(), 0));
    put(&mut f, body);
    f
}

/// A size of 640 by 480, each less one in three bytes.
pub open spec fn vp8x_data() -> Seq<u8> {
    seq![0u8, 0u8, 0u8, 0u8, 0x7Fu8, 0x02u8, 0u8, 0xDFu8, 0x01u8, 0u8]
}

/// A size, EXIF and XMP.
pub open spec fn webp_file() -> Seq<u8> {
    riff_file(
        lit("WEBP") + riff_bytes(lit("VP8X"), vp8x_data()) + riff_bytes(lit("EXIF"), tiff_basic())
            + riff_bytes(lit("XMP "), acme_xmp()),
    )
}

pub fn fixture_webp() -> (r: Vec<u8>)
    ensures
        r@ == webp_file(),
{
    let mut b = bytes_of("WEBP");
    let size: Vec<u8> = vec![0, 0, 0, 0, 0x7F, 0x02, 0, 0xDF, 0x01, 0];
    assert(size@ =~= vp8x_data());
    put_riff(&mut b, "VP8X", size.as_slice());
    let tiff = make_tiff();
    put_riff(&mut b, "EXIF", tiff.as_slice());
    let packet = acme();
    put_riff(&mut b, "XMP ", packet.as_slice());
    riff_around(b.as_slice())
}

/// A lossless image of 100 by 80: the sizes less one, in fourteen bits each.
pub open spec fn vp8l_data() -> Seq<u8> {
    seq![0x2Fu8] + le32_bytes((99 + 79 * 0x4000) as u32)
}

pub open spec fn webp_lossless() -> Seq<u8> {
    riff_file(
        lit("WEBP") + riff_bytes(lit("VP8L"), vp8l_data()) + riff_bytes(lit("XMP "), acme_xmp()),
    )
}

pub fn fixture_webp_vp8l() -> (r: Vec<u8>)
    ensures
        r@ == webp_lossless(),
{
    let mut b = bytes_of("WEBP");
    let mut size: Vec<u8> = vec![0x2F];
    assert(size@ =~= seq![0x2Fu8]);
    put_le32(&mut size, 99 + 79 * 0x4000);
    put_riff(&mut b, "VP8L", size.as_slice());
    let packet = acme();
    put_riff(&mut b, "XMP ", packet.as_slice());
    riff_around(b.as_slice())
}

/// The bytes from 255 down to nought, the trailer of an XMP packet in a GIF file.
pub open spec fn countdown() -> Seq<u8> {
    Seq::new(256, |i: int| (255 - i) as u8)
}

fn put_countdown(g: &mut Vec<u8>)
    ensures
        final(g)@ == old(g)@ + countdown(),
{
    let ghost start = g@;
    let mut i: usize = 0;
    while i < 256
        invariant
            i <= 256,
            start == old(g)@,
            g@ =~= start + countdown().take(i as int),
        decreases 256 - i,
    {
        g.push((255 - i) as u8);
        i += 1;
    }
    assert(countdown().take(256) =~= countdown());
}

/// A size and XMP.
pub open spec fn gif_file() -> Seq<u8> {
    lit("GIF89a") + le16_bytes(800) + le16_bytes(600) + seq![0u8, 0u8, 0u8, 0x21u8, 0xFFu8, 0x0Bu8]
        + lit("XMP DataXMP") + acme_xmp() + seq![1u8] + countdown() + seq![0x3Bu8]
}

pub fn fixture_gif() -> (r: Vec<u8>)
    ensures
        r@ == gif_file(),
{
    let mut g = bytes_of("GIF89a");
    put_le16(&mut g, 800);
    put_le16(&mut g, 600);
    put(&mut g, &[0, 0, 0, 0x21, 0xFF, 0x0B]);
    put_str(&mut g, "XMP DataXMP");
    let packet = acme();
    put(&mut g, packet.as_slice());
    put(&mut g, &[1]);
    put_countdown(&mut g);
    put(&mut g, &[0x3B]);
    g
}

} // verus!
