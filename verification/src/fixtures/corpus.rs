//! The files of a corpus by name, and a reader that feeds a stream in equal pieces.
use vstd::prelude::*;

use crate::adapters::push::{push_fed, push_finished, push_start, PushParser, PushView};
use crate::adapters::slice::{reads_as, Options};
use crate::bytes::{lit, part};
use crate::driver::Outcome;
use crate::error::Error;
use crate::fixtures::bmff::{
    build_mov_with_gps_and_mdta, fixture_bmff_heic, fixture_bmff_mp4,
    fixture_bmff_mp4_container_tags, fixture_bmff_mp4_moov_after_mdat, fixture_bmff_mp4_v1,
    heic_file, mov_file, mp4_file, mp4_file_v1, mp4_moov_last, mp4_with_tags,
};
use crate::fixtures::ebml::{
    ebml_file, ebml_unknown_size, fixture_ebml, fixture_ebml_unknown_size_segment,
};
use crate::fixtures::images::{
    fixture_gif, fixture_png, fixture_png_compressed_itxt, fixture_webp, fixture_webp_vp8l,
    gif_file, png_compressed, png_file, webp_file, webp_lossless,
};
use crate::fixtures::jpeg::{
    build_jpeg_with_gps_ifd, fixture_plain, fixture_truncated, fixture_with_sof, jpeg_with_sof,
    make_tiff, make_tiff_datetime_original, make_tiff_gps_list, make_tiff_subifd,
    make_tiff_thumbnail, tiff_basic, tiff_datetime_original, tiff_gps, tiff_gps_list, tiff_subifd,
    tiff_thumbnail, wrapped, wrapped_tiff,
};
use crate::fixtures::parts::bytes_of;
use crate::model::{Metadata, MetadataView};

verus! {

/// Names and bytes.
pub open spec fn named(v: Seq<(&'static str, Vec<u8>)>) -> Seq<(Seq<char>, Seq<u8>)> {
    Seq::new(v.len(), |i: int| (v[i].0@, v[i].1@))
}

fn keep(v: &mut Vec<(&'static str, Vec<u8>)>, name: &'static str, bytes: Vec<u8>)
    ensures
        named(final(v)@) == named(old(v)@).push((name@, bytes@)),
{
    v.push((name, bytes));
    assert(named(v@) =~= named(old(v)@).push((name@, bytes@)));
}

fn nothing_kept() -> (r: Vec<(&'static str, Vec<u8>)>)
    ensures
        named(r@) == Seq::<(Seq<char>, Seq<u8>)>::empty(),
{
    let v: Vec<(&'static str, Vec<u8>)> = Vec::new();
    assert(named(v@) =~= seq![]);
    v
}

fn keep_bmff(v: &mut Vec<(&'static str, Vec<u8>)>)
    ensures
        named(final(v)@) == named(old(v)@) + bmff_seeds(),
{
    keep(v, "heic", fixture_bmff_heic());
    keep(v, "mp4", fixture_bmff_mp4());
    keep(v, "mp4_v1", fixture_bmff_mp4_v1());
    keep(v, "mp4_moov_after_mdat", fixture_bmff_mp4_moov_after_mdat());
    keep(v, "mp4_container_tags", fixture_bmff_mp4_container_tags());
    keep(v, "mov_gps_mdta", build_mov_with_gps_and_mdta());
    assert(named(v@) =~= named(old(v)@) + bmff_seeds());
}

fn keep_ebml(v: &mut Vec<(&'static str, Vec<u8>)>)
    ensures
        named(final(v)@) == named(old(v)@) + ebml_seeds(),
{
    keep(v, "webm", fixture_ebml("webm".as_bytes()));
    keep(v, "matroska", fixture_ebml("matroska".as_bytes()));
    keep(v, "unknown_size_segment", fixture_ebml_unknown_size_segment());
    assert(named(v@) =~= named(old(v)@) + ebml_seeds());
}

pub open spec fn bmff_seeds() -> Seq<(Seq<char>, Seq<u8>)> {
    seq![
        ("heic"@, heic_file()),
        ("mp4"@, mp4_file()),
        ("mp4_v1"@, mp4_file_v1()),
        ("mp4_moov_after_mdat"@, mp4_moov_last()),
        ("mp4_container_tags"@, mp4_with_tags()),
        ("mov_gps_mdta"@, mov_file()),
    ]
}

pub fn bmff_corpus() -> (r: Vec<(&'static str, Vec<u8>)>)
    ensures
        named(r@) == bmff_seeds(),
{
    let mut v = nothing_kept();
    keep_bmff(&mut v);
    assert(named(v@) =~= bmff_seeds());
    v
}

pub open spec fn ebml_seeds() -> Seq<(Seq<char>, Seq<u8>)> {
    seq![
        ("webm"@, ebml_file(lit("webm"))),
        ("matroska"@, ebml_file(lit("matroska"))),
        ("unknown_size_segment"@, ebml_unknown_size()),
    ]
}

pub fn ebml_corpus() -> (r: Vec<(&'static str, Vec<u8>)>)
    ensures
        named(r@) == ebml_seeds(),
{
    let mut v = nothing_kept();
    keep_ebml(&mut v);
    assert(named(v@) =~= ebml_seeds());
    v
}

pub open spec fn image_seeds() -> Seq<(Seq<char>, Seq<u8>)> {
    seq![
        ("jpeg_plain"@, wrapped(seq![], true, true)),
        ("jpeg_sof"@, jpeg_with_sof()),
        (
            "jpeg_truncated"@,
            seq![0xFFu8, 0xD8u8, 0xFFu8, 0xE1u8] + crate::bytes::be16_bytes(200) + lit("Exif\0\0")
                + seq![0xAAu8, 0xBBu8],
        ),
        ("jpeg_gps_ifd"@, wrapped_tiff(tiff_gps())),
        ("png"@, png_file()),
        ("png_itxt"@, png_compressed()),
        ("webp"@, webp_file()),
        ("webp_vp8l"@, webp_lossless()),
        ("gif"@, gif_file()),
    ]
}

/// Whole files of every format.
pub fn file_corpus() -> (r: Vec<(&'static str, Vec<u8>)>)
    ensures
        named(r@) == image_seeds() + bmff_seeds() + ebml_seeds(),
{
    let mut v = nothing_kept();
    keep(&mut v, "jpeg_plain", fixture_plain());
    keep(&mut v, "jpeg_sof", fixture_with_sof());
    keep(&mut v, "jpeg_truncated", fixture_truncated());
    keep(&mut v, "jpeg_gps_ifd", build_jpeg_with_gps_ifd());
    keep(&mut v, "png", fixture_png());
    keep(&mut v, "png_itxt", fixture_png_compressed_itxt());
    keep(&mut v, "webp", fixture_webp());
    keep(&mut v, "webp_vp8l", fixture_webp_vp8l());
    keep(&mut v, "gif", fixture_gif());
    assert(named(v@) =~= image_seeds());
    keep_bmff(&mut v);
    keep_ebml(&mut v);
    v
}

pub open spec fn tiff_seeds() -> Seq<(Seq<char>, Seq<u8>)> {
    seq![
        ("tiff_basic"@, tiff_basic()),
        ("tiff_subifd"@, tiff_subifd()),
        ("tiff_gps_list"@, tiff_gps_list()),
        ("tiff_thumbnail"@, tiff_thumbnail()),
        ("tiff_datetime_original"@, tiff_datetime_original()),
    ]
}

/// TIFF data, for the EXIF decoder.
pub fn tiff_corpus() -> (r: Vec<(&'static str, Vec<u8>)>)
    ensures
        named(r@) == tiff_seeds(),
{
    let mut v = nothing_kept();
    keep(&mut v, "tiff_basic", make_tiff());
    keep(&mut v, "tiff_subifd", make_tiff_subifd());
    keep(&mut v, "tiff_gps_list", make_tiff_gps_list());
    keep(&mut v, "tiff_thumbnail", make_tiff_thumbnail());
    keep(&mut v, "tiff_datetime_original", make_tiff_datetime_original());
    assert(named(v@) =~= tiff_seeds());
    v
}

pub open spec fn xmp_seeds() -> Seq<(Seq<char>, Seq<u8>)> {
    seq![
        (
            "xmp_attr"@,
            lit(
                "<?xpacket?><rdf:Description xmlns:tiff=\"ns\" tiff:Make=\"Acme\" tiff:Model=\"X1\"/>",
            ),
        ),
        (
            "xmp_elem"@,
            lit(
                "<rdf:Description><dc:creator><rdf:Seq><rdf:li>Jane</rdf:li></rdf:Seq></dc:creator></rdf:Description>",
            ),
        ),
    ]
}

/// Packets, for the XMP decoder.
pub fn xmp_corpus() -> (r: Vec<(&'static str, Vec<u8>)>)
    ensures
        named(r@) == xmp_seeds(),
{
    let mut v = nothing_kept();
    keep(
        &mut v,
        "xmp_attr",
        bytes_of(
            "<?xpacket?><rdf:Description xmlns:tiff=\"ns\" tiff:Make=\"Acme\" tiff:Model=\"X1\"/>",
        ),
    );
    keep(
        &mut v,
        "xmp_elem",
        bytes_of(
            "<rdf:Description><dc:creator><rdf:Seq><rdf:li>Jane</rdf:li></rdf:Seq></dc:creator></rdf:Description>",
        ),
    );
    assert(named(v@) =~= xmp_seeds());
    v
}

/// The end of the piece that begins at `i`.
pub open spec fn piece_end(len: int, i: int, chunk: int) -> int {
    if i + chunk < len {
        i + chunk
    } else {
        len
    }
}

/// What feeding `bytes` from `i` on in pieces of `chunk` bytes comes to, until the stream
/// wants no more.
#[verifier::opaque]
pub open spec fn push_run(v: PushView, bytes: Seq<u8>, i: int, chunk: int) -> Option<MetadataView>
    decreases bytes.len() - i,
{
    if i >= bytes.len() || chunk <= 0 {
        push_finished(v)
    } else {
        let end = piece_end(bytes.len() as int, i, chunk);
        let (w, o) = push_fed(v, bytes.subrange(i, end));
        match o {
            Ok(Outcome::Done) => push_finished(w),
            Ok(_) => push_run(w, bytes, end, chunk),
            Err(_) => None,
        }
    }
}

/// Reads `bytes` as a stream that arrives in pieces of `chunk` bytes.
pub fn push_drive(bytes: &[u8], opts: Options, chunk: usize) -> (r: Result<Metadata, Error>)
    requires
        chunk > 0,
    ensures
        reads_as(r, push_run(push_start(opts.limits), bytes@, 0, chunk as int)),
{
    let mut p = PushParser::new(opts);
    let mut i: usize = 0;
    let ghost goal = push_run(p@, bytes@, 0, chunk as int);
    while i < bytes.len()
        invariant
            chunk > 0,
            i <= bytes@.len(),
            p.wf(),
            goal == push_run(push_start(opts.limits), bytes@, 0, chunk as int),
            push_run(p@, bytes@, i as int, chunk as int) == goal,
        decreases bytes@.len() - i,
    {
        proof {
            reveal(push_run);
        }
        let end: usize = if chunk < bytes.len() - i {
            i + chunk
        } else {
            bytes.len()
        };
        match p.feed(part(bytes, i, end)) {
            Ok(Outcome::Done) => {
                return p.finish();
            },
            Ok(_) => {},
            Err(e) => {
                return Err(e);
            },
        }
        i = end;
    }
    proof {
        reveal(push_run);
    }
    p.finish()
}

} // verus!
