//! Boxes, and HEIC, MP4 and MOV files made of them.
use vstd::prelude::*;

use crate::bytes::{
    be16_bytes, be32_bytes, be64_bytes, lit, put, put_be16, put_be32, put_be64, put_str,
};
use crate::fixtures::jpeg::{make_tiff, tiff_basic};
use crate::fixtures::parts::{acme, acme_xmp, bytes_of, len32, low32, nought, zeros};

verus! {

/// A box: size, type and payload.
#[verifier::opaque]
pub open spec fn box_of(kind: Seq<u8>, payload: Seq<u8>) -> Seq<u8> {
    be32_bytes(low32(payload.len() as int + 8)) + kind + payload
}

fn any_box(kind: &[u8], payload: &[u8]) -> (r: Vec<u8>)
    ensures
        r@ == box_of(kind@, payload@),
{
    reveal(box_of);
    let mut b: Vec<u8> = Vec::new();
    put_be32(&mut b, len32(payload.len(), 8));
    put(&mut b, kind);
    put(&mut b, payload);
    assert(b@ =~= box_of(kind@, payload@));
    b
}

pub fn bmff_box(kind: &[u8; 4], payload: &[u8]) -> (r: Vec<u8>)
    ensures
        r@ == box_of(kind@, payload@),
{
    any_box(kind, payload)
}

fn named_box(kind: &str, payload: &[u8]) -> (r: Vec<u8>)
    ensures
        r@ == box_of(lit(kind), payload@),
{
    any_box(kind.as_bytes(), payload)
}

fn put_box(b: &mut Vec<u8>, kind: &str, payload: &[u8])
    ensures
        final(b)@ == old(b)@ + box_of(lit(kind), payload@),
{
    let x = named_box(kind, payload);
    put(b, x.as_slice());
}

/// The version and flags of a box of version nought.
pub open spec fn plain_head() -> Seq<u8> {
    seq![0u8, 0u8, 0u8, 0u8]
}

fn start_plain() -> (r: Vec<u8>)
    ensures
        r@ == plain_head(),
{
    let v: Vec<u8> = vec![0, 0, 0, 0];
    assert(v@ =~= plain_head());
    v
}

/// An item: its number, its type, no name, and a content type where it has one.
pub open spec fn infe_box(id: u16, typ: Seq<u8>, content_type: Option<Seq<u8>>) -> Seq<u8> {
    let p = seq![2u8, 0u8, 0u8, 0u8] + be16_bytes(id) + be16_bytes(0) + typ + seq![0u8];
    box_of(
        lit("infe"),
        match content_type {
            Some(ct) => p + ct + seq![0u8],
            None => p,
        },
    )
}

pub open spec fn opt_view(o: Option<&[u8]>) -> Option<Seq<u8>> {
    match o {
        Some(s) => Some(s@),
        None => None,
    }
}

fn any_infe(id: u16, typ: &[u8], content_type: Option<&[u8]>) -> (r: Vec<u8>)
    ensures
        r@ == infe_box(id, typ@, opt_view(content_type)),
{
    let mut p: Vec<u8> = vec![2, 0, 0, 0];
    assert(p@ =~= seq![2u8, 0u8, 0u8, 0u8]);
    put_be16(&mut p, id);
    put_be16(&mut p, 0);
    put(&mut p, typ);
    put(&mut p, &[0]);
    match content_type {
        Some(ct) => {
            put(&mut p, ct);
            put(&mut p, &[0]);
        },
        None => {},
    }
    let ghost head = seq![2u8, 0u8, 0u8, 0u8] + be16_bytes(id) + be16_bytes(0) + typ@ + seq![0u8];
    assert(p@ =~= match opt_view(content_type) {
        Some(ct) => head + ct + seq![0u8],
        None => head,
    });
    named_box("infe", p.as_slice())
}

pub fn bmff_infe(id: u16, typ: &[u8; 4], content_type: Option<&[u8]>) -> (r: Vec<u8>)
    ensures
        r@ == infe_box(id, typ@, opt_view(content_type)),
{
    any_infe(id, typ, content_type)
}

/// The size of an image.
pub open spec fn ispe_box(w: u32, h: u32) -> Seq<u8> {
    box_of(lit("ispe"), plain_head() + be32_bytes(w) + be32_bytes(h))
}

pub fn bmff_ispe(w: u32, h: u32) -> (r: Vec<u8>)
    ensures
        r@ == ispe_box(w, h),
{
    let mut p = start_plain();
    put_be32(&mut p, w);
    put_be32(&mut p, h);
    named_box("ispe", p.as_slice())
}

/// The place of an item in the file.
pub open spec fn iloc_entry(id: u16, off: u64, len: u64) -> Seq<u8> {
    be16_bytes(id) + be16_bytes(0) + be16_bytes(1) + be32_bytes(low32(off as int)) + be32_bytes(
        low32(len as int),
    )
}

fn put_iloc_entry(p: &mut Vec<u8>, id: u16, off: u64, len: u64)
    ensures
        final(p)@ == old(p)@ + iloc_entry(id, off, len),
{
    put_be16(p, id);
    put_be16(p, 0);
    put_be16(p, 1);
    put_be32(p, (off % 0x1_0000_0000) as u32);
    put_be32(p, (len % 0x1_0000_0000) as u32);
    assert(p@ =~= old(p)@ + iloc_entry(id, off, len));
}

/// Item information: EXIF and XMP.
pub open spec fn iinf_box() -> Seq<u8> {
    box_of(
        lit("iinf"),
        plain_head() + be16_bytes(2) + infe_box(1, lit("Exif"), None) + infe_box(
            2,
            lit("mime"),
            Some(lit("application/rdf+xml")),
        ),
    )
}

fn make_iinf() -> (r: Vec<u8>)
    ensures
        r@ == iinf_box(),
{
    let mut p = start_plain();
    put_be16(&mut p, 2);
    let exif = any_infe(1, "Exif".as_bytes(), None);
    put(&mut p, exif.as_slice());
    let mime = any_infe(2, "mime".as_bytes(), Some("application/rdf+xml".as_bytes()));
    put(&mut p, mime.as_slice());
    named_box("iinf", p.as_slice())
}

/// Item properties: one size, for the first item.
pub open spec fn iprp_box() -> Seq<u8> {
    box_of(
        lit("iprp"),
        box_of(lit("ipco"), ispe_box(4032, 3024)) + box_of(
            lit("ipma"),
            plain_head() + be32_bytes(1) + be16_bytes(1) + seq![1u8, 1u8],
        ),
    )
}

fn make_iprp() -> (r: Vec<u8>)
    ensures
        r@ == iprp_box(),
{
    let size = bmff_ispe(4032, 3024);
    let mut p = named_box("ipco", size.as_slice());
    let mut ipma = start_plain();
    put_be32(&mut ipma, 1);
    put_be16(&mut ipma, 1);
    put(&mut ipma, &[1, 1]);
    put_box(&mut p, "ipma", ipma.as_slice());
    named_box("iprp", p.as_slice())
}

/// The `meta` box of an image with an EXIF item and an XMP item.
pub open spec fn meta_box(exif_off: u64, exif_len: u64, xmp_off: u64, xmp_len: u64) -> Seq<u8> {
    box_of(
        lit("meta"),
        plain_head() + box_of(lit("pitm"), plain_head() + be16_bytes(1)) + iinf_box() + iprp_box()
            + box_of(
            lit("iloc"),
            plain_head() + seq![0x44u8, 0u8] + be16_bytes(2) + iloc_entry(1, exif_off, exif_len)
                + iloc_entry(2, xmp_off, xmp_len),
        ),
    )
}

pub fn bmff_meta(exif_off: u64, exif_len: u64, xmp_off: u64, xmp_len: u64) -> (r: Vec<u8>)
    ensures
        r@ == meta_box(exif_off, exif_len, xmp_off, xmp_len),
{
    let mut p = start_plain();
    let mut pitm = start_plain();
    put_be16(&mut pitm, 1);
    put_box(&mut p, "pitm", pitm.as_slice());
    let iinf = make_iinf();
    put(&mut p, iinf.as_slice());
    let iprp = make_iprp();
    put(&mut p, iprp.as_slice());
    let mut iloc = start_plain();
    put(&mut iloc, &[0x44, 0]);
    put_be16(&mut iloc, 2);
    put_iloc_entry(&mut iloc, 1, exif_off, exif_len);
    put_iloc_entry(&mut iloc, 2, xmp_off, xmp_len);
    put_box(&mut p, "iloc", iloc.as_slice());
    named_box("meta", p.as_slice())
}

/// A file type box: the brand, no version, and brands it goes with.
pub open spec fn ftyp_box(brand: Seq<u8>, more: Seq<u8>) -> Seq<u8> {
    box_of(lit("ftyp"), brand + be32_bytes(0) + more)
}

fn make_ftyp(brand: &str, more: &str) -> (r: Vec<u8>)
    ensures
        r@ == ftyp_box(lit(brand), lit(more)),
{
    let mut p = bytes_of(brand);
    put_be32(&mut p, 0);
    put_str(&mut p, more);
    named_box("ftyp", p.as_slice())
}

/// How long the parts of the HEIC file are.
proof fn lemma_heic_lengths()
    ensures
        ftyp_box(lit("heic"), lit("mif1")).len() == 20,
        (plain_head() + tiff_basic()).len() == 47,
        acme_xmp().len() == 35,
        forall|a: u64, b: u64, c: u64, d: u64| #[trigger] meta_box(a, b, c, d).len() == 202,
{
    reveal(box_of);
    reveal_strlit("ftyp");
    reveal_strlit("heic");
    reveal_strlit("mif1");
    reveal_strlit("meta");
    reveal_strlit("pitm");
    reveal_strlit("iinf");
    reveal_strlit("iprp");
    reveal_strlit("iloc");
    reveal_strlit("ipco");
    reveal_strlit("ipma");
    reveal_strlit("ispe");
    reveal_strlit("infe");
    reveal_strlit("Exif");
    reveal_strlit("mime");
    reveal_strlit("application/rdf+xml");
    reveal_strlit("II");
    reveal_strlit("Acme\0");
    reveal_strlit("<rdf:Description tiff:Make=\"Acme\"/>");
    vstd::string::is_ascii_spec_bytes("ftyp");
    vstd::string::is_ascii_spec_bytes("heic");
    vstd::string::is_ascii_spec_bytes("mif1");
    vstd::string::is_ascii_spec_bytes("meta");
    vstd::string::is_ascii_spec_bytes("pitm");
    vstd::string::is_ascii_spec_bytes("iinf");
    vstd::string::is_ascii_spec_bytes("iprp");
    vstd::string::is_ascii_spec_bytes("iloc");
    vstd::string::is_ascii_spec_bytes("ipco");
    vstd::string::is_ascii_spec_bytes("ipma");
    vstd::string::is_ascii_spec_bytes("ispe");
    vstd::string::is_ascii_spec_bytes("infe");
    vstd::string::is_ascii_spec_bytes("Exif");
    vstd::string::is_ascii_spec_bytes("mime");
    vstd::string::is_ascii_spec_bytes("application/rdf+xml");
    vstd::string::is_ascii_spec_bytes("II");
    vstd::string::is_ascii_spec_bytes("Acme\0");
    vstd::string::is_ascii_spec_bytes("<rdf:Description tiff:Make=\"Acme\"/>");
}

/// EXIF and XMP as items, in the image data behind the `meta` box.
#[verifier::opaque]
pub open spec fn heic_file() -> Seq<u8> {
    let exif = plain_head() + tiff_basic();
    let (n, m) = (exif.len() as u64, acme_xmp().len() as u64);
    let ftyp = ftyp_box(lit("heic"), lit("mif1"));
    let base = (ftyp.len() + meta_box(0, n, 0, m).len() + 8) as u64;
    ftyp + meta_box(base, n, (base + n) as u64, m) + box_of(lit("mdat"), exif + acme_xmp())
}

pub fn fixture_bmff_heic() -> (r: Vec<u8>)
    ensures
        r@ == heic_file(),
{
    proof {
        reveal(heic_file);
        lemma_heic_lengths();
    }
    let mut exif = start_plain();
    let tiff = make_tiff();
    put(&mut exif, tiff.as_slice());
    let packet = acme();
    let n: u64 = exif.len() as u64;
    let m: u64 = packet.len() as u64;
    let mut f = make_ftyp("heic", "mif1");
    let probe = bmff_meta(0, n, 0, m);
    let base: u64 = f.len() as u64 + probe.len() as u64 + 8;
    let meta = bmff_meta(base, n, base + n, m);
    put(&mut f, meta.as_slice());
    put(&mut exif, packet.as_slice());
    put_box(&mut f, "mdat", exif.as_slice());
    f
}

/// A movie header of version 0.
pub open spec fn mvhd_v0(creation: u32, timescale: u32, duration: u32) -> Seq<u8> {
    plain_head() + be32_bytes(creation) + be32_bytes(0) + be32_bytes(timescale) + be32_bytes(
        duration,
    )
}

pub fn mp4_mvhd_v0(creation: u32, timescale: u32, duration: u32) -> (r: Vec<u8>)
    ensures
        r@ == mvhd_v0(creation, timescale, duration),
{
    let mut p = start_plain();
    put_be32(&mut p, creation);
    put_be32(&mut p, 0);
    put_be32(&mut p, timescale);
    put_be32(&mut p, duration);
    p
}

/// A movie header of version 1.
pub open spec fn mvhd_v1(creation: u64, timescale: u32, duration: u64) -> Seq<u8> {
    seq![1u8, 0u8, 0u8, 0u8] + be64_bytes(creation) + be64_bytes(0) + be32_bytes(timescale)
        + be64_bytes(duration)
}

pub fn mp4_mvhd_v1(creation: u64, timescale: u32, duration: u64) -> (r: Vec<u8>)
    ensures
        r@ == mvhd_v1(creation, timescale, duration),
{
    let mut p: Vec<u8> = vec![1, 0, 0, 0];
    assert(p@ =~= seq![1u8, 0u8, 0u8, 0u8]);
    put_be64(&mut p, creation);
    put_be64(&mut p, 0);
    put_be32(&mut p, timescale);
    put_be64(&mut p, duration);
    p
}

/// `x` as a fixed-point number with sixteen bits before the point; higher bits are lost.
pub open spec fn fixed16(x: u32) -> u32 {
    ((x % 0x1_0000) * 0x1_0000) as u32
}

/// A track header: the sizes are fixed-point numbers.
pub open spec fn tkhd_v0(w: u32, h: u32) -> Seq<u8> {
    seq![0u8, 0u8, 0u8, 7u8] + be32_bytes(0) + be32_bytes(0) + be32_bytes(1) + nought(60)
        + be32_bytes(fixed16(w)) + be32_bytes(fixed16(h))
}

pub fn mp4_tkhd_v0(w: u32, h: u32) -> (r: Vec<u8>)
    ensures
        r@ == tkhd_v0(w, h),
{
    let mut p: Vec<u8> = vec![0, 0, 0, 7];
    assert(p@ =~= seq![0u8, 0u8, 0u8, 7u8]);
    put_be32(&mut p, 0);
    put_be32(&mut p, 0);
    put_be32(&mut p, 1);
    let rest = zeros(60);
    put(&mut p, rest.as_slice());
    put_be32(&mut p, (w % 0x1_0000) * 0x1_0000);
    put_be32(&mut p, (h % 0x1_0000) * 0x1_0000);
    p
}

/// A `moov` box with a movie header and one track of the given size.
pub open spec fn moov_box(mvhd: Seq<u8>, w: u32, h: u32) -> Seq<u8> {
    box_of(
        lit("moov"),
        box_of(lit("mvhd"), mvhd) + box_of(lit("trak"), box_of(lit("tkhd"), tkhd_v0(w, h))),
    )
}

fn make_moov(mvhd: &[u8], w: u32, h: u32) -> (r: Vec<u8>)
    ensures
        r@ == moov_box(mvhd@, w, h),
{
    let mut p = named_box("mvhd", mvhd);
    let head = mp4_tkhd_v0(w, h);
    let tkhd = named_box("tkhd", head.as_slice());
    put_box(&mut p, "trak", tkhd.as_slice());
    named_box("moov", p.as_slice())
}

pub open spec fn mp4_ftyp() -> Seq<u8> {
    ftyp_box(lit("isom"), lit("mp42"))
}

#[verifier::opaque]
pub open spec fn mp4_file() -> Seq<u8> {
    mp4_ftyp() + moov_box(mvhd_v0(2_082_844_800, 600, 900_900), 1920, 1080)
}

pub fn fixture_bmff_mp4() -> (r: Vec<u8>)
    ensures
        r@ == mp4_file(),
{
    reveal(mp4_file);
    let mut f = make_ftyp("isom", "mp42");
    let mvhd = mp4_mvhd_v0(2_082_844_800, 600, 900_900);
    let moov = make_moov(mvhd.as_slice(), 1920, 1080);
    put(&mut f, moov.as_slice());
    f
}

/// The movie header comes behind image data that is longer than a read.
#[verifier::opaque]
pub open spec fn mp4_moov_last() -> Seq<u8> {
    mp4_ftyp() + box_of(lit("mdat"), nought(10_000)) + moov_box(mvhd_v0(0, 1000, 5000), 640, 480)
}

pub fn fixture_bmff_mp4_moov_after_mdat() -> (r: Vec<u8>)
    ensures
        r@ == mp4_moov_last(),
{
    reveal(mp4_moov_last);
    let mut f = make_ftyp("isom", "mp42");
    let data = zeros(10_000);
    put_box(&mut f, "mdat", data.as_slice());
    let mvhd = mp4_mvhd_v0(0, 1000, 5000);
    let moov = make_moov(mvhd.as_slice(), 640, 480);
    put(&mut f, moov.as_slice());
    f
}

#[verifier::opaque]
pub open spec fn mp4_file_v1() -> Seq<u8> {
    mp4_ftyp() + moov_box(mvhd_v1(2_082_844_800, 1000, 5000), 1280, 720)
}

pub fn fixture_bmff_mp4_v1() -> (r: Vec<u8>)
    ensures
        r@ == mp4_file_v1(),
{
    reveal(mp4_file_v1);
    let mut f = make_ftyp("isom", "mp42");
    let mvhd = mp4_mvhd_v1(2_082_844_800, 1000, 5000);
    let moov = make_moov(mvhd.as_slice(), 1280, 720);
    put(&mut f, moov.as_slice());
    f
}

/// A handler box that announces keyed metadata.
pub open spec fn mdta_handler() -> Seq<u8> {
    nought(8) + lit("mdta") + nought(13)
}

fn make_handler() -> (r: Vec<u8>)
    ensures
        r@ == mdta_handler(),
{
    let mut h = zeros(8);
    put_str(&mut h, "mdta");
    let rest = zeros(13);
    put(&mut h, rest.as_slice());
    h
}

/// An entry of a list of keys.
pub open spec fn key_entry(key: Seq<u8>) -> Seq<u8> {
    be32_bytes(low32(key.len() as int + 8)) + lit("mdta") + key
}

pub open spec fn key_entries(keys: Seq<Seq<u8>>) -> Seq<u8>
    decreases keys.len(),
{
    if keys.len() == 0 {
        seq![]
    } else {
        key_entries(keys.drop_last()) + key_entry(keys.last())
    }
}

fn put_key(k: &mut Vec<u8>, key: &str)
    ensures
        final(k)@ == old(k)@ + key_entry(lit(key)),
{
    let bytes = key.as_bytes();
    put_be32(k, len32(bytes.len(), 8));
    put_str(k, "mdta");
    put(k, bytes);
    assert(k@ =~= old(k)@ + key_entry(lit(key)));
}

/// A value of the given type under the key with the number `idx`.
pub open spec fn item_entry(idx: u32, typ: u32, value: Seq<u8>) -> Seq<u8> {
    let data = box_of(lit("data"), be32_bytes(typ) + be32_bytes(0) + value);
    be32_bytes(low32(data.len() as int + 8)) + be32_bytes(idx) + data
}

fn put_item(l: &mut Vec<u8>, idx: u32, typ: u32, value: &[u8])
    ensures
        final(l)@ == old(l)@ + item_entry(idx, typ, value@),
{
    let mut d: Vec<u8> = Vec::new();
    put_be32(&mut d, typ);
    put_be32(&mut d, 0);
    put(&mut d, value);
    assert(d@ =~= be32_bytes(typ) + be32_bytes(0) + value@);
    let data = named_box("data", d.as_slice());
    put_be32(l, len32(data.len(), 8));
    put_be32(l, idx);
    put(l, data.as_slice());
    assert(l@ =~= old(l)@ + item_entry(idx, typ, value@));
}

/// Values, numbered from 1 on.
pub open spec fn item_entries(items: Seq<(u32, Seq<u8>)>) -> Seq<u8>
    decreases items.len(),
{
    if items.len() == 0 {
        seq![]
    } else {
        item_entries(items.drop_last()) + item_entry(
            low32(items.len() as int),
            items.last().0,
            items.last().1,
        )
    }
}

/// The payload of a `meta` box with keys and their values.
pub open spec fn keyed_meta(keys: Seq<Seq<u8>>, items: Seq<(u32, Seq<u8>)>) -> Seq<u8> {
    box_of(lit("hdlr"), mdta_handler()) + box_of(
        lit("keys"),
        plain_head() + be32_bytes(low32(keys.len() as int)) + key_entries(keys),
    ) + box_of(lit("ilst"), item_entries(items))
}

/// The keys and values of a list of typed items.
pub open spec fn typed_keys(items: Seq<(&str, u32, &[u8])>) -> Seq<Seq<u8>> {
    Seq::new(items.len(), |i: int| lit(items[i].0))
}

pub open spec fn typed_values(items: Seq<(&str, u32, &[u8])>) -> Seq<(u32, Seq<u8>)> {
    Seq::new(items.len(), |i: int| (items[i].1, items[i].2@))
}

pub fn qt_meta_typed(items: &[(&str, u32, &[u8])]) -> (r: Vec<u8>)
    ensures
        r@ == keyed_meta(typed_keys(items@), typed_values(items@)),
{
    let ghost ks = typed_keys(items@);
    let ghost vs = typed_values(items@);
    let mut keys = start_plain();
    put_be32(&mut keys, len32(items.len(), 0));
    let ghost head = keys@;
    let mut ilst: Vec<u8> = Vec::new();
    let mut i: usize = 0;
    assert(keys@ =~= head + key_entries(ks.take(0)));
    assert(ilst@ =~= item_entries(vs.take(0)));
    while i < items.len()
        invariant
            i <= items@.len(),
            ks == typed_keys(items@),
            vs == typed_values(items@),
            keys@ == head + key_entries(ks.take(i as int)),
            ilst@ == item_entries(vs.take(i as int)),
        decreases items@.len() - i,
    {
        let (k, t, v) = items[i];
        put_key(&mut keys, k);
        put_item(&mut ilst, len32(i, 1), t, v);
        i += 1;
        proof {
            assert(ks.take(i as int).drop_last() =~= ks.take(i - 1));
            assert(vs.take(i as int).drop_last() =~= vs.take(i - 1));
            assert(keys@ =~= head + key_entries(ks.take(i as int)));
        }
    }
    assert(ks.take(ks.len() as int) =~= ks);
    assert(vs.take(vs.len() as int) =~= vs);
    let handler = make_handler();
    let mut meta = named_box("hdlr", handler.as_slice());
    put_box(&mut meta, "keys", keys.as_slice());
    put_box(&mut meta, "ilst", ilst.as_slice());
    meta
}

/// The keys and values of a list of untyped items: their type is nought.
pub open spec fn plain_keys(items: Seq<(&str, &[u8])>) -> Seq<Seq<u8>> {
    Seq::new(items.len(), |i: int| lit(items[i].0))
}

pub open spec fn plain_values(items: Seq<(&str, &[u8])>) -> Seq<(u32, Seq<u8>)> {
    Seq::new(items.len(), |i: int| (0u32, items[i].1@))
}

pub fn qt_meta_with_keys_local(keys_and_vals: &[(&str, &[u8])]) -> (r: Vec<u8>)
    ensures
        r@ == keyed_meta(plain_keys(keys_and_vals@), plain_values(keys_and_vals@)),
{
    let mut items: Vec<(&str, u32, &[u8])> = Vec::new();
    let mut i: usize = 0;
    while i < keys_and_vals.len()
        invariant
            i <= keys_and_vals@.len(),
            items@.len() == i,
            forall|j: int| 0 <= j < i ==> (#[trigger] items@[j]).0 == keys_and_vals@[j].0,
            forall|j: int| 0 <= j < i ==> (#[trigger] items@[j]).1 == 0,
            forall|j: int| 0 <= j < i ==> (#[trigger] items@[j]).2 == keys_and_vals@[j].1,
        decreases keys_and_vals@.len() - i,
    {
        let (k, v) = keys_and_vals[i];
        items.push((k, 0, v));
        i += 1;
    }
    assert(typed_keys(items@) =~= plain_keys(keys_and_vals@));
    assert(typed_values(items@) =~= plain_values(keys_and_vals@));
    qt_meta_typed(items.as_slice())
}

/// A text with its length and a language in front.
pub open spec fn udta_text(text: Seq<u8>) -> Seq<u8> {
    be16_bytes((text.len() % 0x1_0000) as u16) + be16_bytes(0) + text
}

fn make_udta_text(text: &str) -> (r: Vec<u8>)
    ensures
        r@ == udta_text(lit(text)),
{
    let bytes = text.as_bytes();
    let mut p: Vec<u8> = Vec::new();
    put_be16(&mut p, (bytes.len() % 0x1_0000) as u16);
    put_be16(&mut p, 0);
    put(&mut p, bytes);
    assert(p@ =~= udta_text(lit(text)));
    p
}

/// A type that begins with a copyright sign.
pub open spec fn copyright_kind(rest: Seq<u8>) -> Seq<u8> {
    seq![0xA9u8] + rest
}

fn copyright_box(rest: &str, payload: &[u8]) -> (r: Vec<u8>)
    ensures
        r@ == box_of(copyright_kind(lit(rest)), payload@),
{
    let mut kind: Vec<u8> = vec![0xA9];
    assert(kind@ =~= seq![0xA9u8]);
    put_str(&mut kind, rest);
    any_box(kind.as_slice(), payload)
}

/// The payload of a `meta` box with two keys and their values of the given type.
pub open spec fn two_keys(
    k1: Seq<u8>,
    k2: Seq<u8>,
    typ: u32,
    v1: Seq<u8>,
    v2: Seq<u8>,
) -> Seq<u8> {
    keyed_meta(seq![k1, k2], seq![(typ, v1), (typ, v2)])
}

fn make_two_keys(k1: &str, k2: &str, typ: u32, v1: &str, v2: &str) -> (r: Vec<u8>)
    ensures
        r@ == two_keys(lit(k1), lit(k2), typ, lit(v1), lit(v2)),
{
    let mut items: Vec<(&str, u32, &[u8])> = Vec::new();
    items.push((k1, typ, v1.as_bytes()));
    items.push((k2, typ, v2.as_bytes()));
    assert(typed_keys(items@) =~= seq![lit(k1), lit(k2)]);
    assert(typed_values(items@) =~= seq![(typ, lit(v1)), (typ, lit(v2))]);
    qt_meta_typed(items.as_slice())
}

/// A `moov` box with a movie header, user data and keyed metadata.
pub open spec fn moov_with_tags(mvhd: Seq<u8>, udta: Seq<u8>, meta: Seq<u8>) -> Seq<u8> {
    box_of(
        lit("moov"),
        box_of(lit("mvhd"), mvhd) + box_of(lit("udta"), udta) + box_of(lit("meta"), meta),
    )
}

fn make_moov_with_tags(mvhd: &[u8], udta: &[u8], meta: &[u8]) -> (r: Vec<u8>)
    ensures
        r@ == moov_with_tags(mvhd@, udta@, meta@),
{
    let mut p = named_box("mvhd", mvhd);
    put_box(&mut p, "udta", udta);
    put_box(&mut p, "meta", meta);
    named_box("moov", p.as_slice())
}

/// A place, a maker and a model.
#[verifier::opaque]
pub open spec fn mov_file() -> Seq<u8> {
    ftyp_box(lit("qt  "), lit("")) + moov_with_tags(
        mvhd_v0(2_082_844_800, 600, 600),
        box_of(copyright_kind(lit("xyz")), udta_text(lit("+35.0000+139.0000/"))),
        two_keys(
            lit("com.apple.quicktime.make"),
            lit("com.apple.quicktime.model"),
            0,
            lit("Apple"),
            lit("iPhone 15"),
        ),
    )
}

pub fn build_mov_with_gps_and_mdta() -> (r: Vec<u8>)
    ensures
        r@ == mov_file(),
{
    reveal(mov_file);
    let mut f = make_ftyp("qt  ", "");
    let place = make_udta_text("+35.0000+139.0000/");
    let udta = copyright_box("xyz", place.as_slice());
    let meta = make_two_keys(
        "com.apple.quicktime.make",
        "com.apple.quicktime.model",
        0,
        "Apple",
        "iPhone 15",
    );
    let mvhd = mp4_mvhd_v0(2_082_844_800, 600, 600);
    let moov = make_moov_with_tags(mvhd.as_slice(), udta.as_slice(), meta.as_slice());
    put(&mut f, moov.as_slice());
    f
}

/// Software in the user data, software and author under keys.
#[verifier::opaque]
pub open spec fn mp4_with_tags() -> Seq<u8> {
    mp4_ftyp() + moov_with_tags(
        mvhd_v0(2_082_844_800, 600, 900_900),
        box_of(copyright_kind(lit("swr")), udta_text(lit("MyCam 1.0"))),
        two_keys(
            lit("com.apple.quicktime.software"),
            lit("com.apple.quicktime.author"),
            1,
            lit("13.5.1"),
            lit("Jane"),
        ),
    )
}

pub fn fixture_bmff_mp4_container_tags() -> (r: Vec<u8>)
    ensures
        r@ == mp4_with_tags(),
{
    reveal(mp4_with_tags);
    let mut f = make_ftyp("isom", "mp42");
    let text = make_udta_text("MyCam 1.0");
    let udta = copyright_box("swr", text.as_slice());
    let meta = make_two_keys(
        "com.apple.quicktime.software",
        "com.apple.quicktime.author",
        1,
        "13.5.1",
        "Jane",
    );
    let mvhd = mp4_mvhd_v0(2_082_844_800, 600, 900_900);
    let moov = make_moov_with_tags(mvhd.as_slice(), udta.as_slice(), meta.as_slice());
    put(&mut f, moov.as_slice());
    f
}

} // verus!
