//! PNG files.
use omni_meta::demand::{Demand, MetaParser};
use omni_meta::driver::{drive_slice, finalize, Collector};
use omni_meta::formats::png::PngParser;
use omni_meta::{FileFormat, Limits, TextValue, WarnKind};

const SIG: [u8; 8] = [0x89, 0x50, 0x4E, 0x47, 0x0D, 0x0A, 0x1A, 0x0A];

fn chunk(ctype: &[u8; 4], data: &[u8]) -> Vec<u8> {
    let mut c = Vec::new();
    c.extend_from_slice(&(data.len() as u32).to_be_bytes());
    c.extend_from_slice(ctype);
    c.extend_from_slice(data);
    c.extend_from_slice(&[0, 0, 0, 0]);
    c
}

fn ihdr(w: u32, h: u32) -> Vec<u8> {
    let mut d = Vec::new();
    d.extend_from_slice(&w.to_be_bytes());
    d.extend_from_slice(&h.to_be_bytes());
    d.extend_from_slice(&[8, 6, 0, 0, 0]);
    chunk(b"IHDR", &d)
}

fn itxt_xmp(packet: &[u8], compressed: bool) -> Vec<u8> {
    let mut d = Vec::new();
    d.extend_from_slice(b"XML:com.adobe.xmp");
    d.push(0);
    d.push(if compressed { 1 } else { 0 });
    d.push(0);
    d.push(0);
    d.push(0);
    d.extend_from_slice(packet);
    chunk(b"iTXt", &d)
}

fn full_png() -> Vec<u8> {
    let mut p = Vec::new();
    p.extend_from_slice(&SIG);
    p.extend_from_slice(&ihdr(1920, 1080));
    p.extend_from_slice(&chunk(b"eXIf", &[0xAA, 0xBB, 0xCC]));
    p.extend_from_slice(&itxt_xmp(br#"<rdf:Description tiff:Make="Acme"/>"#, false));
    p.extend_from_slice(&chunk(b"IDAT", &[1, 2, 3, 4]));
    p.extend_from_slice(&chunk(b"IEND", &[]));
    p
}

fn collect(buf: &[u8]) -> Collector {
    let mut p = PngParser::new();
    drive_slice(buf, &mut p, Limits::default())
}

fn text_chunk(kw: &[u8], val: &[u8]) -> Vec<u8> {
    let mut d = Vec::new();
    d.extend_from_slice(kw);
    d.push(0);
    d.extend_from_slice(val);
    chunk(b"tEXt", &d)
}

#[test]
fn text_chunk_parses_into_rawtext_latin1() {
    let mut p = Vec::new();
    p.extend_from_slice(&SIG);
    p.extend_from_slice(&ihdr(2, 2));
    p.extend_from_slice(&text_chunk(b"Author", b"Ada Lovelace"));
    p.extend_from_slice(&chunk(b"IEND", &[]));
    let col = collect(&p);
    let meta = finalize(col, FileFormat::Png);
    assert!(meta.raw.text.iter().any(|t| t.keyword == "Author"
        && t.value == TextValue::Latin1("Ada Lovelace".into())));
}

#[test]
fn text_chunk_empty_keyword_or_no_nul_is_dropped_silently() {
    for data in [&b"\0value"[..], &b"noseparator"[..]] {
        let mut p = Vec::new();
        p.extend_from_slice(&SIG);
        p.extend_from_slice(&ihdr(2, 2));
        p.extend_from_slice(&chunk(b"tEXt", data));
        p.extend_from_slice(&chunk(b"IEND", &[]));
        let col = collect(&p);
        assert!(col.warnings.is_empty());
        let meta = finalize(col, FileFormat::Png);
        assert!(meta.raw.text.is_empty());
    }
}

#[test]
fn text_chunk_keyword_too_long_warns_unrecognized() {
    let long_kw = [b'K'; 80];
    let mut p = Vec::new();
    p.extend_from_slice(&SIG);
    p.extend_from_slice(&ihdr(2, 2));
    p.extend_from_slice(&text_chunk(&long_kw, b"v"));
    p.extend_from_slice(&chunk(b"IEND", &[]));
    let col = collect(&p);
    assert!(
        col.warnings
            .iter()
            .any(|w| w.kind == WarnKind::UnrecognizedValue)
    );
    let meta = finalize(col, FileFormat::Png);
    assert!(meta.raw.text.is_empty());
}

#[test]
fn extracts_dimensions_exif_xmp() {
    let col = collect(&full_png());
    assert!(
        col.warnings
            .iter()
            .all(|w| w.kind == WarnKind::BadExifHeader),
        "warnings: {:?}",
        col.warnings
    );

    let meta = finalize(col, FileFormat::Png);
    assert_eq!(meta.unified.width, Some(1920));
    assert_eq!(meta.unified.height, Some(1080));
    assert!(
        meta.raw
            .xmp
            .iter()
            .any(|x| x.prefix == "tiff" && x.name == "Make" && x.value == "Acme")
    );
}

fn itxt(keyword: &[u8], compressed: bool, text: &[u8]) -> Vec<u8> {
    let mut d = Vec::new();
    d.extend_from_slice(keyword);
    d.push(0);
    d.push(if compressed { 1 } else { 0 });
    d.push(0);
    d.push(0);
    d.push(0);
    d.extend_from_slice(text);
    chunk(b"iTXt", &d)
}

#[test]
fn itxt_non_xmp_uncompressed_parses_utf8() {
    let mut p = Vec::new();
    p.extend_from_slice(&SIG);
    p.extend_from_slice(&ihdr(2, 2));
    p.extend_from_slice(&itxt(b"Description", false, "héllo".as_bytes()));
    p.extend_from_slice(&chunk(b"IEND", &[]));
    let meta = finalize(collect(&p), FileFormat::Png);
    assert!(meta.raw.text.iter().any(|t| t.keyword == "Description"
        && t.value == TextValue::Utf8("héllo".into())));
}

#[test]
fn itxt_invalid_utf8_warns_unrecognized() {
    let mut p = Vec::new();
    p.extend_from_slice(&SIG);
    p.extend_from_slice(&ihdr(2, 2));
    p.extend_from_slice(&itxt(b"Comment", false, &[0xFF, 0xFE]));
    p.extend_from_slice(&chunk(b"IEND", &[]));
    let col = collect(&p);
    assert!(
        col.warnings
            .iter()
            .any(|w| w.kind == WarnKind::UnrecognizedValue)
    );
    let meta = finalize(col, FileFormat::Png);
    assert!(meta.raw.text.is_empty());
}

#[test]
fn itxt_compressed_keeps_bytes_no_warning() {
    let mut p = Vec::new();
    p.extend_from_slice(&SIG);
    p.extend_from_slice(&ihdr(2, 2));
    p.extend_from_slice(&itxt(b"Description", true, &[0x78, 0x9c, 1, 2, 3]));
    p.extend_from_slice(&chunk(b"IEND", &[]));
    let col = collect(&p);
    assert!(
        !col.warnings
            .iter()
            .any(|w| w.kind == WarnKind::CompressedChunkSkipped)
    );
    let meta = finalize(col, FileFormat::Png);
    assert!(meta.raw.text.iter().any(|t| t.keyword == "Description"
        && matches!(t.value, TextValue::CompressedUtf8(_))));
}

#[test]
fn itxt_xmp_still_routes_to_xmp_unchanged() {
    let mut p = Vec::new();
    p.extend_from_slice(&SIG);
    p.extend_from_slice(&ihdr(2, 2));
    p.extend_from_slice(&itxt_xmp(br#"<rdf:Description tiff:Make="Acme"/>"#, false));
    p.extend_from_slice(&chunk(b"IEND", &[]));
    let meta = finalize(collect(&p), FileFormat::Png);
    assert!(meta.raw.text.is_empty());
    assert!(meta.raw.xmp.iter().any(|x| x.name == "Make"));
}

fn ztxt(keyword: &[u8], zdata: &[u8]) -> Vec<u8> {
    let mut d = Vec::new();
    d.extend_from_slice(keyword);
    d.push(0);
    d.push(0);
    d.extend_from_slice(zdata);
    chunk(b"zTXt", &d)
}

#[test]
fn ztxt_keeps_compressed_latin1_no_warning() {
    let mut p = Vec::new();
    p.extend_from_slice(&SIG);
    p.extend_from_slice(&ihdr(2, 2));
    p.extend_from_slice(&ztxt(b"Comment", &[0x78, 0x9c, 9, 8, 7]));
    p.extend_from_slice(&chunk(b"IEND", &[]));
    let col = collect(&p);
    assert!(
        !col.warnings
            .iter()
            .any(|w| w.kind == WarnKind::CompressedChunkSkipped)
    );
    let meta = finalize(col, FileFormat::Png);
    assert!(meta.raw.text.iter().any(|t| t.keyword == "Comment"
        && matches!(t.value, TextValue::CompressedLatin1(_))));
}

#[test]
fn non_png_signature_done_no_events() {
    let mut p = PngParser::new();
    let res = p.pull(&[0u8; 8]);
    assert_eq!(res.demand, Demand::Done);
    assert!(res.events.is_empty());
}

#[test]
fn truncated_chunk_requests_more() {
    let mut p = Vec::new();
    p.extend_from_slice(&SIG);
    p.extend_from_slice(&100u32.to_be_bytes());
    p.extend_from_slice(b"eXIf");
    p.extend_from_slice(&[1, 2, 3]);
    let mut parser = PngParser::new();
    let res = parser.pull(&p);
    assert!(matches!(res.demand, Demand::NeedBytes(_)));
}
