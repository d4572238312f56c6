//! GIF files.
use omni_meta::demand::{Demand, MetaParser};
use omni_meta::driver::{drive_slice, finalize, Collector};
use omni_meta::formats::gif::GifParser;
use omni_meta::{FileFormat, Limits};

fn header_lsd(w: u16, h: u16, gct: bool) -> Vec<u8> {
    let mut g = Vec::new();
    g.extend_from_slice(b"GIF89a");
    g.extend_from_slice(&w.to_le_bytes());
    g.extend_from_slice(&h.to_le_bytes());
    g.push(if gct { 0x80 } else { 0x00 });
    g.push(0);
    g.push(0);
    g
}

fn xmp_app_ext(packet: &[u8]) -> Vec<u8> {
    let mut e = Vec::new();
    e.push(0x21);
    e.push(0xFF);
    e.push(0x0B);
    e.extend_from_slice(b"XMP DataXMP");
    e.extend_from_slice(packet);

    e.push(0x01);
    for v in (0u8..=0xFF).rev() {
        e.push(v);
    }
    e
}

fn collect(buf: &[u8]) -> Collector {
    let mut p = GifParser::new();
    drive_slice(buf, &mut p, Limits::default())
}

#[test]
fn lsd_dimensions_and_xmp() {
    let mut g = header_lsd(800, 600, false);
    g.extend_from_slice(&xmp_app_ext(br#"<rdf:Description tiff:Make="Acme"/>"#));
    g.push(0x3B);
    let col = collect(&g);
    let meta = finalize(col, FileFormat::Gif);
    assert_eq!(meta.unified.width, Some(800));
    assert_eq!(meta.unified.height, Some(600));
    assert!(meta.raw.xmp.iter().any(|x| x.name == "Make" && x.value == "Acme"));
}

#[test]
fn skips_comment_extension() {
    let mut g = header_lsd(2, 2, false);

    g.push(0x21);
    g.push(0xFE);
    g.push(2);
    g.extend_from_slice(b"hi");
    g.push(0x00);
    g.push(0x3B);
    let col = collect(&g);
    assert!(col.warnings.is_empty(), "warnings: {:?}", col.warnings);
    assert!(col.xmp.is_empty());
}

#[test]
fn non_gif_done_no_events() {
    let mut p = GifParser::new();
    let res = p.pull(b"NOTAGIFFFFFFF");
    assert_eq!(res.demand, Demand::Done);
    assert!(res.events.is_empty());
}
