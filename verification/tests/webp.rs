//! WebP files.
use omni_meta::demand::{Demand, MetaParser};
use omni_meta::driver::{drive_slice, finalize, Collector};
use omni_meta::formats::webp::WebpParser;
use omni_meta::{FileFormat, Limits};

fn riff_chunk(fourcc: &[u8; 4], data: &[u8]) -> Vec<u8> {
    let mut c = Vec::new();
    c.extend_from_slice(fourcc);
    c.extend_from_slice(&(data.len() as u32).to_le_bytes());
    c.extend_from_slice(data);
    if data.len() % 2 == 1 {
        c.push(0);
    }
    c
}

fn vp8x_data(w: u32, h: u32) -> Vec<u8> {
    let mut d = vec![0u8; 10];

    let wm1 = w - 1;
    let hm1 = h - 1;
    d[4] = (wm1 & 0xFF) as u8;
    d[5] = ((wm1 >> 8) & 0xFF) as u8;
    d[6] = ((wm1 >> 16) & 0xFF) as u8;
    d[7] = (hm1 & 0xFF) as u8;
    d[8] = ((hm1 >> 8) & 0xFF) as u8;
    d[9] = ((hm1 >> 16) & 0xFF) as u8;
    d
}

fn fixture(extra: &[u8]) -> Vec<u8> {
    let mut body = Vec::new();
    body.extend_from_slice(b"WEBP");
    body.extend_from_slice(&riff_chunk(b"VP8X", &vp8x_data(640, 480)));
    body.extend_from_slice(extra);
    let mut f = Vec::new();
    f.extend_from_slice(b"RIFF");
    f.extend_from_slice(&(body.len() as u32).to_le_bytes());
    f.extend_from_slice(&body);
    f
}

fn collect(buf: &[u8]) -> Collector {
    let mut p = WebpParser::new();
    drive_slice(buf, &mut p, Limits::default())
}

#[test]
fn vp8x_dimensions_and_xmp() {
    let xmp = riff_chunk(b"XMP ", br#"<rdf:Description tiff:Make="Acme"/>"#);
    let buf = fixture(&xmp);
    let col = collect(&buf);
    let meta = finalize(col, FileFormat::Webp);
    assert_eq!(meta.unified.width, Some(640));
    assert_eq!(meta.unified.height, Some(480));
    assert!(meta.raw.xmp.iter().any(|x| x.name == "Make" && x.value == "Acme"));
}

#[test]
fn exif_chunk_emitted() {
    let mut tiff = Vec::new();
    tiff.extend_from_slice(b"II");
    tiff.extend_from_slice(&42u16.to_le_bytes());
    tiff.extend_from_slice(&8u32.to_le_bytes());
    tiff.extend_from_slice(&0u16.to_le_bytes());
    tiff.extend_from_slice(&0u32.to_le_bytes());
    let exif = riff_chunk(b"EXIF", &tiff);
    let buf = fixture(&exif);
    let col = collect(&buf);
    assert!(col.warnings.is_empty(), "warnings: {:?}", col.warnings);
}

#[test]
fn non_webp_done_no_events() {
    let mut p = WebpParser::new();
    let res = p.pull(b"RIFF\0\0\0\0XXXX");
    assert_eq!(res.demand, Demand::Done);
    assert!(res.events.is_empty());
}
