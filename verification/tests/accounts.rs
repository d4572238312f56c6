//! Lengths, reports and what is read back of what was written.
use omni_meta::containers::ebml::{read_elem_size, read_element_header};
use omni_meta::containers::isobmff::read_box_header;
use omni_meta::demand::{Demand, MetaParser};
use omni_meta::fixtures::{bmff_box, ebml_elem, fixture_plain, png_chunk, riff_chunk};
use omni_meta::formats::jpeg::JpegParser;
use omni_meta::probe::parser_for;
use omni_meta::strip::exif_synth::{
    jpeg_app1_exif, orientation_tiff, png_exif_chunk, webp_exif_chunk,
};
use omni_meta::text::latin1_to_string;
use omni_meta::{
    strip_slice, FileFormat, Limits, Options, Outcome, PushParser, RemovedKind, StripOptions,
};

#[test]
fn jpeg_report_adds_up() {
    let mut j = vec![0xFF, 0xD8];
    j.extend_from_slice(&jpeg_app1_exif(&orientation_tiff(6)));
    j.extend_from_slice(&[0xFF, 0xE1, 0x00, 0x1F]);
    j.extend_from_slice(b"http://ns.adobe.com/xap/1.0/\0");
    j.extend_from_slice(&[0xFF, 0xD9]);
    let (out, report) = strip_slice(&j, StripOptions::aggressive()).unwrap();
    assert_eq!(out, vec![0xFF, 0xD8, 0xFF, 0xD9]);
    assert_eq!(report.bytes_removed as usize, j.len() - 4);
    assert!(report.removed.contains(RemovedKind::Exif));
    assert!(report.removed.contains(RemovedKind::Xmp));
    assert!(!report.removed.contains(RemovedKind::Icc));
    let (out, report) = strip_slice(&j, StripOptions::default()).unwrap();
    assert_eq!(out.len() + report.bytes_removed as usize, j.len() + 36);
}

#[test]
fn bytes_behind_the_end_marker_go_unreported() {
    let j = [0xFF, 0xD8, 0xFF, 0xD9, 1, 2, 3];
    let (out, report) = strip_slice(&j, StripOptions::default()).unwrap();
    assert_eq!(out, vec![0xFF, 0xD8, 0xFF, 0xD9]);
    assert_eq!(report.bytes_removed, 0);
    assert!(report.removed.is_empty());
}

#[test]
fn png_report_adds_up() {
    let mut p = vec![0x89, 0x50, 0x4E, 0x47, 0x0D, 0x0A, 0x1A, 0x0A];
    p.extend_from_slice(&png_exif_chunk(&orientation_tiff(3)));
    p.extend_from_slice(&png_chunk(b"tEXt", b"Author\0Ada"));
    p.extend_from_slice(&png_chunk(b"IDAT", &[1, 2, 3]));
    p.extend_from_slice(&png_chunk(b"IEND", &[]));
    let (out, report) = strip_slice(&p, StripOptions::default()).unwrap();
    assert_eq!(report.bytes_removed, 38 + 22);
    assert_eq!(out.len() + 60, p.len() + 38);
}

#[test]
fn webp_report_adds_up() {
    let mut body = b"WEBP".to_vec();
    body.extend_from_slice(&riff_chunk(b"VP8 ", &[7; 4]));
    body.extend_from_slice(&webp_exif_chunk(&orientation_tiff(8)));
    body.extend_from_slice(&[9, 9, 9]);
    let mut f = b"RIFF".to_vec();
    f.extend_from_slice(&(body.len() as u32).to_le_bytes());
    f.extend_from_slice(&body);
    let (out, report) = strip_slice(&f, StripOptions::default()).unwrap();
    assert_eq!(report.bytes_removed, 34);
    assert_eq!(out.len() + 34 + 3, f.len() + 34);
}

#[test]
fn boxes_and_elements_read_back() {
    let b = bmff_box(b"free", &[1, 2, 3]);
    let h = read_box_header(&b).unwrap();
    assert_eq!(&h.kind, b"free");
    assert_eq!(h.header_len, 8);
    assert_eq!(h.total_size, Some(11));
    assert_eq!(h.payload_len(), Some(3));
    let e = ebml_elem(&[0x42, 0x82], b"webm");
    let h = read_element_header(&e).unwrap();
    assert_eq!(h.id, 0x4282);
    assert_eq!(h.header_len, 10);
    assert_eq!(h.size, Some(4));
    assert_eq!(read_elem_size(&[0xFF]), Some((None, 1)));
    assert_eq!(read_elem_size(&[0x40]), None);
}

#[test]
fn streams_hold_little_back() {
    let mut limits = Limits::default();
    limits.max_retained_bytes = 16;
    let mut p = PushParser::new(Options { limits });
    let mut done = false;
    for b in fixture_plain() {
        if let Ok(Outcome::Done) = p.feed(&[b]) {
            done = true;
        }
    }
    assert!(done);
    let m = p.finish().unwrap();
    assert!(m.raw.exif.is_empty());
    assert_eq!(m.warnings.len(), 1);
}

#[test]
fn needs_exceed_what_is_there() {
    let j = fixture_plain();
    for n in 0..j.len() {
        let mut p = JpegParser::new();
        let r = p.pull(&j[..n]);
        if let Demand::NeedBytes(k) = r.demand {
            assert!(k > n - r.consumed);
        }
    }
    assert!(parser_for(FileFormat::Unknown, Limits::default()).is_none());
    assert!(parser_for(FileFormat::Gif, Limits::default()).is_some());
}

#[test]
fn latin1_keeps_bytes_apart() {
    let texts: Vec<String> = (0..=255u8).map(|b| latin1_to_string(&[b])).collect();
    for (i, a) in texts.iter().enumerate() {
        for b in &texts[..i] {
            assert_ne!(a, b);
        }
    }
}
