//! Stripping JPEG files.
use omni_meta::strip::drive_strip_slice;
use omni_meta::strip::exif_synth::orientation_tiff;
use omni_meta::strip::jpeg::JpegStripper;
use omni_meta::{read_slice, FileFormat, Options, Orientation, RemovedKind, StripOptions, StripReport};

fn app_seg(marker: u8, body: &[u8]) -> Vec<u8> {
    let mut s = Vec::new();
    s.extend_from_slice(&[0xFF, marker]);
    s.extend_from_slice(&((body.len() + 2) as u16).to_be_bytes());
    s.extend_from_slice(body);
    s
}

fn full_jpeg() -> Vec<u8> {
    let mut j = Vec::new();
    j.extend_from_slice(&[0xFF, 0xD8]);
    j.extend_from_slice(&app_seg(0xE0, b"JFIF\0\x01\x01"));
    let mut exif_body = Vec::new();
    exif_body.extend_from_slice(b"Exif\0\0");
    exif_body.extend_from_slice(&orientation_tiff(6));
    j.extend_from_slice(&app_seg(0xE1, &exif_body));
    j.extend_from_slice(&app_seg(0xE1, b"http://ns.adobe.com/xap/1.0/\0<x/>"));

    j.extend_from_slice(&[0xFF, 0xC0]);
    j.extend_from_slice(&10u16.to_be_bytes());
    j.push(8);
    j.extend_from_slice(&8u16.to_be_bytes());
    j.extend_from_slice(&8u16.to_be_bytes());
    j.extend_from_slice(&[1, 0x11, 0]);
    j.extend_from_slice(&[0xFF, 0xDA]);
    j.extend_from_slice(&4u16.to_be_bytes());
    j.extend_from_slice(&[1, 0, 0]);
    j.extend_from_slice(&[0x12, 0x34, 0x56]);
    j.extend_from_slice(&[0xFF, 0xD9]);
    j
}

fn run(buf: &[u8], opts: StripOptions) -> (Vec<u8>, StripReport) {
    let mut p = JpegStripper::new(opts);
    drive_strip_slice(buf, &mut p, FileFormat::Jpeg)
}

#[test]
fn default_strips_exif_and_xmp_keeps_orientation() {
    let j = full_jpeg();
    let (out, report) = run(&j, StripOptions::default());
    let meta = read_slice(&out, Options::default()).unwrap();
    assert!(meta.raw.xmp.is_empty());
    assert_eq!(
        meta.unified.orientation,
        Some(Orientation::Rotate90)
    );
    assert_eq!(meta.unified.width, Some(8));
    assert_eq!(meta.unified.height, Some(8));
    assert!(report.removed.contains(RemovedKind::Exif));
    assert!(report.removed.contains(RemovedKind::Xmp));
    assert_eq!(&out[0..2], &[0xFF, 0xD8]);
    assert_eq!(&out[out.len() - 2..], &[0xFF, 0xD9]);
}

#[test]
fn aggressive_strips_orientation_too_zero_exif() {
    let j = full_jpeg();
    let (out, _r) = run(&j, StripOptions::aggressive());
    let meta = read_slice(&out, Options::default()).unwrap();
    assert!(
        meta.raw.exif.is_empty(),
        "exif should be empty: {:?}",
        meta.raw.exif
    );
    assert_eq!(meta.unified.orientation, None);
}

#[test]
fn keeps_app0_jfif() {
    let j = full_jpeg();
    let (out, _r) = run(&j, StripOptions::aggressive());
    assert!(out.windows(4).any(|w| w == b"JFIF"));
}

#[test]
fn strips_app13_iptc() {
    let mut j = Vec::new();
    j.extend_from_slice(&[0xFF, 0xD8]);
    j.extend_from_slice(&app_seg(0xED, b"Photoshop 3.0\08BIM\x04\x04\0\0\0\0"));
    j.extend_from_slice(&[0xFF, 0xDA, 0, 4, 1, 0, 0]);
    j.extend_from_slice(&[0xFF, 0xD9]);
    let (out, report) = run(&j, StripOptions::default());
    assert!(report.removed.contains(RemovedKind::Iptc));
    assert!(!out.windows(4).any(|w| w == b"8BIM"));
}

#[test]
fn non_jpeg_returns_input_unchanged_no_panic() {
    let buf = [0u8, 1, 2, 3, 4];
    let (out, _r) = run(&buf, StripOptions::default());
    assert_eq!(out, buf);
}

#[test]
fn icc_kept_by_default_dropped_aggressive() {
    let icc_body = b"ICC_PROFILE\0\x01\x01somedata";
    let mut j = Vec::new();
    j.extend_from_slice(&[0xFF, 0xD8]);
    j.extend_from_slice(&app_seg(0xE2, icc_body));
    j.extend_from_slice(&[0xFF, 0xDA]);
    j.extend_from_slice(&4u16.to_be_bytes());
    j.extend_from_slice(&[1, 0, 0]);
    j.extend_from_slice(&[0xFF, 0xD9]);

    let (out_default, _r) = run(&j, StripOptions::default());
    assert!(
        out_default.windows(11).any(|w| w == b"ICC_PROFILE"),
        "default: ICC_PROFILE bytes should be present"
    );

    let (out_agg, report_agg) = run(&j, StripOptions::aggressive());
    assert!(
        !out_agg.windows(11).any(|w| w == b"ICC_PROFILE"),
        "aggressive: ICC_PROFILE bytes should be removed"
    );
    assert!(report_agg.removed.contains(RemovedKind::Icc));
}
