//! Stripping whole buffers.
use omni_meta::strip::exif_synth::orientation_tiff;
use omni_meta::{read_slice, strip_slice, Error, FileFormat, Options, RemovedKind, StripOptions};

fn minimal_jpeg_with_exif() -> Vec<u8> {
    let mut j = Vec::new();
    j.extend_from_slice(&[0xFF, 0xD8]);
    let mut body = Vec::new();
    body.extend_from_slice(b"Exif\0\0");
    body.extend_from_slice(&orientation_tiff(1));
    j.extend_from_slice(&[0xFF, 0xE1]);
    j.extend_from_slice(&((body.len() + 2) as u16).to_be_bytes());
    j.extend_from_slice(&body);
    j.extend_from_slice(&[0xFF, 0xDA, 0, 4, 1, 0, 0]);
    j.extend_from_slice(&[0xFF, 0xD9]);
    j
}

#[test]
fn strips_jpeg_via_probe() {
    let j = minimal_jpeg_with_exif();
    let (out, report) = strip_slice(&j, StripOptions::aggressive()).unwrap();
    assert_eq!(report.format, FileFormat::Jpeg);
    assert!(report.removed.contains(RemovedKind::Exif));
    let meta = read_slice(&out, Options::default()).unwrap();
    assert!(meta.raw.exif.is_empty());
}

#[test]
fn unsupported_format_errors() {
    let gif = b"GIF89a\x01\x00\x01\x00\x00\x00\x00";
    let err = strip_slice(gif, StripOptions::default()).unwrap_err();
    assert_eq!(err, Error::Unsupported);
}

#[test]
fn strip_slice_unrecognized_format_errors() {
    let junk = [0u8, 1, 2, 3, 4, 5];
    let err = strip_slice(&junk, StripOptions::default()).unwrap_err();
    assert_eq!(err, Error::UnrecognizedFormat);
}
