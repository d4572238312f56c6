//! Stripping sources that block.
use omni_meta::adapters::strip_slice::gather;
use omni_meta::{strip_slice, Error, FileFormat, StripOptions, StripReport};
use std::io::{Read, Write};

fn strip_blocking<R: Read, W: Write>(
    mut r: R,
    mut w: W,
    opts: StripOptions,
) -> Result<StripReport, Error> {
    let mut input: Vec<u8> = Vec::new();
    let mut buf = [0u8; 8192];
    loop {
        let n = r.read(&mut buf).map_err(|_| Error::Io)?;
        if n == 0 {
            break;
        }
        gather(&mut input, &buf[..n], &opts)?;
    }
    let (out, report) = strip_slice(&input, opts)?;
    w.write_all(&out).map_err(|_| Error::Io)?;
    Ok(report)
}

fn minimal_jpeg() -> Vec<u8> {
    let mut j = Vec::new();
    j.extend_from_slice(&[0xFF, 0xD8]);
    let body = b"Exif\0\0II*\0\x08\0\0\0\0\0\0\0\0\0";
    j.extend_from_slice(&[0xFF, 0xE1]);
    j.extend_from_slice(&((body.len() + 2) as u16).to_be_bytes());
    j.extend_from_slice(body);
    j.extend_from_slice(&[0xFF, 0xDA, 0, 4, 1, 0, 0]);
    j.extend_from_slice(&[0xFF, 0xD9]);
    j
}

#[test]
fn blocking_matches_slice_byte_for_byte() {
    let j = minimal_jpeg();
    let (slice_out, _r) = strip_slice(&j, StripOptions::aggressive()).unwrap();
    let mut blocking_out: Vec<u8> = Vec::new();
    let report = strip_blocking(&j[..], &mut blocking_out, StripOptions::aggressive()).unwrap();
    assert_eq!(blocking_out, slice_out);
    assert_eq!(report.format, FileFormat::Jpeg);
}

#[test]
fn blocking_unsupported_errors() {
    let gif = b"GIF89a\x01\0\x01\0\0\0\0";
    let mut out: Vec<u8> = Vec::new();
    let err = strip_blocking(&gif[..], &mut out, StripOptions::default()).unwrap_err();
    assert_eq!(err, Error::Unsupported);
}

#[test]
fn too_long_an_input_is_refused() {
    let mut opts = StripOptions::default();
    opts.limits.max_payload_bytes = 8;
    let j = minimal_jpeg();
    let mut out: Vec<u8> = Vec::new();
    assert_eq!(strip_blocking(&j[..], &mut out, opts).unwrap_err(), Error::Io);
    assert!(out.is_empty());
}
