//! Stripping PNG files.
use omni_meta::strip::crc32::crc32;
use omni_meta::strip::drive_strip_slice;
use omni_meta::strip::exif_synth::orientation_tiff;
use omni_meta::strip::png::PngStripper;
use omni_meta::{read_slice, FileFormat, Options, Orientation, RemovedKind, StripOptions, StripReport};

const SIG: [u8; 8] = [0x89, 0x50, 0x4E, 0x47, 0x0D, 0x0A, 0x1A, 0x0A];

fn chunk(ctype: &[u8; 4], data: &[u8]) -> Vec<u8> {
    let mut c = Vec::new();
    c.extend_from_slice(&(data.len() as u32).to_be_bytes());
    c.extend_from_slice(ctype);
    c.extend_from_slice(data);
    let mut crc_in = Vec::new();
    crc_in.extend_from_slice(ctype);
    crc_in.extend_from_slice(data);
    c.extend_from_slice(&crc32(&crc_in).to_be_bytes());
    c
}

fn ihdr(w: u32, h: u32) -> Vec<u8> {
    let mut d = Vec::new();
    d.extend_from_slice(&w.to_be_bytes());
    d.extend_from_slice(&h.to_be_bytes());
    d.extend_from_slice(&[8, 6, 0, 0, 0]);
    chunk(b"IHDR", &d)
}

fn itxt_xmp(packet: &[u8]) -> Vec<u8> {
    let mut d = Vec::new();
    d.extend_from_slice(b"XML:com.adobe.xmp");
    d.extend_from_slice(&[0, 0, 0, 0, 0]);
    d.extend_from_slice(packet);
    chunk(b"iTXt", &d)
}

fn full_png() -> Vec<u8> {
    let mut p = Vec::new();
    p.extend_from_slice(&SIG);
    p.extend_from_slice(&ihdr(8, 8));
    p.extend_from_slice(&chunk(b"eXIf", &orientation_tiff(6)));
    p.extend_from_slice(&itxt_xmp(br#"<rdf:Description tiff:Make="Acme"/>"#));
    p.extend_from_slice(&chunk(b"iCCP", b"prof\0\0somedata"));
    p.extend_from_slice(&chunk(b"IDAT", &[1, 2, 3, 4]));
    p.extend_from_slice(&chunk(b"IEND", &[]));
    p
}

fn run(buf: &[u8], opts: StripOptions) -> (Vec<u8>, StripReport) {
    let mut p = PngStripper::new(opts);
    drive_strip_slice(buf, &mut p, FileFormat::Png)
}

#[test]
fn default_strips_exif_xmp_keeps_icc_and_orientation() {
    let (out, report) = run(&full_png(), StripOptions::default());
    let meta = read_slice(&out, Options::default()).unwrap();
    assert!(meta.raw.xmp.is_empty());
    assert_eq!(meta.unified.orientation, Some(Orientation::Rotate90));
    assert_eq!(meta.unified.width, Some(8));
    assert!(report.removed.contains(RemovedKind::Exif));
    assert!(report.removed.contains(RemovedKind::Xmp));
    assert!(out.windows(4).any(|w| w == b"iCCP"));
    assert!(out.windows(4).any(|w| w == b"IDAT"));
    assert!(out.windows(4).any(|w| w == b"IEND"));
}

#[test]
fn aggressive_strips_icc_and_orientation() {
    let (out, report) = run(&full_png(), StripOptions::aggressive());
    assert!(!out.windows(4).any(|w| w == b"iCCP"));
    assert!(report.removed.contains(RemovedKind::Icc));
    let meta = read_slice(&out, Options::default()).unwrap();
    assert!(meta.raw.exif.is_empty());
    assert_eq!(meta.unified.orientation, None);
}

#[test]
fn synthesized_exif_chunk_is_valid_and_reparses() {
    let (out, _r) = run(&full_png(), StripOptions::default());
    assert!(out.windows(4).any(|w| w == b"eXIf"));
}

#[test]
fn non_png_returns_input_unchanged() {
    let buf = [0u8, 1, 2, 3];
    let (out, _r) = run(&buf, StripOptions::default());
    assert_eq!(out, buf);
}
