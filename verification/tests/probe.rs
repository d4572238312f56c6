//! Telling formats apart.
use omni_meta::probe::{parser_for, probe};
use omni_meta::{read_slice, FileFormat, Limits, Options};

#[test]
fn detects_jpeg_soi() {
    assert_eq!(probe(&[0xFF, 0xD8, 0xFF, 0xE0]), FileFormat::Jpeg);
}

#[test]
fn unknown_for_others_and_short_input() {
    assert_eq!(probe(&[0x89, 0x50]), FileFormat::Unknown);
    assert_eq!(probe(&[0xFF]), FileFormat::Unknown);
    assert_eq!(probe(&[]), FileFormat::Unknown);
}

#[test]
fn parser_for_jpeg_some_unknown_none() {
    assert!(parser_for(FileFormat::Jpeg, Limits::default()).is_some());
    assert!(parser_for(FileFormat::Unknown, Limits::default()).is_none());
}

#[test]
fn detects_png_signature() {
    let sig = [0x89, 0x50, 0x4E, 0x47, 0x0D, 0x0A, 0x1A, 0x0A];
    assert_eq!(probe(&sig), FileFormat::Png);
    assert!(parser_for(FileFormat::Png, Limits::default()).is_some());
}

#[test]
fn detects_webp_signature() {
    let mut b = Vec::new();
    b.extend_from_slice(b"RIFF");
    b.extend_from_slice(&0u32.to_le_bytes());
    b.extend_from_slice(b"WEBP");
    assert_eq!(probe(&b), FileFormat::Webp);
    assert!(parser_for(FileFormat::Webp, Limits::default()).is_some());
}

#[test]
fn detects_gif_signature() {
    assert_eq!(probe(b"GIF89a\0\0\0\0\0\0\0"), FileFormat::Gif);
    assert_eq!(probe(b"GIF87a\0\0\0\0\0\0\0"), FileFormat::Gif);
    assert!(parser_for(FileFormat::Gif, Limits::default()).is_some());
}

fn ftyp(major: &[u8; 4]) -> Vec<u8> {
    let mut b = Vec::new();
    b.extend_from_slice(&20u32.to_be_bytes());
    b.extend_from_slice(b"ftyp");
    b.extend_from_slice(major);
    b.extend_from_slice(&0u32.to_be_bytes());
    b.extend_from_slice(b"mif1");
    b
}

#[test]
fn detects_bmff_brands() {
    assert_eq!(probe(&ftyp(b"heic")), FileFormat::Heif);
    assert_eq!(probe(&ftyp(b"mif1")), FileFormat::Heif);
    assert_eq!(probe(&ftyp(b"avif")), FileFormat::Avif);
    assert_eq!(probe(&ftyp(b"qt  ")), FileFormat::Mov);
    assert_eq!(probe(&ftyp(b"isom")), FileFormat::Mp4);

    assert_eq!(probe(&ftyp(b"zzzz")), FileFormat::Mp4);
}

#[test]
fn bmff_parsers_wired() {
    assert!(parser_for(FileFormat::Heif, Limits::default()).is_some());
    assert!(parser_for(FileFormat::Avif, Limits::default()).is_some());
    assert!(parser_for(FileFormat::Mp4, Limits::default()).is_some());
    assert!(parser_for(FileFormat::Mov, Limits::default()).is_some());
}

fn ebml(doctype: &[u8]) -> Vec<u8> {
    let mut dt = Vec::new();
    dt.extend_from_slice(&[0x42, 0x82, 0x01]);
    dt.extend_from_slice(&(doctype.len() as u64).to_be_bytes()[1..]);
    dt.extend_from_slice(doctype);
    let mut hdr = Vec::new();
    hdr.extend_from_slice(&[0x1A, 0x45, 0xDF, 0xA3, 0x01]);
    hdr.extend_from_slice(&(dt.len() as u64).to_be_bytes()[1..]);
    hdr.extend_from_slice(&dt);
    hdr
}

#[test]
fn detects_mkv_and_webm_via_doctype() {
    assert_eq!(probe(&ebml(b"webm")), FileFormat::Webm);
    assert_eq!(probe(&ebml(b"matroska")), FileFormat::Mkv);
    assert!(parser_for(FileFormat::Mkv, Limits::default()).is_some());
    assert!(parser_for(FileFormat::Webm, Limits::default()).is_some());
}

#[test]
fn read_slice_recognizes_heic_empty_meta() {
    let buf = ftyp(b"heic");
    let meta = read_slice(&buf, Options::default()).unwrap();
    assert_eq!(meta.format, FileFormat::Heif);

    assert!(meta.warnings.is_empty(), "warnings: {:?}", meta.warnings);
    assert_eq!(meta.unified.width, None);
    assert!(meta.raw.exif.is_empty());
}
