//! XMP sidecars.
use omni_meta::codecs::xmp::decode;
use omni_meta::normalize::normalize;
use omni_meta::{read_slice, Limits, Options, WarnKind};

fn jpeg_with_make() -> Vec<u8> {
    let mut t: Vec<u8> = Vec::new();
    t.extend_from_slice(b"II");
    t.extend_from_slice(&42u16.to_le_bytes());
    t.extend_from_slice(&8u32.to_le_bytes());
    t.extend_from_slice(&1u16.to_le_bytes());
    t.extend_from_slice(&0x010Fu16.to_le_bytes());
    t.extend_from_slice(&2u16.to_le_bytes());
    t.extend_from_slice(&5u32.to_le_bytes());
    t.extend_from_slice(&26u32.to_le_bytes());
    t.extend_from_slice(&0u32.to_le_bytes());
    t.extend_from_slice(b"Acme\0");
    let mut body: Vec<u8> = Vec::new();
    body.extend_from_slice(b"Exif\0\0");
    body.extend_from_slice(&t);
    let len = (body.len() + 2) as u16;
    let mut j: Vec<u8> = Vec::new();
    j.extend_from_slice(&[0xFF, 0xD8, 0xFF, 0xE1]);
    j.extend_from_slice(&len.to_be_bytes());
    j.extend_from_slice(&body);
    j.extend_from_slice(&[0xFF, 0xD9]);
    j
}

const SIDECAR: &[u8] =
    br#"<rdf:Description xmlns:dc="n" dc:description="Sunset" dc:subject="beach"/>"#;

#[test]
fn sidecar_injects_description_and_keeps_provenance() {
    let img = jpeg_with_make();
    let meta = read_slice(&img, Options::default())
        .unwrap()
        .with_xmp_sidecar(SIDECAR, Limits::default());

    assert_eq!(meta.unified.description.as_deref(), Some("Sunset"));

    assert!(meta.raw.xmp_sidecar.iter().any(|p| p.name == "description"));
    assert!(meta.raw.xmp.iter().all(|p| p.name != "description"));

    assert!(meta.raw.xmp_sidecar.iter().any(|p| p.name == "subject"));
}

#[test]
fn with_sidecar_unified_matches_manual_renormalize() {
    let img = jpeg_with_make();
    let meta = read_slice(&img, Options::default()).unwrap();
    let merged = meta.clone().with_xmp_sidecar(SIDECAR, Limits::default());

    let mut raw = meta.raw.clone();
    let mut w = Vec::new();
    decode(
        SIDECAR,
        &mut raw.xmp_sidecar,
        &mut w,
        &Limits::default(),
    );
    let manual = normalize(&raw, &meta.structural, &mut w);
    assert_eq!(merged.unified, manual);
}

#[test]
fn empty_sidecar_no_change_no_warning() {
    let img = jpeg_with_make();
    let meta = read_slice(&img, Options::default()).unwrap();
    let before_warns = meta.warnings.len();
    let after = meta.clone().with_xmp_sidecar(b"", Limits::default());
    assert_eq!(after.unified, meta.unified);
    assert_eq!(after.warnings.len(), before_warns);
    assert!(after.raw.xmp_sidecar.is_empty());
}

#[test]
fn invalid_utf8_sidecar_warns_truncated_unified_unchanged() {
    let img = jpeg_with_make();
    let meta = read_slice(&img, Options::default()).unwrap();
    let after = meta
        .clone()
        .with_xmp_sidecar(&[0xFF, 0xFE, 0x00], Limits::default());
    assert_eq!(after.unified, meta.unified);
    assert!(after.warnings.iter().any(|w| w.kind == WarnKind::Truncated));
}

#[test]
fn double_sidecar_is_stable() {
    let img = jpeg_with_make();
    let meta = read_slice(&img, Options::default()).unwrap();
    let once = meta
        .clone()
        .with_xmp_sidecar(SIDECAR, Limits::default());
    let twice = once
        .clone()
        .with_xmp_sidecar(SIDECAR, Limits::default());
    assert_eq!(twice.unified, once.unified);
}
