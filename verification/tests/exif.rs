//! Decoding EXIF.
use omni_meta::codecs::exif::decode;
use omni_meta::{ExifTag, IfdKind, Limits, Value, WarnKind, Warning};

fn tiff_fixture() -> Vec<u8> {
    let mut t: Vec<u8> = Vec::new();
    t.extend_from_slice(b"II");
    t.extend_from_slice(&42u16.to_le_bytes());
    t.extend_from_slice(&8u32.to_le_bytes());

    t.extend_from_slice(&2u16.to_le_bytes());

    t.extend_from_slice(&0x010Fu16.to_le_bytes());
    t.extend_from_slice(&2u16.to_le_bytes());
    t.extend_from_slice(&5u32.to_le_bytes());
    t.extend_from_slice(&38u32.to_le_bytes());

    t.extend_from_slice(&0x0112u16.to_le_bytes());
    t.extend_from_slice(&3u16.to_le_bytes());
    t.extend_from_slice(&1u32.to_le_bytes());
    t.extend_from_slice(&6u32.to_le_bytes());

    t.extend_from_slice(&0u32.to_le_bytes());

    assert_eq!(t.len(), 38);
    t.extend_from_slice(b"Acme\0");
    t
}

#[test]
fn exif_decodes_make_and_orientation() {
    let tiff = tiff_fixture();
    let mut out = Vec::new();
    let mut warns = Vec::new();
    decode(&tiff, &mut out, &mut warns, &Limits::default());
    assert!(warns.is_empty(), "unexpected warnings: {:?}", warns);
    assert_eq!(out.len(), 2);
    assert_eq!(out[0], ExifTag { ifd: IfdKind::Primary, tag: 0x010F, value: Value::Text(String::from("Acme")) });
    assert_eq!(out[1], ExifTag { ifd: IfdKind::Primary, tag: 0x0112, value: Value::U16(6) });
}

#[test]
fn exif_bad_header_yields_warning_not_panic() {
    let mut out = Vec::new();
    let mut warns = Vec::new();
    decode(b"XX", &mut out, &mut warns, &Limits::default());
    assert!(out.is_empty());
    assert_eq!(warns.len(), 1);
    assert_eq!(warns[0].kind, WarnKind::BadExifHeader);
}

fn tiff_fixture_be() -> Vec<u8> {
    let mut t: Vec<u8> = Vec::new();
    t.extend_from_slice(b"MM");
    t.extend_from_slice(&42u16.to_be_bytes());
    t.extend_from_slice(&8u32.to_be_bytes());
    t.extend_from_slice(&2u16.to_be_bytes());

    t.extend_from_slice(&0x010Fu16.to_be_bytes());
    t.extend_from_slice(&2u16.to_be_bytes());
    t.extend_from_slice(&5u32.to_be_bytes());
    t.extend_from_slice(&38u32.to_be_bytes());

    t.extend_from_slice(&0x0112u16.to_be_bytes());
    t.extend_from_slice(&3u16.to_be_bytes());
    t.extend_from_slice(&1u32.to_be_bytes());
    t.extend_from_slice(&6u16.to_be_bytes());
    t.extend_from_slice(&0u16.to_be_bytes());

    t.extend_from_slice(&0u32.to_be_bytes());
    assert_eq!(t.len(), 38);
    t.extend_from_slice(b"Acme\0");
    t
}

#[test]
fn decodes_big_endian() {
    let tiff = tiff_fixture_be();
    let mut out = Vec::new();
    let mut warns = Vec::new();
    decode(&tiff, &mut out, &mut warns, &Limits::default());
    assert!(warns.is_empty(), "unexpected warnings: {:?}", warns);
    assert_eq!(out.len(), 2);
    assert_eq!(out[0], ExifTag { ifd: IfdKind::Primary, tag: 0x010F, value: Value::Text(String::from("Acme")) });
    assert_eq!(out[1], ExifTag { ifd: IfdKind::Primary, tag: 0x0112, value: Value::U16(6) });
}

#[test]
fn max_tags_limit_is_enforced() {
    let tiff = tiff_fixture();
    let mut out = Vec::new();
    let mut warns = Vec::new();
    let limits = Limits { max_tags: 1, ..Limits::default() };
    decode(&tiff, &mut out, &mut warns, &limits);
    assert_eq!(out.len(), 1);
}

#[test]
fn out_of_bounds_ascii_offset_drops_tag_without_panic() {
    let mut t: Vec<u8> = Vec::new();
    t.extend_from_slice(b"II");
    t.extend_from_slice(&42u16.to_le_bytes());
    t.extend_from_slice(&8u32.to_le_bytes());
    t.extend_from_slice(&1u16.to_le_bytes());
    t.extend_from_slice(&0x010Fu16.to_le_bytes());
    t.extend_from_slice(&2u16.to_le_bytes());
    t.extend_from_slice(&100u32.to_le_bytes());
    t.extend_from_slice(&9999u32.to_le_bytes());
    t.extend_from_slice(&0u32.to_le_bytes());
    let mut out = Vec::new();
    let mut warns = Vec::new();
    decode(&t, &mut out, &mut warns, &Limits::default());
    assert!(out.is_empty());
}

#[test]
fn ifd0_offset_past_end_warns_without_panic() {
    let mut t: Vec<u8> = Vec::new();
    t.extend_from_slice(b"II");
    t.extend_from_slice(&42u16.to_le_bytes());
    t.extend_from_slice(&9999u32.to_le_bytes());
    let mut out = Vec::new();
    let mut warns = Vec::new();
    decode(&t, &mut out, &mut warns, &Limits::default());
    assert!(out.is_empty());
    assert_eq!(warns.len(), 1);
    assert_eq!(warns[0].kind, WarnKind::BadExifHeader);
}

fn tiff_one(tag: u16, typ: u16, cnt: u32, valoff: [u8; 4], external: &[u8]) -> Vec<u8> {
    let mut t: Vec<u8> = Vec::new();
    t.extend_from_slice(b"II");
    t.extend_from_slice(&42u16.to_le_bytes());
    t.extend_from_slice(&8u32.to_le_bytes());
    t.extend_from_slice(&1u16.to_le_bytes());
    t.extend_from_slice(&tag.to_le_bytes());
    t.extend_from_slice(&typ.to_le_bytes());
    t.extend_from_slice(&cnt.to_le_bytes());
    t.extend_from_slice(&valoff);
    t.extend_from_slice(&0u32.to_le_bytes());
    assert_eq!(t.len(), 26);
    t.extend_from_slice(external);
    t
}

fn decode_one(t: &[u8]) -> (Vec<ExifTag>, Vec<Warning>) {
    let mut out = Vec::new();
    let mut warns = Vec::new();
    decode(t, &mut out, &mut warns, &Limits::default());
    (out, warns)
}

#[test]
fn reads_rational_external() {
    let mut ext = Vec::new();
    ext.extend_from_slice(&4u32.to_le_bytes());
    ext.extend_from_slice(&1u32.to_le_bytes());
    let t = tiff_one(0x829D, 5, 1, 26u32.to_le_bytes(), &ext);
    let (out, warns) = decode_one(&t);
    assert!(warns.is_empty(), "warns: {:?}", warns);
    assert_eq!(out.len(), 1);
    assert_eq!(out[0].value, Value::Rational(4, 1));
    assert_eq!(out[0].ifd, IfdKind::Primary);
}

#[test]
fn reads_long_inline() {
    let t = tiff_one(0x0111, 4, 1, 1234u32.to_le_bytes(), &[]);
    let (out, _) = decode_one(&t);
    assert_eq!(out.len(), 1);
    assert_eq!(out[0].value, Value::U32(1234));
}

#[test]
fn reads_srational_external() {
    let mut ext = Vec::new();
    ext.extend_from_slice(&(-3i32).to_le_bytes());
    ext.extend_from_slice(&2i32.to_le_bytes());
    let t = tiff_one(0x9204, 10, 1, 26u32.to_le_bytes(), &ext);
    let (out, _) = decode_one(&t);
    assert_eq!(out.len(), 1);
    assert_eq!(out[0].value, Value::SRational(-3, 2));
}

#[test]
fn reads_undefined_as_bytes() {
    let t = tiff_one(0x9000, 7, 4, *b"0230", &[]);
    let (out, _) = decode_one(&t);
    assert_eq!(out.len(), 1);
    assert_eq!(out[0].value, Value::Bytes(Vec::from(b"0230".as_slice())));
}

#[test]
fn reads_short_array_as_list() {
    let t = tiff_one(0x0212, 3, 2, [2, 0, 3, 0], &[]);
    let (out, _) = decode_one(&t);
    assert_eq!(out.len(), 1);
    assert_eq!(out[0].value, Value::List(Vec::from([Value::U16(2), Value::U16(3)])));
}

#[test]
fn unknown_type_drops_tag() {
    let t = tiff_one(0x0100, 99, 1, [0, 0, 0, 0], &[]);
    let (out, warns) = decode_one(&t);
    assert!(out.is_empty());
    assert!(warns.is_empty());
}

#[test]
fn decodes_make_and_orientation() {
    let tiff = tiff_fixture();
    let (out, warns) = decode_one(&tiff);
    assert!(warns.is_empty(), "unexpected warnings: {:?}", warns);
    assert_eq!(out.len(), 2);
    let make = Value::Text(String::from("Acme"));
    assert_eq!(out[0], ExifTag { ifd: IfdKind::Primary, tag: 0x010F, value: make });
    assert_eq!(out[1], ExifTag { ifd: IfdKind::Primary, tag: 0x0112, value: Value::U16(6) });
}

#[test]
fn bad_header_yields_warning_not_panic() {
    let (out, warns) = decode_one(b"XX");
    assert!(out.is_empty());
    assert_eq!(warns.len(), 1);
    assert_eq!(warns[0].kind, WarnKind::BadExifHeader);
}
