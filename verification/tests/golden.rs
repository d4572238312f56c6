//! Sample files, and what they must hold.
use omni_meta::compare::{same_metadata, same_value};
use omni_meta::fixtures::golden::{holds_sample, holds_tag, holds_unified};
use omni_meta::fixtures::{fixture_plain, fixture_png, golden_corpus, GoldenRawTag};
use omni_meta::{read_slice, FileFormat, Gps, IfdKind, Options, Orientation, Unified, Value};

#[test]
fn samples_and_what_they_ask_for() {
    let all = golden_corpus();
    let names: Vec<&str> = all.iter().map(|s| s.name).collect();
    assert_eq!(names, vec!["jpeg_exif_gps", "png_exif", "gif_xmp", "webp_exif"]);
    let formats: Vec<FileFormat> = all.iter().map(|s| s.format).collect();
    assert_eq!(
        formats,
        vec![FileFormat::Jpeg, FileFormat::Png, FileFormat::Gif, FileFormat::Webp]
    );
    let j = &all[0];
    assert_eq!(j.unified.width, Some(64));
    assert_eq!(j.unified.height, Some(48));
    assert_eq!(j.unified.orientation, Some(Orientation::Rotate90));
    assert_eq!(j.unified.camera_make.as_deref(), Some("OmniTest"));
    assert_eq!(
        j.unified.gps,
        Some(Gps { lat_e7: 355_000_000, lon_e7: 1_395_000_000, alt_mm: None })
    );
    assert_eq!(j.raw_subset.len(), 2);
    assert_eq!(all[1].unified.creator.as_deref(), Some("GoldenAuthor"));
    assert_eq!(all[3].unified.width, Some(72));
}

#[test]
fn only_what_is_asked_for_counts() {
    let m = read_slice(&fixture_png(), Options::default()).unwrap();
    assert!(holds_unified(&Unified::default(), &m.unified));
    assert!(holds_unified(&m.unified, &m.unified));
    let mut asked = Unified::default();
    asked.width = Some(m.unified.width.unwrap() + 1);
    assert!(!holds_unified(&asked, &m.unified));
    for s in golden_corpus() {
        assert!(!holds_sample(&s, &m));
    }
}

#[test]
fn raw_tags_are_looked_up() {
    let m = read_slice(&fixture_plain(), Options::default()).unwrap();
    let first = &m.raw.exif[0];
    let there = GoldenRawTag::Exif { ifd: first.ifd, tag: first.tag, value: first.value.clone() };
    assert!(holds_tag(&there, &m.raw));
    let absent = GoldenRawTag::Exif { ifd: IfdKind::Gps, tag: 0xFFFF, value: Value::U16(1) };
    assert!(!holds_tag(&absent, &m.raw));
    assert!(!holds_tag(&GoldenRawTag::Xmp { prefix: "dc", name: "x", value: "y" }, &m.raw));
    assert!(!holds_tag(&GoldenRawTag::Text { keyword: "Author", value: "Ada" }, &m.raw));
}

#[test]
fn texts_count_in_either_encoding() {
    use_text(b"tEXt", b"Author\0Ada");
    use_text(b"iTXt", b"Author\0\0\0\0\0Ada");
}

fn use_text(kind: &[u8; 4], data: &[u8]) {
    let mut p = vec![0x89, 0x50, 0x4E, 0x47, 0x0D, 0x0A, 0x1A, 0x0A];
    p.extend_from_slice(&omni_meta::fixtures::png_chunk(kind, data));
    p.extend_from_slice(&omni_meta::fixtures::png_chunk(b"IEND", &[]));
    let m = read_slice(&p, Options::default()).unwrap();
    assert!(holds_tag(&GoldenRawTag::Text { keyword: "Author", value: "Ada" }, &m.raw));
    assert!(!holds_tag(&GoldenRawTag::Text { keyword: "Author", value: "Bob" }, &m.raw));
}

#[test]
fn metadata_is_compared_whole() {
    let a = read_slice(&fixture_plain(), Options::default()).unwrap();
    let mut b = a.clone();
    assert!(same_metadata(&a, &b));
    b.unified.title = Some("x".to_string());
    assert!(!same_metadata(&a, &b));
    let list = Value::List(vec![Value::U16(1), Value::U16(2)]);
    assert!(same_value(&list, &list.clone()));
    assert!(!same_value(&list, &Value::List(vec![Value::U16(1)])));
    assert!(!same_value(&Value::U16(1), &Value::U32(1)));
}
