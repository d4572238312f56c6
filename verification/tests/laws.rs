//! What holds of the library as a whole, on chosen files.
use omni_meta::fixtures::{
    file_corpus, fixture_bmff_mp4, fixture_gif, fixture_huge_nonmeta, fixture_plain, fixture_png,
    fixture_webp, png_chunk, push_drive, riff_chunk, wrap_jpeg_tiff,
};
use omni_meta::fixtures::oracle::{adapters_outcome, read_seeking, read_through, Agreement};
use omni_meta::probe::probe;
use omni_meta::strip::exif_synth::orientation_tiff;
use omni_meta::strip::jpeg::find_orientation;
use omni_meta::{
    read_slice, strip_slice, FileFormat, Limits, Options, Orientation, Outcome, PushParser,
    StripOptions, WarnKind,
};

fn png_signature() -> Vec<u8> {
    vec![0x89, 0x50, 0x4E, 0x47, 0x0D, 0x0A, 0x1A, 0x0A]
}

fn ihdr() -> Vec<u8> {
    let mut d = Vec::new();
    d.extend_from_slice(&9u32.to_be_bytes());
    d.extend_from_slice(&5u32.to_be_bytes());
    d.extend_from_slice(&[8, 2, 0, 0, 0]);
    png_chunk(b"IHDR", &d)
}

/// A PNG file with an orientation, a text, a profile and image data.
fn png_with_all() -> Vec<u8> {
    let mut p = png_signature();
    p.extend_from_slice(&ihdr());
    p.extend_from_slice(&png_chunk(b"iCCP", b"icc\0\0x"));
    p.extend_from_slice(&png_chunk(b"tEXt", b"Author\0Ada"));
    p.extend_from_slice(&png_chunk(b"eXIf", &orientation_tiff(3)));
    p.extend_from_slice(&png_chunk(b"IDAT", &[1, 2, 3]));
    p.extend_from_slice(&png_chunk(b"IEND", &[]));
    p
}

fn webp_with_all() -> Vec<u8> {
    let mut body = Vec::new();
    body.extend_from_slice(b"WEBP");
    let mut d = vec![0u8; 10];
    d[0] = 0x08 | 0x04 | 0x20;
    d[4] = 7;
    d[7] = 7;
    body.extend_from_slice(&riff_chunk(b"VP8X", &d));
    body.extend_from_slice(&riff_chunk(b"ICCP", b"profile!"));
    body.extend_from_slice(&riff_chunk(b"VP8 ", &[0u8; 12]));
    body.extend_from_slice(&riff_chunk(b"EXIF", &orientation_tiff(8)));
    body.extend_from_slice(&riff_chunk(b"XMP ", b"<x/>"));
    let mut f = Vec::new();
    f.extend_from_slice(b"RIFF");
    f.extend_from_slice(&(body.len() as u32).to_le_bytes());
    f.extend_from_slice(&body);
    f
}

fn jpeg_with_all() -> Vec<u8> {
    let mut j = wrap_jpeg_tiff(&orientation_tiff(6));
    let tail = j.split_off(j.len() - 2);
    j.extend_from_slice(&[0xFF, 0xFE, 0x00, 0x05, b'h', b'e', b'y']);
    j.extend_from_slice(&[0xFF, 0xDA, 0x00, 0x04, 1, 0, 7, 7]);
    j.extend_from_slice(&tail);
    j
}

#[test]
fn corpus_never_disagrees() {
    for (name, bytes) in file_corpus() {
        match adapters_outcome(&bytes) {
            Agreement::Agree(m) => {
                assert_eq!(Ok(m), read_slice(&bytes, Options::default()), "{name}")
            }
            Agreement::AllErr => assert!(read_slice(&bytes, Options::default()).is_err()),
            Agreement::Disagree(who) => panic!("{name}: {who}"),
        }
    }
}

#[test]
fn unknown_bytes_are_refused_by_all() {
    assert!(matches!(adapters_outcome(b"no format at all, and rather long too, \
        so that the beginning of it is enough to tell that it will not become one"),
        Agreement::AllErr));
    assert!(matches!(adapters_outcome(b""), Agreement::AllErr));
}

#[test]
fn long_files_agree_when_read_and_when_sought() {
    let j = fixture_huge_nonmeta();
    let whole = read_slice(&j, Options::default());
    assert!(whole.is_ok());
    assert_eq!(read_through(&j, Options::default()), whole);
    assert_eq!(read_seeking(&j, Options::default()), whole);
    assert_eq!(push_drive(&j, Options::default(), 4096), whole);
}

#[test]
fn probing_a_prefix_is_enough() {
    for (name, bytes) in file_corpus() {
        let fmt = probe(&bytes);
        for n in 0..bytes.len() {
            let early = probe(&bytes[..n]);
            assert!(early == FileFormat::Unknown || early == fmt, "{name} at {n}");
        }
    }
}

#[test]
fn bytes_behind_the_end_change_nothing() {
    let j = jpeg_with_all();
    let mut p = PushParser::new(Options::default());
    let mut done_at = None;
    for (i, b) in j.iter().enumerate() {
        if let Ok(Outcome::Done) = p.feed(&[*b]) {
            if done_at.is_none() {
                done_at = Some(i);
            }
        }
    }
    assert!(done_at.unwrap() < j.len() - 1);
    assert_eq!(p.finish(), read_slice(&j, Options::default()));
}

#[test]
fn passing_over_is_like_feeding() {
    let mut j = vec![0xFF, 0xD8, 0xFF, 0xE0, 0x01, 0x00];
    let start = j.len();
    j.extend_from_slice(&[0u8; 254]);
    j.extend_from_slice(&wrap_jpeg_tiff(&orientation_tiff(2))[2..]);
    let mut p = PushParser::new(Options::default());
    match p.feed(&j[..start]).unwrap() {
        Outcome::SkipHint(k) => {
            assert_eq!(k, 254);
            p.skip(k);
        }
        _ => panic!("no hint"),
    }
    assert!(p.feed(&j[start + 254..]).is_ok());
    let m = p.finish().unwrap();
    assert_eq!(Ok(m.clone()), read_slice(&j, Options::default()));
    assert_eq!(m.unified.orientation, Some(Orientation::FlipH));
}

#[test]
fn orientations_round_trip() {
    for v in 1..=8u16 {
        assert_eq!(find_orientation(&orientation_tiff(v)), Some(v));
        let m = read_slice(&wrap_jpeg_tiff(&orientation_tiff(v)), Options::default()).unwrap();
        assert_eq!(m.unified.orientation, Orientation::from_u16(v));
        assert_eq!(m.raw.exif.len(), 1);
    }
}

fn strips_clean(file: &[u8], kept: Orientation) {
    for opts in [StripOptions::default(), StripOptions::aggressive()] {
        let (out, report) = strip_slice(file, opts).unwrap();
        assert!(report.bytes_removed > 0);
        let (again, second) = strip_slice(&out, opts).unwrap();
        assert_eq!(again, out);
        assert_eq!(second.format, report.format);
        let m = read_slice(&out, Options::default()).unwrap();
        assert!(m.raw.xmp.is_empty() && m.raw.text.is_empty() && m.raw.container.is_empty());
        if opts.keep_orientation {
            assert_eq!(m.unified.orientation, Some(kept));
            assert_eq!(m.raw.exif.len(), 1);
        } else {
            assert!(m.raw.exif.is_empty());
        }
    }
}

#[test]
fn stripped_jpeg_stays_stripped() {
    strips_clean(&jpeg_with_all(), Orientation::Rotate90);
}

#[test]
fn stripped_png_stays_stripped() {
    strips_clean(&png_with_all(), Orientation::Rotate180);
}

#[test]
fn stripped_webp_stays_stripped() {
    strips_clean(&webp_with_all(), Orientation::Rotate270);
}

#[test]
fn profiles_stay_unless_asked() {
    for file in [png_with_all(), webp_with_all()] {
        let (kept, _) = strip_slice(&file, StripOptions::default()).unwrap();
        let (gone, _) = strip_slice(&file, StripOptions::aggressive()).unwrap();
        let has = |b: &[u8]| {
            b.windows(4).any(|w| w == b"iCCP".as_slice() || w == b"ICCP".as_slice())
        };
        assert!(has(&kept));
        assert!(!has(&gone));
    }
}

#[test]
fn unpadded_last_chunk_keeps_its_tags() {
    let mut body = Vec::new();
    body.extend_from_slice(b"WEBP");
    body.extend_from_slice(b"XMP ");
    body.extend_from_slice(&3u32.to_le_bytes());
    body.extend_from_slice(b"<x>");
    let mut f = Vec::new();
    f.extend_from_slice(b"RIFF");
    f.extend_from_slice(&(body.len() as u32).to_le_bytes());
    f.extend_from_slice(&body);
    let (out, _) = strip_slice(&f, StripOptions::aggressive()).unwrap();
    assert_eq!(out, f);
}

#[test]
fn tags_stay_within_the_limit() {
    let mut limits = Limits::default();
    limits.max_tags = 1;
    let mut p = png_signature();
    p.extend_from_slice(&ihdr());
    p.extend_from_slice(&png_chunk(b"tEXt", b"A\0one"));
    p.extend_from_slice(&png_chunk(b"tEXt", b"B\0two"));
    p.extend_from_slice(&png_chunk(b"IEND", &[]));
    let m = read_slice(&p, Options { limits }).unwrap();
    assert_eq!(m.raw.text.len(), 1);
    assert_eq!(read_slice(&p, Options::default()).unwrap().raw.text.len(), 2);
}

#[test]
fn sidecars_only_fill_gaps() {
    let packet = br#"<rdf:Description xmlns:dc="n" dc:creator="Side" dc:title="Side"/>"#;
    let m = read_slice(&fixture_png(), Options::default()).unwrap();
    let before = m.unified.clone();
    let once = m.with_xmp_sidecar(packet, Limits::default());
    assert_eq!(once.unified.title.as_deref(), before.title.as_deref().or(Some("Side")));
    assert_eq!(once.unified.width, before.width);
    let twice = once.clone().with_xmp_sidecar(packet, Limits::default());
    assert_eq!(twice.unified, once.unified);
    assert_eq!(twice.raw.xmp_sidecar.len(), 2 * once.raw.xmp_sidecar.len());
    assert_eq!(twice.raw.xmp, once.raw.xmp);
}

#[test]
fn unreadable_sidecars_only_warn() {
    let m = read_slice(&fixture_png(), Options::default()).unwrap();
    let after = m.clone().with_xmp_sidecar(&[0xFF, 0xFE], Limits::default());
    assert_eq!(after.unified, m.unified);
    assert_eq!(after.raw, m.raw);
    assert_eq!(after.warnings.len(), m.warnings.len() + 1);
    let none = m.clone().with_xmp_sidecar(&[], Limits::default());
    assert_eq!(none, m);
}

#[test]
fn cut_files_warn() {
    let j = fixture_plain();
    let m = read_slice(&j[..10], Options::default()).unwrap();
    assert!(m.warnings.iter().any(|w| w.kind == WarnKind::Truncated));
}

#[test]
fn formats_of_the_fixtures() {
    assert_eq!(probe(&fixture_plain()), FileFormat::Jpeg);
    assert_eq!(probe(&fixture_png()), FileFormat::Png);
    assert_eq!(probe(&fixture_gif()), FileFormat::Gif);
    assert_eq!(probe(&fixture_webp()), FileFormat::Webp);
    assert_eq!(probe(&fixture_bmff_mp4()), FileFormat::Mp4);
}
