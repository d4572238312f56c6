//! Walks, pulls and pieces.
use omni_meta::adapters::session::{Action, BlockingSession};
use omni_meta::adapters::strip_slice::gather;
use omni_meta::containers::ebml::iter_child_elements;
use omni_meta::containers::isobmff::iter_child_boxes;
use omni_meta::demand::{Demand, MetaParser, PayloadKind, PullResult};
use omni_meta::driver::{drive_slice, StreamDriver};
use omni_meta::fixtures::{
    adapters_outcome, bmff_box, bmff_meta, ebml_elem, fixture_ebml, fixture_gif, fixture_plain,
    fixture_png, fixture_webp, push_drive, riff_chunk, Agreement,
};
use omni_meta::fixtures::oracle::{read_through, told, told_both, told_push};
use omni_meta::formats::items::parse_meta;
use omni_meta::strip::exif_synth::orientation_tiff;
use omni_meta::text::{push_number, push_text};
use omni_meta::{
    read_slice, strip_slice, Error, Limits, Options, Outcome, StripOptions, WarnKind,
};

/// Answers with a script, over and over, and remembers how often and with what it was
/// asked.
struct Scripted {
    answers: Vec<(Demand, usize)>,
    windows: Vec<usize>,
    asked_after_done: bool,
    done: bool,
}

impl Scripted {
    fn new(answers: Vec<(Demand, usize)>) -> Self {
        Scripted { answers, windows: Vec::new(), asked_after_done: false, done: false }
    }
}

impl MetaParser for Scripted {
    type State = ();

    fn pull<'a>(&mut self, input: &'a [u8]) -> PullResult<'a> {
        let (demand, consumed) = self.answers[self.windows.len() % self.answers.len()];
        self.windows.push(input.len());
        if self.done {
            self.asked_after_done = true;
        }
        self.done = demand == Demand::Done;
        PullResult { demand, consumed: consumed.min(input.len()), events: Vec::new() }
    }
}

#[test]
fn spiteful_parsers_are_stopped() {
    let buf = [0u8; 10];
    let mut p = Scripted::new(vec![(Demand::SeekTo(1), 0), (Demand::SeekTo(2), 0)]);
    let col = drive_slice(&buf, &mut p, Limits::default());
    assert_eq!(p.windows.len(), 2 * buf.len() + 1024);
    assert_eq!(p.windows[0], 10);
    assert_eq!(col.warnings.last().unwrap().kind, WarnKind::UnreachableSection);
}

#[test]
fn nothing_is_pulled_after_done() {
    let buf = [0u8; 10];
    let mut p = Scripted::new(vec![(Demand::Skip(2), 1), (Demand::Done, 0)]);
    drive_slice(&buf, &mut p, Limits::default());
    assert_eq!(p.windows, vec![10, 7]);
    assert!(!p.asked_after_done);
}

#[test]
fn an_empty_buffer_is_shown_once() {
    let mut p = Scripted::new(vec![(Demand::NeedBytes(4), 0)]);
    let col = drive_slice(&[], &mut p, Limits::default());
    assert_eq!(p.windows, vec![0]);
    assert_eq!(col.warnings.len(), 1);
}

#[test]
fn streams_stay_done() {
    let p = Scripted::new(vec![(Demand::NeedBytes(4), 0), (Demand::Done, 4)]);
    let mut d = StreamDriver::new(p, Limits::default());
    assert_eq!(d.feed(&[]), Outcome::Need(1));
    assert_eq!(d.feed(&[1, 2]), Outcome::Need(2));
    assert_eq!(d.feed(&[3, 4]), Outcome::Done);
    assert_eq!(d.feed(&[5, 6]), Outcome::Done);
    assert!(d.finish().warnings.is_empty());
}

#[test]
fn walks_yield_whole_headers() {
    let mut b = bmff_box(b"free", &[1, 2, 3]);
    b.extend_from_slice(&bmff_box(b"skip", &[]));
    b.extend_from_slice(&[0, 0, 0, 99, b'm', b'd', b'a', b't']);
    let mut it = iter_child_boxes(&b);
    let (h, p) = it.next().unwrap();
    assert_eq!((&h.kind, h.header_len, h.total_size, p), (b"free", 8, Some(11), &[1u8, 2, 3][..]));
    let (h, p) = it.next().unwrap();
    assert_eq!((&h.kind, h.header_len, h.total_size, p), (b"skip", 8, Some(8), &[][..]));
    assert!(it.next().is_none());
    assert!(it.next().is_none());

    let mut e = ebml_elem(&[0x42, 0x82], b"webm");
    e.extend_from_slice(&[0xEC, 0x81, 7]);
    let mut it = iter_child_elements(&e);
    let (h, p) = it.next().unwrap();
    assert_eq!((h.id, h.header_len, h.size, p), (0x4282, 10, Some(4), &b"webm"[..]));
    let (h, p) = it.next().unwrap();
    assert_eq!((h.id, h.header_len, h.size, p), (0xEC, 2, Some(1), &[7u8][..]));
    assert!(it.next().is_none());
}

#[test]
fn long_box_sizes_are_kept() {
    let mut b = vec![0, 0, 0, 1, b'f', b'r', b'e', b'e', 0, 0, 0, 0, 0, 0, 0, 18];
    b.extend_from_slice(&[5, 6]);
    let (h, p) = iter_child_boxes(&b).next().unwrap();
    assert_eq!((h.header_len, h.total_size, p), (16, Some(18), &[5u8, 6][..]));
}

#[test]
fn built_meta_boxes_read_back() {
    for (exif, xmp) in [((500u64, 40u64), (600u64, 30u64)), ((600, 40), (500, 30))] {
        let m = bmff_meta(exif.0, exif.1, xmp.0, xmp.1);
        assert_eq!(m.len(), 202);
        let plan = parse_meta(&m[8..], 0);
        assert_eq!(plan.dims, Some((4032, 3024)));
        assert!(plan.inline.is_empty());
        assert!(plan.warnings.is_empty());
        let mut expected = vec![(exif, PayloadKind::Exif), (xmp, PayloadKind::Xmp)];
        expected.sort_by_key(|t| t.0 .0);
        let found: Vec<((u64, u64), PayloadKind)> =
            plan.targets.iter().map(|t| ((t.offset, t.length), t.kind)).collect();
        assert_eq!(found, expected);
    }
}

#[test]
fn gathering_stops_at_the_limit() {
    let mut opts = StripOptions::default();
    opts.limits.max_payload_bytes = 5;
    let mut input = Vec::new();
    assert_eq!(gather(&mut input, &[1, 2], &opts), Ok(()));
    assert_eq!(gather(&mut input, &[3, 4, 5, 6], &opts), Err(Error::Io));
    assert_eq!(input, vec![1, 2]);
    assert_eq!(gather(&mut input, &[3, 4, 5], &opts), Ok(()));
    assert_eq!(gather(&mut input, &[], &opts), Ok(()));
    assert_eq!(gather(&mut input, &[6], &opts), Err(Error::Io));
    assert_eq!(input, vec![1, 2, 3, 4, 5]);
}

#[test]
fn gathered_files_strip_like_buffers() {
    let opts = StripOptions::default();
    for file in [fixture_plain(), fixture_png(), fixture_webp()] {
        for size in [1, 5, 64] {
            let mut input = Vec::new();
            for piece in file.chunks(size) {
                gather(&mut input, piece, &opts).unwrap();
            }
            let (a, _) = strip_slice(&input, opts).unwrap();
            let (b, _) = strip_slice(&file, opts).unwrap();
            assert_eq!(a, b);
        }
    }
}

#[test]
fn plain_files_agree_in_uneven_pieces() {
    let files = [
        fixture_plain(),
        fixture_png(),
        fixture_gif(),
        gif_with_a_late_trailer(),
        fixture_webp(),
        fixture_ebml(b"matroska"),
        b"none".to_vec(),
    ];
    for file in files {
        let whole = read_slice(&file, Options::default());
        let mut session = BlockingSession::new(Options::default());
        let mut rest = &file[..];
        let mut size = 1;
        let mut read = None;
        while read.is_none() {
            let (piece, later) = rest.split_at(size.min(rest.len()));
            rest = later;
            size = size * 2 + 1;
            match session.read(piece) {
                Ok(Action::Finish) => read = Some(Ok(())),
                Ok(_) => {}
                Err(e) => read = Some(Err(e)),
            }
        }
        match read.unwrap() {
            Ok(()) => assert_eq!(session.finish(), whole),
            Err(e) => assert_eq!(Err(e), whole),
        }
        for chunk in 1..20 {
            assert_eq!(push_drive(&file, Options::default(), chunk), whole);
        }
    }
}

/// A HEIF file whose payloads stand before the box that names them.
fn payloads_first() -> Vec<u8> {
    let ftyp = bmff_box(b"ftyp", b"heic\0\0\0\0mif1heic");
    let mut exif = vec![0u8, 0, 0, 0];
    exif.extend_from_slice(&orientation_tiff(6));
    let xmp = br#"<rdf:Description tiff:Make="Acme"/>"#;
    let at = ftyp.len() as u64 + 8;
    let mut data = exif.clone();
    data.extend_from_slice(xmp);
    let mut f = ftyp;
    f.extend_from_slice(&bmff_box(b"mdat", &data));
    let len = exif.len() as u64;
    f.extend_from_slice(&bmff_meta(at, len, at + len, xmp.len() as u64));
    f
}

#[test]
fn disagreements_tell_what_the_reader_came_to() {
    let f = payloads_first();
    let through = read_through(&f, Options::default());
    assert_ne!(through, read_slice(&f, Options::default()));
    match adapters_outcome(&f) {
        Agreement::Disagree(why) => {
            assert_eq!(why, format!("blocking vs slice: {through:?}"));
            assert!(why.starts_with("blocking vs slice: Ok(Metadata {"), "{why}");
            assert!(why.contains("UnreachableSection"), "{why}");
        }
        other => panic!("{other:?}"),
    }
    assert_eq!(told("seek vs slice", "Err(UnrecognizedFormat)"), "seek vs slice: Err(UnrecognizedFormat)");
    assert_eq!(told_push(1, "x"), "push chunk=1: x");
    assert_eq!(told_push(8192, "x"), "push chunk=8192: x");
    assert_eq!(told_both("a", "b"), "slice Err 但他者非全 Err: blocking=a seek=b");
}

/// A GIF file with an XMP packet that a zero byte ends, and behind it a comment that looks
/// like the trailer of a packet.
fn gif_with_a_late_trailer() -> Vec<u8> {
    let mut g = b"GIF89a".to_vec();
    g.extend_from_slice(&[8, 0, 6, 0, 0, 0, 0]);
    g.extend_from_slice(&[0x21, 0xFF, 0x0B]);
    g.extend_from_slice(b"XMP DataXMP");
    g.extend_from_slice(br#"<rdf:Description tiff:Make="Acme"/>"#);
    g.push(0);
    g.extend_from_slice(&[0x21, 0xFE]);
    let note = br#"<rdf:Description tiff:Model="Zed"/>"#;
    g.push(note.len() as u8 + 3);
    g.extend_from_slice(note);
    g.extend_from_slice(&[0x01, 0xFF, 0xFE]);
    g.push(0);
    g.push(0x3B);
    g
}

#[test]
fn gif_packets_end_at_their_zero_byte() {
    let g = gif_with_a_late_trailer();
    match adapters_outcome(&g) {
        Agreement::Agree(m) => {
            assert_eq!(m.unified.camera_make.as_deref(), Some("Acme"));
            assert_eq!(m.unified.camera_model, None);
            assert_eq!((m.unified.width, m.unified.height), (Some(8), Some(6)));
        }
        other => panic!("{other:?}"),
    }
}

fn webp_of(chunks: &[Vec<u8>]) -> Vec<u8> {
    let mut body = b"WEBP".to_vec();
    for c in chunks {
        body.extend_from_slice(c);
    }
    let mut f = b"RIFF".to_vec();
    f.extend_from_slice(&(body.len() as u32).to_le_bytes());
    f.extend_from_slice(&body);
    f
}

#[test]
fn webp_flags_go_by_chunks() {
    let mut head = vec![0u8; 10];
    head[0] = 0x2C | 0x10;
    let image = riff_chunk(b"VP8 ", b"EXIF and ICCP in the image data.");
    let bare = webp_of(&[riff_chunk(b"VP8X", &head), image.clone()]);
    let profile = riff_chunk(b"ICCP", b"profile!");
    let full = webp_of(&[
        riff_chunk(b"VP8X", &head),
        profile,
        image,
        riff_chunk(b"EXIF", &orientation_tiff(3)),
    ]);
    for opts in [StripOptions::default(), StripOptions::aggressive()] {
        let (out, _) = strip_slice(&bare, opts).unwrap();
        assert_eq!(out[20], 0x10);
        assert_eq!(strip_slice(&out, opts).unwrap().0, out);
        let (out, _) = strip_slice(&full, opts).unwrap();
        assert_eq!(strip_slice(&out, opts).unwrap().0, out);
    }
    assert_eq!(strip_slice(&full, StripOptions::default()).unwrap().0[20], 0x10 | 0x20 | 0x08);
    assert_eq!(strip_slice(&full, StripOptions::aggressive()).unwrap().0[20], 0x10);
}

#[test]
fn numbers_are_written_in_digits() {
    for n in [0usize, 7, 10, 305, usize::MAX] {
        let mut s = String::from("n=");
        push_number(&mut s, n);
        push_text(&mut s, "!");
        assert_eq!(s, format!("n={n}!"));
    }
}
