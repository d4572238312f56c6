//! Streams that arrive in pieces.
use omni_meta::fixtures::push_drive;
use omni_meta::{read_slice, Options, Outcome, PushParser};

fn make_tiff() -> Vec<u8> {
    let mut t: Vec<u8> = Vec::new();
    t.extend_from_slice(b"II");
    t.extend_from_slice(&42u16.to_le_bytes());
    t.extend_from_slice(&8u32.to_le_bytes());
    t.extend_from_slice(&2u16.to_le_bytes());
    t.extend_from_slice(&0x010Fu16.to_le_bytes());
    t.extend_from_slice(&2u16.to_le_bytes());
    t.extend_from_slice(&5u32.to_le_bytes());
    t.extend_from_slice(&38u32.to_le_bytes());
    t.extend_from_slice(&0x0112u16.to_le_bytes());
    t.extend_from_slice(&3u16.to_le_bytes());
    t.extend_from_slice(&1u32.to_le_bytes());
    t.extend_from_slice(&6u32.to_le_bytes());
    t.extend_from_slice(&0u32.to_le_bytes());
    t.extend_from_slice(b"Acme\0");
    t
}

fn jpeg_with_exif() -> Vec<u8> {
    let tiff = make_tiff();
    let mut seg_body: Vec<u8> = Vec::new();
    seg_body.extend_from_slice(b"Exif\0\0");
    seg_body.extend_from_slice(&tiff);
    let len = (seg_body.len() + 2) as u16;
    let mut j: Vec<u8> = Vec::new();
    j.extend_from_slice(&[0xFF, 0xD8, 0xFF, 0xE1]);
    j.extend_from_slice(&len.to_be_bytes());
    j.extend_from_slice(&seg_body);
    j.extend_from_slice(&[0xFF, 0xD9]);
    j
}

#[test]
fn push_matches_slice_various_chunks() {
    let j = jpeg_with_exif();
    let want = read_slice(&j, Options::default()).unwrap();
    for chunk in [1usize, 3, 7, j.len()] {
        let got = push_drive(&j, Options::default(), chunk).unwrap();
        assert_eq!(got, want, "chunk={chunk}");
    }
}

#[test]
fn push_unrecognized_errors() {
    let r = push_drive(&[0x00, 0x01, 0x02], Options::default(), 1);
    assert!(r.is_err());
}

#[test]
fn push_skip_via_caller_seek_equivalent() {
    let tiff = make_tiff();
    let mut app1: Vec<u8> = Vec::new();
    app1.extend_from_slice(b"Exif\0\0");
    app1.extend_from_slice(&tiff);
    let app1_len = (app1.len() + 2) as u16;

    let mut j: Vec<u8> = Vec::new();
    j.extend_from_slice(&[0xFF, 0xD8]);
    j.extend_from_slice(&[0xFF, 0xE0]);
    j.extend_from_slice(&102u16.to_be_bytes());
    j.extend_from_slice(&[0u8; 100]);
    j.extend_from_slice(&[0xFF, 0xE1]);
    j.extend_from_slice(&app1_len.to_be_bytes());
    j.extend_from_slice(&app1);
    j.extend_from_slice(&[0xFF, 0xD9]);

    let want = read_slice(&j, Options::default()).unwrap();

    let mut p = PushParser::new(Options::default());
    let mut src = 0usize;
    let mut outcome = p.feed(&[]).unwrap();
    loop {
        match outcome {
            Outcome::Done => break,
            Outcome::SkipHint(k) => {
                src += k as usize;
                p.skip(k);
                outcome = p.feed(&[]).unwrap();
            }
            Outcome::Need(_) => {
                if src >= j.len() {
                    break;
                }
                let end = (src + 4).min(j.len());
                let chunk = &j[src..end];
                src = end;
                outcome = p.feed(chunk).unwrap();
            }
        }
    }
    let got = p.finish().unwrap();
    assert_eq!(got, want);
}
