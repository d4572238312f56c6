//! JPEG files.
use omni_meta::demand::{Demand, Event, MetaParser, PayloadKind};
use omni_meta::driver::drive_slice;
use omni_meta::formats::jpeg::JpegParser;
use omni_meta::model::Field;
use omni_meta::Limits;

fn jpeg_with_exif() -> Vec<u8> {
    let tiff = [0xAAu8, 0xBB, 0xCC];
    let mut seg_body: Vec<u8> = Vec::new();
    seg_body.extend_from_slice(b"Exif\0\0");
    seg_body.extend_from_slice(&tiff);
    let len = (seg_body.len() + 2) as u16;

    let mut j: Vec<u8> = Vec::new();
    j.extend_from_slice(&[0xFF, 0xD8]);
    j.extend_from_slice(&[0xFF, 0xE1]);
    j.extend_from_slice(&len.to_be_bytes());
    j.extend_from_slice(&seg_body);
    j.extend_from_slice(&[0xFF, 0xD9]);
    j
}

#[test]
fn emits_exif_payload() {
    let j = jpeg_with_exif();
    let mut p = JpegParser::new();
    let res = p.pull(&j);
    assert_eq!(res.demand, Demand::Done);
    assert_eq!(res.events.len(), 1);
    match &res.events[0] {
        Event::Payload { kind, data } => {
            assert_eq!(*kind, PayloadKind::Exif);
            assert_eq!(*data, &[0xAA, 0xBB, 0xCC][..]);
        }
        _ => panic!("expected payload"),
    }
}

#[test]
fn non_jpeg_emits_nothing() {
    let mut p = JpegParser::new();
    let res = p.pull(&[0x00, 0x01, 0x02, 0x03]);
    assert_eq!(res.demand, Demand::Done);
    assert!(res.events.is_empty());
}

#[test]
fn skips_preceding_app0_segment() {
    let tiff = [0x11u8, 0x22, 0x33];
    let mut exif_body: Vec<u8> = Vec::new();
    exif_body.extend_from_slice(b"Exif\0\0");
    exif_body.extend_from_slice(&tiff);
    let exif_len = (exif_body.len() + 2) as u16;

    let app0_body = [0x4Au8, 0x46, 0x49, 0x46, 0x00, 0x01, 0x01];
    let app0_len = (app0_body.len() + 2) as u16;

    let mut j: Vec<u8> = Vec::new();
    j.extend_from_slice(&[0xFF, 0xD8]);
    j.extend_from_slice(&[0xFF, 0xE0]);
    j.extend_from_slice(&app0_len.to_be_bytes());
    j.extend_from_slice(&app0_body);
    j.extend_from_slice(&[0xFF, 0xE1]);
    j.extend_from_slice(&exif_len.to_be_bytes());
    j.extend_from_slice(&exif_body);
    j.extend_from_slice(&[0xFF, 0xD9]);

    let mut p = JpegParser::new();

    let r1 = p.pull(&j);
    assert!(matches!(r1.demand, Demand::Skip(_)));
    let skip_n = match r1.demand { Demand::Skip(n) => n, _ => unreachable!() };
    let pos2 = r1.consumed + skip_n as usize;

    let r2 = p.pull(&j[pos2..]);
    assert_eq!(r2.demand, Demand::Done);
    assert_eq!(r2.events.len(), 1);
    match &r2.events[0] {
        Event::Payload { kind, data } => {
            assert_eq!(*kind, PayloadKind::Exif);
            assert_eq!(*data, &[0x11, 0x22, 0x33][..]);
        }
        _ => panic!("expected payload"),
    }
}

#[test]
fn app1_non_exif_emits_nothing() {
    let body = b"http://ns.adobe.com/xap/1.0/\0xmpdata";
    let len = (body.len() + 2) as u16;
    let mut j: Vec<u8> = Vec::new();
    j.extend_from_slice(&[0xFF, 0xD8]);
    j.extend_from_slice(&[0xFF, 0xE1]);
    j.extend_from_slice(&len.to_be_bytes());
    j.extend_from_slice(body);
    j.extend_from_slice(&[0xFF, 0xD9]);
    let mut p = JpegParser::new();
    let res = p.pull(&j);
    assert!(res.events.is_empty());
}

#[test]
fn truncated_mid_segment_is_safe() {
    let mut j: Vec<u8> = Vec::new();
    j.extend_from_slice(&[0xFF, 0xD8]);
    j.extend_from_slice(&[0xFF, 0xE1]);
    j.extend_from_slice(&100u16.to_be_bytes());
    j.extend_from_slice(b"Exif\0\0ab");
    let mut p = JpegParser::new();
    let res = p.pull(&j);
    assert!(matches!(res.demand, Demand::NeedBytes(_)));
    assert!(res.events.is_empty());
}

#[test]
fn stuffed_ff00_in_marker_area_stops_without_false_event() {
    let j = [0xFFu8, 0xD8, 0xFF, 0x00, 0xFF, 0xD9];
    let mut p = JpegParser::new();
    let res = p.pull(&j);

    assert!(res.events.is_empty());
}

#[test]
fn marker_stuffing_in_segment_region_stops_cleanly() {

    let j = [0xFFu8, 0xD8, 0xFF, 0x00, 0xAA, 0xBB, 0xCC];
    let mut p = JpegParser::new();

    let res = p.pull(&j);
    assert_eq!(res.demand, Demand::Done);
    assert!(res.events.is_empty());

    let mut p2 = JpegParser::new();
    let col = drive_slice(&j, &mut p2, Limits::default());
    assert!(col.warnings.is_empty(), "expected no warnings, got: {:?}", col.warnings);
}

#[test]
fn truncated_app1_requests_more_bytes() {
    let mut j: Vec<u8> = Vec::new();
    j.extend_from_slice(&[0xFF, 0xD8, 0xFF, 0xE1]);
    j.extend_from_slice(&20u16.to_be_bytes());
    j.extend_from_slice(&[0xAA, 0xBB, 0xCC, 0xDD]);
    let mut p = JpegParser::new();
    let res = p.pull(&j);
    match res.demand {
        Demand::NeedBytes(_) => {}
        other => panic!("expected NeedBytes, got {other:?}"),
    }
    assert!(res.events.is_empty());
}

#[test]
fn sof_emits_dimensions() {
    let mut j: Vec<u8> = Vec::new();
    j.extend_from_slice(&[0xFF, 0xD8]);
    j.extend_from_slice(&[0xFF, 0xC0]);

    j.extend_from_slice(&13u16.to_be_bytes());
    j.push(8);
    j.extend_from_slice(&1080u16.to_be_bytes());
    j.extend_from_slice(&1920u16.to_be_bytes());
    j.extend_from_slice(&[1, 0x11, 0]);
    j.extend_from_slice(&[0xFF, 0xD9]);

    let mut p = JpegParser::new();
    let res = p.pull(&j);
    let mut w = None;
    let mut h = None;
    for ev in &res.events {
        if let Event::Field(Field::Width(x)) = ev {
            w = Some(*x);
        }
        if let Event::Field(Field::Height(x)) = ev {
            h = Some(*x);
        }
    }
    assert_eq!(w, Some(1920));
    assert_eq!(h, Some(1080));
}

#[test]
fn non_metadata_segment_emits_skip() {
    let mut j: Vec<u8> = Vec::new();
    j.extend_from_slice(&[0xFF, 0xD8, 0xFF, 0xE0]);
    j.extend_from_slice(&8u16.to_be_bytes());
    j.extend_from_slice(&[1, 2, 3, 4, 5, 6]);
    let mut p = JpegParser::new();
    let res = p.pull(&j);
    assert_eq!(res.demand, Demand::Skip(6));

    assert_eq!(res.consumed, 6);
    assert!(res.events.is_empty());
}

#[test]
fn resumes_across_pulls() {
    let tiff = [0xAAu8, 0xBB, 0xCC];
    let mut app1: Vec<u8> = Vec::new();
    app1.extend_from_slice(b"Exif\0\0");
    app1.extend_from_slice(&tiff);
    let app1_len = (app1.len() + 2) as u16;

    let mut j: Vec<u8> = Vec::new();
    j.extend_from_slice(&[0xFF, 0xD8]);
    j.extend_from_slice(&[0xFF, 0xE0]);
    j.extend_from_slice(&8u16.to_be_bytes());
    j.extend_from_slice(&[1, 2, 3, 4, 5, 6]);
    j.extend_from_slice(&[0xFF, 0xE1]);
    j.extend_from_slice(&app1_len.to_be_bytes());
    j.extend_from_slice(&app1);
    j.extend_from_slice(&[0xFF, 0xD9]);

    let mut p = JpegParser::new();

    let r1 = p.pull(&j);
    assert_eq!(r1.demand, Demand::Skip(6));
    let _pos = r1.consumed + 6;

    let r2 = p.pull(&j[_pos..]);
    assert_eq!(r2.demand, Demand::Done);
    assert_eq!(r2.events.len(), 1);
    match &r2.events[0] {
        Event::Payload { kind, data } => {
            assert_eq!(*kind, PayloadKind::Exif);
            assert_eq!(*data, &[0xAA, 0xBB, 0xCC][..]);
        }
        _ => panic!("expected payload"),
    }
}
