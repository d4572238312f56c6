//! Drivers over buffers and streams.
use omni_meta::demand::{Demand, Event, MetaParser, PayloadKind, PullResult};
use omni_meta::driver::{drive_slice, finalize, Collector, Outcome, StreamDriver};
use omni_meta::formats::jpeg::JpegParser;
use omni_meta::model::Field;
use omni_meta::{
    ContainerSource, ContainerTag, DateTimeParts, FileFormat, Gps, Limits, Orientation, Value, WarnKind,
    XmpProperty,
};

struct Script {
    steps: Vec<Demand>,
    i: usize,
}
impl MetaParser for Script {
    type State = ();

    fn pull<'a>(&mut self, _input: &'a [u8]) -> PullResult<'a> {
        let demand = self.steps.get(self.i).cloned().unwrap_or(Demand::Done);
        self.i += 1;
        PullResult {
            demand,
            consumed: 0,
            events: Vec::new(),
        }
    }
}

struct AlwaysSkipZero;
impl MetaParser for AlwaysSkipZero {
    type State = ();

    fn pull<'a>(&mut self, _input: &'a [u8]) -> PullResult<'a> {
        PullResult {
            demand: Demand::Skip(0),
            consumed: 0,
            events: Vec::new(),
        }
    }
}

struct AlwaysSeekZero;
impl MetaParser for AlwaysSeekZero {
    type State = ();

    fn pull<'a>(&mut self, _input: &'a [u8]) -> PullResult<'a> {
        PullResult {
            demand: Demand::SeekTo(0),
            consumed: 0,
            events: Vec::new(),
        }
    }
}

struct ConsecutiveSeekParser {
    step: u8,
}
impl MetaParser for ConsecutiveSeekParser {
    type State = ();

    fn pull<'a>(&mut self, input: &'a [u8]) -> PullResult<'a> {
        if input.len() < 4 {
            return PullResult {
                demand: Demand::NeedBytes(4),
                consumed: 0,
                events: Vec::new(),
            };
        }
        if self.step == 0 {
            self.step = 1;

            let events = vec![Event::Field(Field::Width(1))];
            return PullResult {
                demand: Demand::SeekTo(4),
                consumed: 4,
                events,
            };
        }
        let events = vec![Event::Field(Field::Height(2))];
        PullResult {
            demand: Demand::Done,
            consumed: 4,
            events,
        }
    }
}

#[test]
fn stream_consecutive_zero_gap_seek_with_consumed_progresses() {
    let bytes = [0u8; 8];
    let col = run_stream(
        &[&bytes],
        ConsecutiveSeekParser { step: 0 },
    );
    assert!(col.warnings.is_empty(), "warnings: {:?}", col.warnings);
    assert_eq!(col.width, Some(1));
    assert_eq!(col.height, Some(2));
}

struct TwoBoxParser {
    skipped: bool,
    emitted: bool,
}
impl MetaParser for TwoBoxParser {
    type State = ();

    fn pull<'a>(&mut self, input: &'a [u8]) -> PullResult<'a> {
        if input.is_empty() {
            return PullResult {
                demand: Demand::Done,
                consumed: 0,
                events: Vec::new(),
            };
        }
        if !self.skipped {
            if input.len() < 4 {
                return PullResult {
                    demand: Demand::NeedBytes(4),
                    consumed: 0,
                    events: Vec::new(),
                };
            }
            self.skipped = true;
            return PullResult {
                demand: Demand::Skip(4),
                consumed: 0,
                events: Vec::new(),
            };
        }
        if !self.emitted {
            if input.len() < 4 {
                return PullResult {
                    demand: Demand::NeedBytes(4),
                    consumed: 0,
                    events: Vec::new(),
                };
            }
            self.emitted = true;
            let events = vec![Event::Field(Field::Width(7))];
            return PullResult {
                demand: Demand::Done,
                consumed: 4,
                events,
            };
        }
        PullResult {
            demand: Demand::Done,
            consumed: 0,
            events: Vec::new(),
        }
    }
}

#[test]
fn stream_does_not_finish_early_on_boundary_empty_window() {
    let bytes = [0u8; 8];
    let chunks: Vec<&[u8]> = bytes.chunks(1).collect();
    let col = run_stream(
        &chunks,
        TwoBoxParser {
            skipped: false,
            emitted: false,
        },
    );
    assert_eq!(
        col.width,
        Some(7));
    assert!(col.warnings.is_empty(), "warnings: {:?}", col.warnings);
}

#[test]
fn skip_advances_then_done() {
    let buf = [0u8; 20];
    let mut p = Script {
        steps: vec![Demand::Skip(10)],
        i: 0,
    };
    let col = drive_slice(&buf, &mut p, Limits::default());
    assert!(col.warnings.is_empty(), "warnings: {:?}", col.warnings);
}

#[test]
fn seek_within_bounds_then_done() {
    let buf = [0u8; 20];
    let mut p = Script {
        steps: vec![Demand::SeekTo(5)],
        i: 0,
    };
    let col = drive_slice(&buf, &mut p, Limits::default());
    assert!(col.warnings.is_empty(), "warnings: {:?}", col.warnings);
}

#[test]
fn seek_past_end_warns_truncated() {
    let buf = [0u8; 4];
    let mut p = Script {
        steps: vec![Demand::SeekTo(9999)],
        i: 0,
    };
    let col = drive_slice(&buf, &mut p, Limits::default());
    assert_eq!(col.warnings.len(), 1);
    assert_eq!(col.warnings[0].kind, WarnKind::Truncated);
}

#[test]
fn skip_past_end_warns_truncated() {
    let buf = [0u8; 4];
    let mut p = Script {
        steps: vec![Demand::Skip(9999)],
        i: 0,
    };
    let col = drive_slice(&buf, &mut p, Limits::default());
    assert_eq!(col.warnings.len(), 1);
    assert_eq!(col.warnings[0].kind, WarnKind::Truncated);
}

#[test]
fn stream_huge_skip_offset_does_not_overflow() {
    let mut d = StreamDriver::new(
        Script {
            steps: vec![Demand::Skip(100), Demand::Skip(u64::MAX)],
            i: 0,
        },
        Limits::default(),
    );
    let _ = d.feed(&[0u8; 200]);
    let _ = d.feed(&[]);
    let col = d.finish();
    assert!(!col.warnings.is_empty());
}

#[test]
fn stream_skip_past_eof_warns_truncated() {
    let mut d = StreamDriver::new(
        Script {
            steps: vec![Demand::Skip(9999)],
            i: 0,
        },
        Limits::default(),
    );
    let _ = d.feed(&[0u8; 4]);
    let _ = d.feed(&[]);
    let col = d.finish();
    assert_eq!(col.warnings.len(), 1);
    assert_eq!(col.warnings[0].kind, WarnKind::Truncated);
}

#[test]
fn need_bytes_yields_truncated_warning() {
    let buf = [0u8; 4];
    let mut p = Script {
        steps: vec![Demand::NeedBytes(99)],
        i: 0,
    };
    let col = drive_slice(&buf, &mut p, Limits::default());
    assert_eq!(col.warnings.len(), 1);
    assert_eq!(col.warnings[0].kind, WarnKind::Truncated);
}

#[test]
fn zero_progress_skip_terminates() {
    let buf = [0u8; 8];
    let mut p = AlwaysSkipZero;
    let col = drive_slice(&buf, &mut p, Limits::default());
    assert!(!col.warnings.is_empty());
}

#[test]
fn zero_progress_seek_terminates() {
    let buf = [0u8; 8];
    let mut p = AlwaysSeekZero;
    let col = drive_slice(&buf, &mut p, Limits::default());
    assert!(!col.warnings.is_empty());
}

#[test]
fn driver_drives_jpeg_into_exif_collector() {
    let tiff = make_tiff();
    let mut seg_body: Vec<u8> = Vec::new();
    seg_body.extend_from_slice(b"Exif\0\0");
    seg_body.extend_from_slice(&tiff);
    let len = (seg_body.len() + 2) as u16;
    let mut j: Vec<u8> = Vec::new();
    j.extend_from_slice(&[0xFF, 0xD8, 0xFF, 0xE1]);
    j.extend_from_slice(&len.to_be_bytes());
    j.extend_from_slice(&seg_body);
    j.extend_from_slice(&[0xFF, 0xD9]);

    let mut parser = JpegParser::new();
    let col = drive_slice(&j, &mut parser, Limits::default());
    assert!(col.warnings.is_empty(), "warnings: {:?}", col.warnings);
    assert_eq!(col.exif.len(), 2);
}

#[test]
fn slice_truncated_app1_warns_with_offset() {
    let mut j: Vec<u8> = Vec::new();
    j.extend_from_slice(&[0xFF, 0xD8, 0xFF, 0xE1]);
    j.extend_from_slice(&20u16.to_be_bytes());
    j.extend_from_slice(&[0xAA, 0xBB]);
    let mut parser = JpegParser::new();
    let col = drive_slice(&j, &mut parser, Limits::default());
    assert_eq!(col.warnings.len(), 1);
    assert_eq!(col.warnings[0].kind, WarnKind::Truncated);

    assert_eq!(col.warnings[0].offset, 2);
}

fn run_stream<P: MetaParser>(chunks: &[&[u8]], parser: P) -> Collector {
    let mut d = StreamDriver::new(parser, Limits::default());
    for c in chunks {
        let _ = d.feed(c);
    }
    d.finish()
}

#[test]
fn stream_drives_jpeg_in_one_chunk() {
    let j = make_jpeg_with_exif();
    let col = run_stream(
        &[&j],
        JpegParser::new(),
    );
    assert!(col.warnings.is_empty(), "warnings: {:?}", col.warnings);
    assert_eq!(col.exif.len(), 2);
}

#[test]
fn stream_drives_jpeg_byte_by_byte() {
    let j = make_jpeg_with_exif();
    let chunks: Vec<&[u8]> = j.chunks(1).collect();
    let col = run_stream(
        &chunks,
        JpegParser::new(),
    );
    assert!(col.warnings.is_empty(), "warnings: {:?}", col.warnings);
    assert_eq!(col.exif.len(), 2);
}

#[test]
fn stream_skip_outcome_then_seek_external() {
    let mut d = StreamDriver::new(
        Script {
            steps: vec![Demand::Skip(100)],
            i: 0,
        },
        Limits::default(),
    );

    match d.feed(&[0u8; 4]) {
        Outcome::SkipHint(k) => assert!(k > 0 && k <= 100),
        other => panic!("expected SkipHint, got {other:?}"),
    }

    if let Outcome::SkipHint(k) = d.feed(&[]) {
        d.skip_external(k);
    }
    let col = d.finish();
    assert!(col.warnings.is_empty(), "warnings: {:?}", col.warnings);
}

#[test]
fn stream_truncated_app1_warns_truncated() {
    let mut j: Vec<u8> = Vec::new();
    j.extend_from_slice(&[0xFF, 0xD8, 0xFF, 0xE1]);
    j.extend_from_slice(&20u16.to_be_bytes());
    j.extend_from_slice(&[0xAA, 0xBB]);
    let chunks: Vec<&[u8]> = j.chunks(1).collect();
    let col = run_stream(
        &chunks,
        JpegParser::new(),
    );
    assert_eq!(col.warnings.len(), 1);
    assert_eq!(col.warnings[0].kind, WarnKind::Truncated);
    assert_eq!(col.warnings[0].offset, 2);
}

#[test]
fn stream_seekto_backward_beyond_retained_warns() {
    let mut d = StreamDriver::new(
        Script {
            steps: vec![Demand::Skip(4), Demand::SeekTo(0)],
            i: 0,
        },
        Limits::default(),
    );
    let _ = d.feed(&[0u8; 8]);
    let _ = d.feed(&[]);
    let col = d.finish();
    assert!(
        col.warnings
            .iter()
            .any(|w| w.kind == WarnKind::UnreachableSection)
    );
}

fn make_jpeg_with_exif() -> Vec<u8> {
    let tiff = make_tiff();
    let mut seg_body: Vec<u8> = Vec::new();
    seg_body.extend_from_slice(b"Exif\0\0");
    seg_body.extend_from_slice(&tiff);
    let len = (seg_body.len() + 2) as u16;
    let mut j: Vec<u8> = Vec::new();
    j.extend_from_slice(&[0xFF, 0xD8, 0xFF, 0xE1]);
    j.extend_from_slice(&len.to_be_bytes());
    j.extend_from_slice(&seg_body);
    j.extend_from_slice(&[0xFF, 0xD9]);
    j
}

#[test]
fn finalize_projects_unified() {
    let j = make_jpeg_with_exif();
    let mut parser = JpegParser::new();
    let col = drive_slice(&j, &mut parser, Limits::default());
    let meta = finalize(col, FileFormat::Jpeg);
    assert_eq!(meta.format, FileFormat::Jpeg);
    assert_eq!(
        meta.unified.orientation,
        Some(Orientation::Rotate90)
    );
    assert_eq!(meta.unified.camera_make.as_deref(), Some("Acme"));
    assert_eq!(meta.raw.exif.len(), 2);
}

struct FieldXmpEmitter;
impl MetaParser for FieldXmpEmitter {
    type State = ();

    fn pull<'a>(&mut self, input: &'a [u8]) -> PullResult<'a> {
        let events = vec![
            Event::Field(Field::Width(1920)),
            Event::Field(Field::Height(1080)),
            Event::Payload {
                kind: PayloadKind::Xmp,
                data: br#"<rdf:Description tiff:Make="Acme"/>"#,
            },
        ];
        PullResult {
            demand: Demand::Done,
            consumed: input.len(),
            events,
        }
    }
}

#[test]
fn collector_records_fields_and_xmp() {
    let buf = [0u8; 4];
    let mut p = FieldXmpEmitter;
    let col = drive_slice(&buf, &mut p, Limits::default());
    let meta = finalize(col, FileFormat::Png);
    assert_eq!(meta.unified.width, Some(1920));
    assert_eq!(meta.unified.height, Some(1080));
    assert_eq!(
        meta.raw.xmp,
        vec![XmpProperty {
            prefix: String::from("tiff"),
            name: String::from("Make"),
            value: String::from("Acme"),
        }]
    );
}

struct DimConflictEmitter;
impl MetaParser for DimConflictEmitter {
    type State = ();

    fn pull<'a>(&mut self, input: &'a [u8]) -> PullResult<'a> {
        let events = vec![
            Event::Field(Field::Width(1920)),
            Event::Field(Field::Height(1080)),
            Event::Payload {
                kind: PayloadKind::Xmp,
                data: br#"<rdf:Description tiff:ImageWidth="999" tiff:ImageLength="888"/>"#,
            },
        ];
        PullResult {
            demand: Demand::Done,
            consumed: input.len(),
            events,
        }
    }
}

#[test]
fn container_dims_beat_xmp_dims() {
    let buf = [0u8; 4];
    let mut p = DimConflictEmitter;
    let col = drive_slice(&buf, &mut p, Limits::default());
    let meta = finalize(col, FileFormat::Png);
    assert_eq!(meta.unified.width, Some(1920));
    assert_eq!(meta.unified.height, Some(1080));

    assert!(
        meta.raw
            .xmp
            .iter()
            .any(|x| x.name == "ImageWidth" && x.value == "999")
    );
}

struct ContainerTimeEmitter;
impl MetaParser for ContainerTimeEmitter {
    type State = ();

    fn pull<'a>(&mut self, input: &'a [u8]) -> PullResult<'a> {
        let events = vec![
            Event::Field(Field::Duration(1_501_500)),
            Event::Field(Field::Created(DateTimeParts {
                year: 2018,
                month: 1,
                day: 1,
                hour: 12,
                minute: 0,
                second: 0,
                tz_offset_min: Some(0),
            })),
        ];
        PullResult {
            demand: Demand::Done,
            consumed: input.len(),
            events,
        }
    }
}

#[test]
fn collector_records_duration_and_created() {
    let buf = [0u8; 4];
    let mut p = ContainerTimeEmitter;
    let col = drive_slice(&buf, &mut p, Limits::default());
    let meta = finalize(col, FileFormat::Mp4);
    assert_eq!(meta.unified.duration_ms, Some(1_501_500));
    assert_eq!(meta.unified.created.map(|d| d.year), Some(2018));
    assert_eq!(meta.unified.created.and_then(|d| d.tz_offset_min), Some(0));
}

struct ContainerCreatedEmitter;
impl MetaParser for ContainerCreatedEmitter {
    type State = ();

    fn pull<'a>(&mut self, input: &'a [u8]) -> PullResult<'a> {
        let events = vec![Event::Field(Field::Created(DateTimeParts {
            year: 2018,
            month: 1,
            day: 1,
            hour: 0,
            minute: 0,
            second: 0,
            tz_offset_min: Some(0),
        }))];
        PullResult {
            demand: Demand::Done,
            consumed: input.len(),
            events,
        }
    }
}

#[test]
fn container_created_written_to_unified() {
    let buf = [0u8; 4];
    let mut p = ContainerCreatedEmitter;
    let col = drive_slice(&buf, &mut p, Limits::default());
    let meta = finalize(col, FileFormat::Mp4);
    assert_eq!(meta.unified.created.map(|d| d.year), Some(2018));
}

struct ExifPlusContainerCreatedEmitter;
impl MetaParser for ExifPlusContainerCreatedEmitter {
    type State = ();

    fn pull<'a>(&mut self, _input: &'a [u8]) -> PullResult<'a> {

        let events = vec![
            Event::Payload {
                kind: PayloadKind::Exif,
                data: TIFF_WITH_DTO,
            },
            Event::Field(Field::Created(DateTimeParts {
                year: 2018,
                month: 6,
                day: 15,
                hour: 0,
                minute: 0,
                second: 0,
                tz_offset_min: Some(0),
            })),
        ];
        PullResult {
            demand: Demand::Done,
            consumed: 0,
            events,
        }
    }
}

const TIFF_WITH_DTO: &[u8] = &[

    b'I', b'I', 42, 0,
    8, 0, 0, 0,

    1, 0,
    0x69, 0x87,
    4, 0,
    1, 0, 0, 0,
    26, 0, 0, 0,

    0, 0, 0, 0,
    1, 0,
    0x03, 0x90,
    2, 0,
    20, 0, 0, 0,
    44, 0, 0, 0,

    0, 0, 0, 0,
    b'2', b'0', b'0', b'3', b':', b'0', b'1', b':', b'2', b'4', b' ', b'0', b'9', b':', b'2',
    b'0', b':', b'0', b'0', 0,
];

#[test]
fn container_created_beats_exif_derived() {
    let buf = [0u8; 4];
    let mut p = ExifPlusContainerCreatedEmitter;
    let col = drive_slice(&buf, &mut p, Limits::default());
    let meta = finalize(col, FileFormat::Mp4);

    assert!(
        meta.raw.exif.iter().any(|t| t.tag == 0x9003));

    assert_eq!(meta.unified.created.map(|d| d.year), Some(2018));
}

struct CameraEmitter;
impl MetaParser for CameraEmitter {
    type State = ();

    fn pull<'a>(&mut self, _input: &'a [u8]) -> PullResult<'a> {
        PullResult {
            demand: Demand::Done,
            consumed: 0,
            events: vec![
                Event::Field(Field::Gps(Gps {
                    lat_e7: 1,
                    lon_e7: 2,
                    alt_mm: Some(3)
                })),
                Event::Field(Field::CameraMake(String::from("Apple"))),
                Event::Field(Field::CameraModel(String::from("iPhone 15"))),
            ],
        }
    }
}

#[test]
fn collector_applies_gps_make_model_fields() {
    let buf = [0u8; 4];
    let mut p = CameraEmitter;
    let col = drive_slice(&buf, &mut p, Limits::default());
    let meta = finalize(col, FileFormat::Mov);
    assert_eq!(
        meta.unified.gps,
        Some(Gps {
            lat_e7: 1,
            lon_e7: 2,
            alt_mm: Some(3)
        })
    );
    assert_eq!(meta.unified.camera_make.as_deref(), Some("Apple"));
    assert_eq!(meta.unified.camera_model.as_deref(), Some("iPhone 15"));
}

#[test]
fn collector_accumulates_container_tags_and_caps_at_max_tags() {
    let limits = Limits {
        max_tags: 2,
        ..Limits::default()
    };
    let mut col = Collector {
        exif: Vec::new(),
        xmp: Vec::new(),
        warnings: Vec::new(),
        width: None,
        height: None,
        duration_ms: None,
        created: None,
        gps: None,
        camera_make: None,
        camera_model: None,
        container: Vec::new(),
        text: Vec::new(),
        limits,
    };
    for i in 0..5u32 {
        col.handle(Event::ContainerTag(ContainerTag {
            source: ContainerSource::QuickTimeMdta,
            key: format!("k{i}"),
            value: Value::Text(String::from("v")),
        }));
    }
    assert_eq!(col.container.len(), 2);
}

fn make_tiff() -> Vec<u8> {
    let mut t: Vec<u8> = Vec::new();
    t.extend_from_slice(b"II");
    t.extend_from_slice(&42u16.to_le_bytes());
    t.extend_from_slice(&8u32.to_le_bytes());
    t.extend_from_slice(&2u16.to_le_bytes());
    t.extend_from_slice(&0x010Fu16.to_le_bytes());
    t.extend_from_slice(&2u16.to_le_bytes());
    t.extend_from_slice(&5u32.to_le_bytes());
    t.extend_from_slice(&38u32.to_le_bytes());
    t.extend_from_slice(&0x0112u16.to_le_bytes());
    t.extend_from_slice(&3u16.to_le_bytes());
    t.extend_from_slice(&1u32.to_le_bytes());
    t.extend_from_slice(&6u32.to_le_bytes());
    t.extend_from_slice(&0u32.to_le_bytes());
    t.extend_from_slice(b"Acme\0");
    t
}

#[test]
fn drives_jpeg_into_exif_collector() {
    let j = make_jpeg_with_exif();
    let mut parser = JpegParser::new();
    let col = drive_slice(&j, &mut parser, Limits::default());
    assert!(col.warnings.is_empty(), "warnings: {:?}", col.warnings);
    assert_eq!(col.exif.len(), 2);
}
