//! The engine that strips, and its options.
use omni_meta::strip::{drive_strip_slice, StripCmd, StripDemand, StripPlanner, StripResult};
use omni_meta::{FileFormat, RemovedKind, RemovedKinds, StripOptions, StripReport};

struct FakePlanner {
    step: u8,
}
impl StripPlanner for FakePlanner {
    type State = ();

    fn pull(&mut self, input: &[u8]) -> StripResult {
        self.step += 1;
        match self.step {
            1 => StripResult {
                demand: StripDemand::More,
                consumed: 5,
                cmds: vec![
                    StripCmd::Emit(2),
                    StripCmd::Drop {
                        len: 3,
                        kind: RemovedKind::Exif
                    },
                    StripCmd::Insert(vec![0xAA]),
                ],
            },
            2 => StripResult {
                demand: StripDemand::More,
                consumed: 2,
                cmds: vec![StripCmd::Replace {
                    consume: 2,
                    with: vec![0xBB]
                }],
            },
            _ => {
                let _ = input;
                StripResult {
                    demand: StripDemand::Done,
                    consumed: 0,
                    cmds: vec![],
                }
            }
        }
    }
}

#[test]
fn engine_applies_emit_drop_insert_replace() {
    let buf = [1u8, 2, 3, 4, 5, 6, 7];
    let mut p = FakePlanner { step: 0 };
    let (out, report) = drive_strip_slice(&buf, &mut p, FileFormat::Jpeg);

    assert_eq!(out, vec![1, 2, 0xAA, 0xBB]);
    assert_eq!(report.bytes_removed, 3);
    assert!(report.removed.contains(RemovedKind::Exif));
    assert_eq!(report.format, FileFormat::Jpeg);
}

#[test]
fn options_default_is_privacy_mode() {
    let o = StripOptions::default();
    assert!(o.keep_icc);
    assert!(o.keep_orientation);
}

#[test]
fn options_aggressive_strips_everything() {
    let o = StripOptions::aggressive();
    assert!(!o.keep_icc);
    assert!(!o.keep_orientation);
}

#[test]
fn removed_kinds_sets_and_queries_flags() {
    let mut r = RemovedKinds::default();
    assert!(!r.contains(RemovedKind::Exif));
    r.insert(RemovedKind::Exif);
    r.insert(RemovedKind::Xmp);
    assert!(r.contains(RemovedKind::Exif));
    assert!(r.contains(RemovedKind::Xmp));
    assert!(!r.contains(RemovedKind::Icc));
}

#[test]
fn report_constructs_with_defaults() {
    let rep = StripReport {
        format: FileFormat::Jpeg,
        bytes_removed: 0,
        removed: RemovedKinds::default(),
        warnings: Vec::new(),
    };
    assert_eq!(rep.bytes_removed, 0);
    assert_eq!(rep.format, FileFormat::Jpeg);
}
