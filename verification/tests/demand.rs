//! The contract between parsers and drivers.
use omni_meta::demand::{Demand, Event, MetaParser, PayloadKind, PullResult};
use omni_meta::{WarnKind, Warning};

struct Dummy;
impl MetaParser for Dummy {
    type State = ();

    fn pull<'a>(&mut self, input: &'a [u8]) -> PullResult<'a> {
        let events = vec![Event::Payload {
            kind: PayloadKind::Exif,
            data: input,
        }];
        PullResult {
            demand: Demand::Done,
            consumed: input.len(),
            events,
        }
    }
}

#[test]
fn demand_parser_can_emit_payload_and_finish() {
    let buf = [1u8, 2, 3];
    let mut p = Dummy;
    let res = p.pull(&buf);
    assert_eq!(res.demand, Demand::Done);
    assert_eq!(res.consumed, 3);
    assert_eq!(res.events.len(), 1);
    match &res.events[0] {
        Event::Payload { kind, data } => {
            assert_eq!(*kind, PayloadKind::Exif);
            assert_eq!(*data, &buf[..]);
        }
        _ => panic!("expected payload"),
    }
}

#[test]
fn event_warning_variant_roundtrips() {
    let ev: Event<'static> = Event::Warning(Warning { offset: 42, kind: WarnKind::Truncated });
    match ev {
        Event::Warning(w) => {
            assert_eq!(w.offset, 42);
            assert_eq!(w.kind, WarnKind::Truncated);
        }
        _ => panic!("expected warning"),
    }
}

#[test]
fn parser_can_emit_payload_and_finish() {
    let buf = [1u8, 2, 3];
    let res = Dummy.pull(&buf);
    assert_eq!(res.demand, Demand::Done);
    assert_eq!(res.consumed, 3);
    assert_eq!(res.events.len(), 1);
    assert_eq!(res.events[0], Event::Payload { kind: PayloadKind::Exif, data: &buf[..] });
}
