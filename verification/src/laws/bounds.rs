//! However large a source is, no more tags are kept than the limits allow.
use vstd::prelude::*;

use crate::adapters::push::{push_fed, push_finished, push_passed, push_start, started, PushView};
use crate::adapters::slice::metadata_of;
use crate::demand::{EventView, MetaParser, PayloadKind};
use crate::driver::{
    driven, followed, handled, handled_all, nothing, passed, prepared, pull_budget, rounds,
    slice_move, slice_run, stream_start, CollectorView, Outcome, SliceMove, StreamView,
};
use crate::laws::agreement::lemma_consumed;
use crate::limits::Limits;
use crate::model::MetadataView;
use crate::probe::{probed, start_mode, AnyMode, AnyParser, PROBE_MAX};

verus! {

/// No list of tags is longer than the limits allow.
pub open spec fn bounded(c: CollectorView, l: Limits) -> bool {
    &&& c.limits == l
    &&& c.exif.len() <= l.max_tags
    &&& c.xmp.len() <= l.max_tags
    &&& c.container.len() <= l.max_tags
    &&& c.text.len() <= l.max_tags
}

/// No list of raw tags is longer than the limits allow.
pub open spec fn raw_bounded(m: MetadataView, l: Limits) -> bool {
    &&& m.raw.exif.len() <= l.max_tags
    &&& m.raw.xmp.len() <= l.max_tags
    &&& m.raw.xmp_sidecar.len() == 0
    &&& m.raw.container.len() <= l.max_tags
    &&& m.raw.text.len() <= l.max_tags
}

proof fn lemma_handled(c: CollectorView, e: EventView, l: Limits)
    requires
        bounded(c, l),
    ensures
        bounded(handled(c, e), l),
{
    reveal(handled);
    match e {
        EventView::Payload { kind: PayloadKind::Exif, data } => {
            crate::codecs::exif::decoded_is_bounded(data, c.exif, c.warnings, c.limits);
        },
        EventView::Payload { kind: PayloadKind::Xmp, data } => {
            crate::codecs::xmp::decoded_is_bounded(data, c.xmp, c.warnings, c.limits);
        },
        _ => {},
    }
}

proof fn lemma_handled_all(c: CollectorView, es: Seq<EventView>, l: Limits)
    requires
        bounded(c, l),
    ensures
        bounded(handled_all(c, es), l),
    decreases es.len(),
{
    if es.len() > 0 {
        lemma_handled_all(c, es.drop_last(), l);
        lemma_handled(handled_all(c, es.drop_last()), es.last(), l);
    }
}

proof fn lemma_slice_run<P: MetaParser>(
    buf: Seq<u8>,
    st: P::State,
    pos: int,
    col: CollectorView,
    left: nat,
    l: Limits,
)
    requires
        bounded(col, l),
    ensures
        bounded(slice_run::<P>(buf, st, pos, col, left), l),
    decreases left,
{
    if left > 0 {
        let (next, r) = P::step(st, crate::bytes::tail(buf, pos));
        lemma_handled_all(col, r.events, l);
        let found = handled_all(col, r.events);
        match slice_move(buf.len() as int, pos, r, found) {
            SliceMove::End(_) => {},
            SliceMove::To(p) => {
                lemma_slice_run::<P>(buf, next, p, found, (left - 1) as nat, l);
            },
        }
    }
}

/// Of any parser, a driver over a whole buffer keeps no more tags than the limits allow.
pub proof fn any_drive_is_bounded<P: MetaParser>(buf: Seq<u8>, st: P::State, l: Limits)
    ensures
        bounded(
            slice_run::<P>(buf, st, 0, nothing(l), pull_budget(buf.len() as int)),
            l,
        ),
{
    lemma_slice_run::<P>(buf, st, 0, nothing(l), pull_budget(buf.len() as int), l);
}

/// Reading a buffer keeps no more tags of each sort than the limits allow.
pub proof fn reading_is_bounded(buf: Seq<u8>, l: Limits)
    ensures
        metadata_of(buf, l) matches Some(m) ==> raw_bounded(m, l),
{
    match start_mode(probed(buf), l) {
        Some(m) => {
            any_drive_is_bounded::<AnyParser>(buf, m, l);
        },
        None => {},
    }
}

proof fn lemma_rounds<P: MetaParser>(s: StreamView<P::State>, left: nat, l: Limits)
    requires
        bounded(s.col, l),
    ensures
        bounded(rounds::<P>(s, left).0.col, l),
    decreases left,
{
    if left > 0 {
        match prepared(s) {
            (t, Some(_)) => {},
            (t, None) => {
                let (next, r) = P::step(t.st, t.window());
                lemma_handled_all(t.col, r.events, l);
                match followed(t.pulled(next, r), r) {
                    (u, Some(_)) => {},
                    (u, None) => {
                        lemma_rounds::<P>(u, (left - 1) as nat, l);
                    },
                }
            },
        }
    }
}

proof fn lemma_driven(s: StreamView<AnyMode>, l: Limits)
    requires
        bounded(s.col, l),
    ensures
        bounded(driven::<AnyParser>(s).0.col, l),
{
    lemma_rounds::<AnyParser>(s, pull_budget(s.buf.len() as int), l);
}

/// The stream has kept no more tags than its limits allow.
pub open spec fn push_bounded(v: PushView) -> bool {
    v.driver matches Some(s) ==> bounded(s.col, v.limits)
}

/// A stream keeps no more tags than its limits allow: not at its start, and whatever
/// arrives or is passed over.
pub proof fn feeding_is_bounded(v: PushView, chunk: Seq<u8>, n: u64)
    requires
        push_bounded(v),
    ensures
        push_bounded(push_start(v.limits)),
        push_bounded(push_fed(v, chunk).0),
        push_bounded(push_passed(v, n)),
        push_finished(v) matches Some(m) ==> raw_bounded(m, v.limits),
{
    match v.driver {
        Some(s) => {
            lemma_driven(StreamView { buf: s.buf + chunk, ..s }, v.limits);
            lemma_driven(StreamView { eof: true, ..s }, v.limits);
        },
        None => {
            lemma_start_bounded(PushView { pre: v.pre + chunk, ..v });
            lemma_start_bounded(v);
            match started(v, probed(v.pre)).0.driver {
                Some(s) => {
                    lemma_driven(StreamView { eof: true, ..s }, v.limits);
                },
                None => {},
            }
        },
    }
}

proof fn lemma_start_bounded(v: PushView)
    requires
        v.driver is None,
    ensures
        push_bounded(started(v, probed(v.pre)).0),
{
    match start_mode(probed(v.pre), v.limits) {
        Some(m) => {
            let s = stream_start(m, v.limits);
            lemma_driven(StreamView { buf: s.buf + v.pre, ..s }, v.limits);
        },
        None => {},
    }
}

/// The bytes that a stream holds back.
pub open spec fn held(v: PushView) -> int {
    match v.driver {
        Some(s) => s.buf.len() - s.cursor,
        None => v.pre.len() as int,
    }
}

proof fn lemma_held(s: StreamView<AnyMode>, left: nat)
    requires
        0 <= s.cursor <= s.buf.len(),
    ensures
        ({
            let (t, o) = rounds::<AnyParser>(s, left);
            &&& 0 <= t.cursor <= t.buf.len()
            &&& t.max_retained == s.max_retained
            &&& o != Outcome::Done ==> t.buf.len() - t.cursor <= t.max_retained
        }),
    decreases left,
{
    if left > 0 {
        match prepared(s) {
            (t, Some(_)) => {},
            (t, None) => {
                let (next, r) = AnyParser::step(t.st, t.window());
                lemma_consumed(t.st, t.window(), 0, seq![]);
                match followed(t.pulled(next, r), r) {
                    (u, Some(_)) => {},
                    (u, None) => {
                        lemma_held(u, (left - 1) as nat);
                    },
                }
            },
        }
    }
}

/// The stream has its place among the bytes that it holds back.
pub open spec fn push_placed(v: PushView) -> bool {
    v.driver matches Some(s) ==> 0 <= s.cursor <= s.buf.len() && s.max_retained
        == v.limits.max_retained_bytes
}

/// However much arrives, a stream that wants more holds back no more than its limits allow,
/// or than telling the format takes.
pub proof fn little_is_held_back(v: PushView, chunk: Seq<u8>, n: u64)
    requires
        push_placed(v),
    ensures
        push_placed(push_start(v.limits)),
        push_placed(push_passed(v, n)),
        push_placed(push_fed(v, chunk).0),
        push_fed(v, chunk).1 matches Ok(o) && o != Outcome::Done ==> held(push_fed(v, chunk).0)
            <= v.limits.max_retained_bytes || held(push_fed(v, chunk).0) < PROBE_MAX,
{
    match v.driver {
        Some(s) => {
            let t = StreamView { buf: s.buf + chunk, ..s };
            lemma_held(t, pull_budget(t.buf.len() as int));
        },
        None => {
            match start_mode(probed(v.pre + chunk), v.limits) {
                Some(m) => {
                    let s = stream_start(m, v.limits);
                    let t = StreamView { buf: s.buf + (v.pre + chunk), ..s };
                    lemma_held(t, pull_budget(t.buf.len() as int));
                },
                None => {},
            }
        },
    }
}

} // verus!
