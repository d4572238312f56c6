//! What is gathered from events: the first that tells a field counts, tags and texts count up
//! to the limit, and payloads are decoded in their order.
use vstd::prelude::*;

use crate::codecs::exif::decoded as exif_decoded;
use crate::codecs::xmp::decoded as xmp_decoded;
use crate::demand::{EventView, PayloadKind};
use crate::driver::{capped, finalized, handled, handled_all, nothing, CollectorView};
use crate::limits::Limits;
use crate::model::{
    ContainerTagView, ExifTagView, FieldView, FileFormat, Gps, IfdKind, TextTagView, ValueView,
    WarnKind, Warning,
};
use crate::normalize::{exif_gps, exif_value, orientation_warnings, unified, value_warnings};

verus! {

/// What an event tells of a field.
pub enum Kind {
    Width,
    Height,
    Duration,
    Created,
    Gps,
    Make,
    Model,
}

/// The event tells the field.
pub open spec fn tells(e: EventView, k: Kind) -> bool {
    match (e, k) {
        (EventView::Field(FieldView::Width(_)), Kind::Width) => true,
        (EventView::Field(FieldView::Height(_)), Kind::Height) => true,
        (EventView::Field(FieldView::Duration(_)), Kind::Duration) => true,
        (EventView::Field(FieldView::Created(_)), Kind::Created) => true,
        (EventView::Field(FieldView::Gps(_)), Kind::Gps) => true,
        (EventView::Field(FieldView::CameraMake(_)), Kind::Make) => true,
        (EventView::Field(FieldView::CameraModel(_)), Kind::Model) => true,
        _ => false,
    }
}

/// The field is open.
pub open spec fn open_field(c: CollectorView, k: Kind) -> bool {
    match k {
        Kind::Width => c.structural.width is None,
        Kind::Height => c.structural.height is None,
        Kind::Duration => c.structural.duration_ms is None,
        Kind::Created => c.structural.created is None,
        Kind::Gps => c.structural.gps is None,
        Kind::Make => c.structural.camera_make is None,
        Kind::Model => c.structural.camera_model is None,
    }
}

/// The field holds what the event tells.
pub open spec fn holds(c: CollectorView, e: EventView) -> bool {
    match e {
        EventView::Field(FieldView::Width(w)) => c.structural.width == Some(w),
        EventView::Field(FieldView::Height(h)) => c.structural.height == Some(h),
        EventView::Field(FieldView::Duration(d)) => c.structural.duration_ms == Some(d),
        EventView::Field(FieldView::Created(t)) => c.structural.created == Some(t),
        EventView::Field(FieldView::Gps(g)) => c.structural.gps == Some(g),
        EventView::Field(FieldView::CameraMake(m)) => c.structural.camera_make == Some(m),
        EventView::Field(FieldView::CameraModel(m)) => c.structural.camera_model == Some(m),
        _ => true,
    }
}

proof fn lemma_open(l: Limits, es: Seq<EventView>, k: Kind)
    requires
        forall|i: int| 0 <= i < es.len() ==> !tells(#[trigger] es[i], k),
    ensures
        open_field(handled_all(nothing(l), es), k),
    decreases es.len(),
{
    if es.len() > 0 {
        let m = es.drop_last();
        assert forall|i: int| 0 <= i < m.len() implies !tells(#[trigger] m[i], k) by {
            assert(m[i] == es[i]);
        }
        lemma_open(l, m, k);
        assert(!tells(es[es.len() - 1], k));
        reveal(handled);
    }
}

/// A field of which no event tells stays open.
pub proof fn what_is_not_told_stays_open(l: Limits, es: Seq<EventView>, k: Kind)
    requires
        forall|i: int| 0 <= i < es.len() ==> !tells(#[trigger] es[i], k),
    ensures
        open_field(handled_all(nothing(l), es), k),
{
    lemma_open(l, es, k);
}

/// The first event that tells of a field fills it.
pub proof fn the_first_one_counts(l: Limits, es: Seq<EventView>, k: Kind, i: int)
    requires
        0 <= i < es.len(),
        tells(es[i], k),
        forall|j: int| 0 <= j < i ==> !tells(#[trigger] es[j], k),
    ensures
        holds(handled_all(nothing(l), es), es[i]),
    decreases es.len(),
{
    let m = es.drop_last();
    reveal(handled);
    if i == es.len() - 1 {
        assert forall|j: int| 0 <= j < m.len() implies !tells(#[trigger] m[j], k) by {
            assert(m[j] == es[j]);
        }
        lemma_open(l, m, k);
    } else {
        assert(m[i] == es[i]);
        assert forall|j: int| 0 <= j < i implies !tells(#[trigger] m[j], k) by {
            assert(m[j] == es[j]);
        }
        the_first_one_counts(l, m, k, i);
    }
}

/// The tags of containers among the events.
pub open spec fn tags_among(es: Seq<EventView>) -> Seq<ContainerTagView>
    decreases es.len(),
{
    if es.len() == 0 {
        seq![]
    } else {
        match es.last() {
            EventView::ContainerTag(t) => tags_among(es.drop_last()).push(t),
            _ => tags_among(es.drop_last()),
        }
    }
}

/// The texts among the events.
pub open spec fn texts_among(es: Seq<EventView>) -> Seq<TextTagView>
    decreases es.len(),
{
    if es.len() == 0 {
        seq![]
    } else {
        match es.last() {
            EventView::Text(t) => texts_among(es.drop_last()).push(t),
            _ => texts_among(es.drop_last()),
        }
    }
}

/// The first `n` of them.
pub open spec fn at_most<T>(s: Seq<T>, n: usize) -> Seq<T> {
    if s.len() <= n {
        s
    } else {
        s.take(n as int)
    }
}

proof fn lemma_at_most<T>(s: Seq<T>, x: T, n: usize)
    ensures
        capped(at_most(s, n), x, n) == at_most(s.push(x), n),
{
    assert(capped(at_most(s, n), x, n) =~= at_most(s.push(x), n));
}

/// As many tags and texts are gathered as the limit lets through, the first ones, in their
/// order.
pub proof fn tags_are_gathered(l: Limits, es: Seq<EventView>)
    ensures
        handled_all(nothing(l), es).container == at_most(tags_among(es), l.max_tags),
        handled_all(nothing(l), es).text == at_most(texts_among(es), l.max_tags),
        handled_all(nothing(l), es).limits == l,
    decreases es.len(),
{
    if es.len() > 0 {
        let m = es.drop_last();
        tags_are_gathered(l, m);
        reveal(handled);
        match es.last() {
            EventView::ContainerTag(t) => lemma_at_most(tags_among(m), t, l.max_tags),
            EventView::Text(t) => lemma_at_most(texts_among(m), t, l.max_tags),
            _ => {},
        }
    }
}

/// The warnings among the events, where there are no payloads.
pub open spec fn warnings_among(es: Seq<EventView>) -> Seq<Warning>
    decreases es.len(),
{
    if es.len() == 0 {
        seq![]
    } else {
        match es.last() {
            EventView::Warning(w) => warnings_among(es.drop_last()).push(w),
            _ => warnings_among(es.drop_last()),
        }
    }
}

/// Without payloads there are no tags of EXIF, no properties of XMP, and the warnings are those
/// among the events.
pub proof fn without_payloads(l: Limits, es: Seq<EventView>)
    requires
        forall|i: int| 0 <= i < es.len() ==> !((#[trigger] es[i]) is Payload),
    ensures
        handled_all(nothing(l), es).exif.len() == 0,
        handled_all(nothing(l), es).xmp.len() == 0,
        handled_all(nothing(l), es).warnings == warnings_among(es),
    decreases es.len(),
{
    if es.len() > 0 {
        let m = es.drop_last();
        assert forall|i: int| 0 <= i < m.len() implies !((#[trigger] m[i]) is Payload) by {
            assert(m[i] == es[i]);
        }
        assert(!(es[es.len() - 1] is Payload));
        without_payloads(l, m);
        reveal(handled);
    }
}

/// A payload is decoded on top of what was decoded before it, EXIF data into tags, XMP into
/// properties; nothing else changes but the warnings.
pub proof fn payloads_are_decoded(c: CollectorView, es: Seq<EventView>, data: Seq<u8>)
    ensures
        ({
            let d = handled_all(c, es);
            let r = handled_all(
                c,
                es.push(EventView::Payload { kind: PayloadKind::Exif, data }),
            );
            r == (CollectorView {
                exif: exif_decoded(data, d.exif, d.warnings, d.limits).0,
                warnings: exif_decoded(data, d.exif, d.warnings, d.limits).1,
                ..d
            })
        }),
        ({
            let d = handled_all(c, es);
            let r = handled_all(c, es.push(EventView::Payload { kind: PayloadKind::Xmp, data }));
            r == (CollectorView {
                xmp: xmp_decoded(data, d.xmp, d.warnings, d.limits).0,
                warnings: xmp_decoded(data, d.xmp, d.warnings, d.limits).1,
                ..d
            })
        }),
{
    let a = es.push(EventView::Payload { kind: PayloadKind::Exif, data });
    let b = es.push(EventView::Payload { kind: PayloadKind::Xmp, data });
    assert(a.drop_last() =~= es && b.drop_last() =~= es);
    reveal(handled);
}

/// What was gathered stands in the metadata as it is, without properties of a sidecar; the
/// unified fields are those of it; and the warnings come first that were gathered.
pub proof fn metadata_is_what_was_gathered(c: CollectorView, format: FileFormat)
    ensures
        ({
            let m = finalized(c, format);
            &&& m.format == format
            &&& m.raw.exif == c.exif
            &&& m.raw.xmp == c.xmp
            &&& m.raw.xmp_sidecar.len() == 0
            &&& m.raw.container == c.container
            &&& m.raw.text == c.text
            &&& m.structural == c.structural
            &&& m.unified == unified(m.raw, c.structural)
            &&& m.warnings == c.warnings + value_warnings(m.raw)
        }),
{
}

/// The orientation of the `i`-th tag is a number that is not defined.
pub open spec fn undefined(ts: Seq<ExifTagView>, i: int) -> bool {
    ts[i].ifd == IfdKind::Primary && ts[i].tag == 0x0112 && (ts[i].value matches ValueView::U16(v)
        && !(1 <= v <= 8))
}

pub open spec fn how_many_undefined(ts: Seq<ExifTagView>) -> nat
    decreases ts.len(),
{
    if ts.len() == 0 {
        0
    } else {
        how_many_undefined(ts.drop_last()) + if undefined(ts, ts.len() - 1) {
            1nat
        } else {
            0nat
        }
    }
}

proof fn lemma_undefined(ts: Seq<ExifTagView>)
    ensures
        orientation_warnings(ts).len() == how_many_undefined(ts),
        forall|i: int|
            0 <= i < orientation_warnings(ts).len() ==> (#[trigger] orientation_warnings(ts)[i])
                == (Warning { offset: 0, kind: WarnKind::UnrecognizedValue }),
    decreases ts.len(),
{
    if ts.len() > 0 {
        lemma_undefined(ts.drop_last());
    }
}

/// There is a warning for each orientation that is not defined, and one more where EXIF has a
/// coordinate but no place.
pub proof fn values_are_warned_of(c: CollectorView, format: FileFormat)
    ensures
        ({
            let ws = finalized(c, format).warnings;
            let lost = exif_gps(c.exif) is None && (exif_value(c.exif, IfdKind::Gps, 2) is Some
                || exif_value(c.exif, IfdKind::Gps, 4) is Some);
            &&& ws.len() == c.warnings.len() + how_many_undefined(c.exif) + if lost {
                1nat
            } else {
                0nat
            }
            &&& forall|i: int|
                c.warnings.len() <= i < ws.len() ==> (#[trigger] ws[i]) == (Warning {
                    offset: 0,
                    kind: WarnKind::UnrecognizedValue,
                })
        }),
{
    lemma_undefined(c.exif);
}

} // verus!
