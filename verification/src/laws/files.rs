//! Whole files, read end to end.
use vstd::prelude::*;

use crate::adapters::slice::metadata_of;
use crate::bytes::{lit, tail};
use crate::containers::isobmff::children;
use crate::demand::{Demand, EventView, Local};
use crate::driver::{finalized, handled, handled_all, nothing, pull_budget, CollectorView};
use crate::fixtures::bmff::box_of;
use crate::formats::bmff::{meta_events, moov_events, BmffMode};
use crate::formats::items::meta;
use crate::formats::movie::moov;
use crate::laws::agreement::{lemma_initials, lemma_slice, straight, unit_run};
use crate::laws::image_items::four_bytes;
use crate::laws::round_trips::boxes_read_back;
use crate::limits::Limits;
use crate::model::FieldView;
use crate::probe::{any_local, probed, start_mode, AnyMode};

verus! {

/// A box: how long it is, in four bytes, its type in four, and its payload.
pub open spec fn a_box(kind: Seq<u8>, payload: Seq<u8>) -> Seq<u8> {
    four_bytes(payload.len() as int + 8) + kind + payload
}

#[verifier::rlimit(60)]
pub proof fn lemma_a_box(kind: Seq<u8>, payload: Seq<u8>)
    requires
        kind.len() == 4,
        payload.len() + 8 <= u32::MAX,
    ensures
        a_box(kind, payload) == box_of(kind, payload),
        a_box(kind, payload).len() == payload.len() + 8,
{
    reveal(box_of);
    assert(a_box(kind, payload) =~= box_of(kind, payload));
}

/// What is read unit by unit is what reading gives.
pub proof fn lemma_read(f: Seq<u8>, l: Limits)
    requires
        f.len() <= isize::MAX,
        start_mode(probed(f), l) matches Some(m) && straight(f, m, 0),
    ensures
        metadata_of(f, l) == Some(
            finalized(unit_run(f, start_mode(probed(f), l).unwrap(), 0, nothing(l)), probed(f)),
        ),
{
    let m = start_mode(probed(f), l).unwrap();
    lemma_slice(f, m, 0, nothing(l), pull_budget(f.len() as int));
}

/// The events that tell a size.
pub open spec fn sized(w: u32, h: u32) -> Seq<EventView> {
    seq![EventView::Field(FieldView::Width(w)), EventView::Field(FieldView::Height(h))]
}

/// Events one after the other.
pub proof fn lemma_after(c: CollectorView, a: Seq<EventView>, b: Seq<EventView>)
    ensures
        handled_all(c, a + b) == handled_all(handled_all(c, a), b),
    decreases b.len(),
{
    if b.len() == 0 {
        assert(a + b =~= a);
    } else {
        assert((a + b).drop_last() =~= a + b.drop_last());
        lemma_after(c, a, b.drop_last());
    }
}

/// A size that is told first is the one that is found, whatever is told behind it.
pub proof fn lemma_sized(c: CollectorView, w: u32, h: u32, es: Seq<EventView>)
    requires
        c.structural.width is None,
        c.structural.height is None,
    ensures
        handled_all(c, sized(w, h) + es).structural.width == Some(w),
        handled_all(c, sized(w, h) + es).structural.height == Some(h),
{
    lemma_after(c, sized(w, h), es);
    let d = handled_all(c, sized(w, h));
    assert(d.structural.width == Some(w) && d.structural.height == Some(h)) by {
        reveal_with_fuel(handled_all, 3);
        assert(sized(w, h).drop_last() =~= seq![EventView::Field(FieldView::Width(w))]);
        assert(sized(w, h).drop_last().drop_last() =~= seq![]);
        reveal(handled);
    }
    lemma_size_stays(d, es);
}

/// A size that was found stays.
pub proof fn lemma_size_stays(c: CollectorView, es: Seq<EventView>)
    ensures
        c.structural.width is Some ==> handled_all(c, es).structural.width == c.structural.width,
        c.structural.height is Some ==> handled_all(c, es).structural.height == c.structural.height,
    decreases es.len(),
{
    if es.len() > 0 {
        lemma_size_stays(c, es.drop_last());
        reveal(handled);
    }
}

/// The first two boxes of a file, where the second is the one that is looked for.
pub open spec fn two_boxes(x: Seq<u8>, kind: Seq<u8>, p: Seq<u8>, more: Seq<u8>) -> Seq<u8> {
    a_box(lit("ftyp"), x) + a_box(kind, p) + more
}

pub proof fn lemma_box_words()
    ensures
        lit("ftyp").len() == 4,
        lit("meta").len() == 4,
        lit("moov").len() == 4,
        lit("ftyp") != lit("meta"),
        lit("ftyp") != lit("moov"),
        lit("meta") != lit("moov"),
        lit("ftyp")[0] == 0x66,
{
    reveal_strlit("ftyp");
    reveal_strlit("meta");
    reveal_strlit("moov");
    vstd::string::is_ascii_spec_bytes("ftyp");
    vstd::string::is_ascii_spec_bytes("meta");
    vstd::string::is_ascii_spec_bytes("moov");
    assert(lit("ftyp")[0] == 0x66);
    assert(lit("meta")[1] == 0x65);
    assert(lit("moov")[1] == 0x6F);
}

/// What the second box is read as.
#[verifier::opaque]
pub open spec fn second_events(kind: Seq<u8>, p: Seq<u8>, at: u64, max_tags: usize) -> Seq<EventView> {
    if kind == lit("moov") {
        moov_events(moov(children(p), at), max_tags)
    } else {
        meta_events(meta(p, at))
    }
}

proof fn lemma_first_box(f: Seq<u8>, x: Seq<u8>, rest: Seq<u8>, max_tags: usize)
    requires
        x.len() + 8 <= u32::MAX,
        f == a_box(lit("ftyp"), x) + rest,
    ensures
        any_local(AnyMode::Bmff(BmffMode::Walk { at: 0, max_tags }), f) == (Local::Stop {
            st: AnyMode::Bmff(BmffMode::Walk { at: (x.len() + 8) as u64, max_tags }),
            len: 8int,
            events: seq![],
            demand: Demand::Skip(x.len() as u64),
        }),
{
    lemma_box_words();
    lemma_a_box(lit("ftyp"), x);
    boxes_read_back(lit("ftyp"), x, rest);
    reveal(any_local);
}

proof fn lemma_second_box(
    b: Seq<u8>,
    kind: Seq<u8>,
    p: Seq<u8>,
    more: Seq<u8>,
    at: u64,
    max_tags: usize,
)
    requires
        kind == lit("moov") || (kind == lit("meta") && meta(p, at).targets.len() == 0),
        p.len() + 8 <= u32::MAX,
        b == a_box(kind, p) + more,
        b.len() <= usize::MAX,
    ensures
        any_local(AnyMode::Bmff(BmffMode::Walk { at, max_tags }), b) == (Local::Stop {
            st: AnyMode::Bmff(BmffMode::Done { max_tags }),
            len: p.len() as int + 8,
            events: second_events(kind, p, at, max_tags),
            demand: Demand::Done,
        }),
{
    lemma_box_words();
    lemma_a_box(kind, p);
    boxes_read_back(kind, p, more);
    assert(b.subrange(8, p.len() as int + 8) =~= p) by {
        reveal(box_of);
    }
    reveal(any_local);
    reveal(second_events);
}

/// A unit that is skipped, and one with which the reading ends.
proof fn lemma_skip_then_done(
    f: Seq<u8>,
    st: AnyMode,
    next: AnyMode,
    n: int,
    l: Limits,
    es: Seq<EventView>,
)
    requires
        8 <= n <= f.len(),
        n - 8 <= u64::MAX,
        any_local(st, tail(f, 0)) matches Local::Stop { st: a, len, events, demand } && a == next && len == 8
            && events.len() == 0 && demand == Demand::Skip((n - 8) as u64),
        any_local(next, tail(f, n)) matches Local::Stop { events, demand: Demand::Done, .. } && events
            == es,
    ensures
        straight(f, st, 0),
        unit_run(f, st, 0, nothing(l)) == handled_all(nothing(l), es),
{
    assert(straight(f, next, n));
    assert(unit_run(f, next, n, nothing(l)) == handled_all(nothing(l), es));
}

/// A file of two boxes is read: the second one tells all there is.
#[verifier::rlimit(60)]
pub proof fn lemma_two_boxes(x: Seq<u8>, kind: Seq<u8>, p: Seq<u8>, more: Seq<u8>, l: Limits)
    requires
        kind == lit("moov") || (kind == lit("meta") && meta(p, (x.len() + 8) as u64).targets.len()
            == 0),
        4 <= x.len() < 0x4000_0000,
        p.len() + 8 <= u32::MAX,
        two_boxes(x, kind, p, more).len() <= isize::MAX,
    ensures
        ({
            let f = two_boxes(x, kind, p, more);
            &&& probed(f) == crate::probe::brand(x.subrange(0, 4))
            &&& metadata_of(f, l) == Some(
                finalized(
                    handled_all(
                        nothing(l),
                        second_events(kind, p, (x.len() + 8) as u64, l.max_tags),
                    ),
                    probed(f),
                ),
            )
        }),
{
    let f = two_boxes(x, kind, p, more);
    let n = x.len() as int + 8;
    let rest = a_box(kind, p) + more;
    lemma_box_words();
    lemma_a_box(lit("ftyp"), x);
    lemma_a_box(kind, p);
    assert(f =~= a_box(lit("ftyp"), x) + rest);
    lemma_brand(f, x, rest);
    let st = AnyMode::Bmff(BmffMode::Walk { at: 0, max_tags: l.max_tags });
    let next = AnyMode::Bmff(BmffMode::Walk { at: n as u64, max_tags: l.max_tags });
    assert(start_mode(probed(f), l) == Some(st));
    assert(tail(f, 0) =~= f);
    assert(tail(f, n) =~= rest);
    lemma_first_box(f, x, rest, l.max_tags);
    lemma_second_box(rest, kind, p, more, n as u64, l.max_tags);
    let es = second_events(kind, p, n as u64, l.max_tags);
    lemma_skip_then_done(f, st, next, n, l, es);
    lemma_read(f, l);
}

pub proof fn lemma_brand(f: Seq<u8>, x: Seq<u8>, rest: Seq<u8>)
    requires
        4 <= x.len() < 0x4000_0000,
        f == a_box(lit("ftyp"), x) + rest,
    ensures
        probed(f) == crate::probe::brand(x.subrange(0, 4)),
        probed(f) == crate::model::FileFormat::Heif || probed(f) == crate::model::FileFormat::Avif
            || probed(f) == crate::model::FileFormat::Mov || probed(f)
            == crate::model::FileFormat::Mp4,
{
    lemma_box_words();
    let n = x.len() as int + 8;
    assert(f[4] == 0x66) by {
        assert(f[4] == lit("ftyp")[0]);
    }
    assert(f.subrange(4, 8) =~= lit("ftyp"));
    assert(f.subrange(8, 12) =~= x.subrange(0, 4));
    lemma_initials(f);
    let m = x.len() as int + 8;
    assert(f[0] == (m / 65536 / 256) as u8);
    assert(f[0] < 0x41);
}

} // verus!
