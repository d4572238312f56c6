//! Reading a stream gives what reading the whole file gives, however the stream is cut.
use vstd::prelude::*;

use crate::adapters::push::{push_fed, push_finished, push_passed, push_start, PushView};
use crate::adapters::slice::metadata_of;
use crate::bytes::{sat64, tail};
use crate::containers::ebml::{element_header, element_len, elements, first_element, vint_len};
use crate::demand::{walk, Demand, Local, MetaParser, PullView};
use crate::driver::{
    driven, fed, followed, handled_all, nothing, passed, prepared, pull_budget, rounds, slice_move,
    slice_run, stream_start, warned, CollectorView, Outcome, SliceMove, StreamView,
};
use crate::laws::stability::{
    ends_on_empty, lemma_element_header_extends, more_bytes_change_nothing, waits,
};
use crate::formats::gif::gif_signature;
use crate::formats::webp::riff_webp;
use crate::limits::Limits;
use crate::model::{FileFormat, WarnKind};
use crate::probe::{
    any_local, doctype, ebml_kind, ebml_magic, probed, start_mode, AnyMode, AnyParser, PROBE_MAX,
};

verus! {

/// How much there is from `pos` on; nothing only behind the end.
pub open spec fn room(f: Seq<u8>, pos: int) -> nat {
    if pos > f.len() {
        0
    } else {
        (f.len() - pos + 1) as nat
    }
}

/// What a file holds, read unit by unit from `pos` on. This is what all drivers come to.
pub open spec fn unit_run(f: Seq<u8>, st: AnyMode, pos: int, col: CollectorView) -> CollectorView
    decreases room(f, pos),
{
    if pos > f.len() {
        warned(col, sat64(pos), WarnKind::Truncated)
    } else {
        match any_local(st, tail(f, pos)) {
            Local::Next { st: next, len, events } => if 0 < len {
                unit_run(f, next, pos + len, handled_all(col, events))
            } else {
                handled_all(col, events)
            },
            Local::Stop { st: next, len, events, demand } => {
                let c = handled_all(col, events);
                match demand {
                    Demand::Done => c,
                    Demand::NeedBytes(_) => warned(c, sat64(pos + len), WarnKind::Truncated),
                    Demand::Skip(n) => if pos + len + n > pos {
                        unit_run(f, next, pos + len + n, c)
                    } else {
                        warned(c, sat64(pos), WarnKind::Truncated)
                    },
                    Demand::SeekTo(p) => if p > pos {
                        unit_run(f, next, p as int, c)
                    } else {
                        warned(c, p, WarnKind::Truncated)
                    },
                }
            },
        }
    }
}

/// From `pos` on, every jump leads ahead of the window that it is asked from. A jump back to a window's start counts as none where
/// nothing was read.
pub open spec fn straight(f: Seq<u8>, st: AnyMode, pos: int) -> bool
    decreases room(f, pos),
{
    pos > f.len() || match any_local(st, tail(f, pos)) {
        Local::Next { st: next, len, .. } => 0 < len ==> straight(f, next, pos + len),
        Local::Stop { st: next, len, demand, .. } => match demand {
            Demand::Skip(n) => pos + len + n > pos ==> straight(f, next, pos + len + n),
            Demand::SeekTo(p) => if p > pos {
                straight(f, next, p as int)
            } else {
                p == pos && len == 0
            },
            _ => true,
        },
    }
}

/// How far units and skips reach.
#[verifier::rlimit(40)]
proof fn lemma_unit(st: AnyMode, b: Seq<u8>)
    ensures
        match any_local(st, b) {
            Local::Next { st: next, len, .. } => {
                &&& 0 < len <= b.len()
                &&& !ends_on_empty(st)
                &&& !ends_on_empty(next)
            },
            Local::Stop { len, demand, .. } => {
                &&& 0 <= len <= b.len()
                &&& demand is Skip ==> len > 0
                &&& demand is SeekTo ==> st is Bmff
            },
        },
{
    reveal(any_local);
    match st {
        AnyMode::Jpeg(m) => {
            if b.len() > 0 {
                crate::formats::jpeg::lemma_fill_end(b, 1);
            }
        },
        AnyMode::Png(m) => {},
        AnyMode::Webp(m) => {},
        AnyMode::Gif(m) => {
            crate::bytes::lemma_find_from(b, 0, 0);
        },
        AnyMode::Bmff(m) => {},
        AnyMode::Ebml(m) => {
            if crate::formats::ebml::header_need(b) is Some && element_header(b) is Some {
                lemma_element_header_extends(b, seq![]);
            }
        },
    }
}

/// What the rest of a file comes to once a pull has ended.
pub open spec fn after_pull(
    f: Seq<u8>,
    start: int,
    st: AnyMode,
    r: PullView,
    c: CollectorView,
) -> CollectorView {
    match r.demand {
        Demand::Done => c,
        Demand::NeedBytes(_) => unit_run(f, st, start + r.consumed, c),
        Demand::Skip(n) => unit_run(f, st, start + r.consumed + n, c),
        Demand::SeekTo(p) => if p > start {
            unit_run(f, st, p as int, c)
        } else {
            warned(c, p, WarnKind::Truncated)
        },
    }
}

/// The rest of the file is straight once a pull has ended.
pub open spec fn straight_after(f: Seq<u8>, start: int, st: AnyMode, r: PullView) -> bool {
    match r.demand {
        Demand::Done => true,
        Demand::NeedBytes(_) => straight(f, st, start + r.consumed),
        Demand::Skip(n) => straight(f, st, start + r.consumed + n),
        Demand::SeekTo(p) => if p > start {
            straight(f, st, p as int)
        } else {
            p == start && r.consumed == 0
        },
    }
}

proof fn lemma_handled_split(c: CollectorView, a: Seq<crate::demand::EventView>, b: Seq<crate::demand::EventView>)
    ensures
        handled_all(c, a + b) == handled_all(handled_all(c, a), b),
    decreases b.len(),
{
    if b.len() == 0 {
        assert(a + b =~= a);
    } else {
        assert((a + b).drop_last() =~= a + b.drop_last());
        lemma_handled_split(c, a, b.drop_last());
    }
}

/// A pull on the window `f[start..start + k]`, taken up at `off`, is part of the run over
/// the whole file.
proof fn lemma_pull(
    f: Seq<u8>,
    start: int,
    k: int,
    st: AnyMode,
    off: int,
    events: Seq<crate::demand::EventView>,
    col: CollectorView,
)
    requires
        f.len() <= isize::MAX,
        0 <= start,
        0 <= off <= k,
        start + k <= f.len(),
        straight(f, st, start + off),
        ends_on_empty(st) ==> off == 0 && (k > 0 || start + k == f.len()),
    ensures
        ({
            let w = f.subrange(start, start + k);
            let (next, r) = walk::<AnyParser>(st, w, off, events);
            let c = handled_all(col, r.events);
            &&& off <= r.consumed <= k
            &&& unit_run(f, st, start + off, handled_all(col, events)) == after_pull(
                f,
                start,
                next,
                r,
                c,
            )
            &&& straight_after(f, start, next, r)
            &&& r.demand matches Demand::NeedBytes(n) ==> {
                &&& n > k - r.consumed
                &&& start + k == f.len() ==> after_pull(f, start, next, r, c) == warned(
                    c,
                    sat64(start + r.consumed),
                    WarnKind::Truncated,
                )
                &&& ends_on_empty(next) ==> r.consumed == 0 && next == st
            }
            &&& r.demand is Skip ==> r.consumed > 0
        }),
    decreases k - off,
{
    let w = f.subrange(start, start + k);
    let b = tail(w, off);
    let more = tail(f, start + k);
    let all = tail(f, start + off);
    assert(all =~= b + more);
    let l = any_local(st, b);
    let (next, r) = walk::<AnyParser>(st, w, off, events);
    more_bytes_change_nothing(st, b, more);
    if b.len() == 0 && ends_on_empty(st) {
        assert(more =~= seq![]);
        assert(all =~= b);
    }
    lemma_unit(st, b);
    lemma_unit(st, all);
    match l {
        Local::Next { st: n1, len, events: found } => {
            assert(any_local(st, all) == l);
            lemma_handled_split(col, events, found);
            lemma_pull(f, start, k, n1, off + len, events + found, col);
        },
        Local::Stop { st: n1, len, events: found, demand } => {
            lemma_handled_split(col, events, found);
            if waits(l) {
                assert(found =~= seq![]);
                assert(events + found =~= events);
                if start + k == f.len() {
                    assert(more =~= seq![]);
                    assert(all =~= b);
                }
            } else {
                assert(any_local(st, all) == l);
            }
        },
    }
}

/// The driver over a whole buffer reads unit by unit.
pub proof fn lemma_slice(f: Seq<u8>, st: AnyMode, pos: int, col: CollectorView, left: nat)
    requires
        f.len() <= isize::MAX,
        0 <= pos <= f.len(),
        straight(f, st, pos),
        left > f.len() - pos,
    ensures
        slice_run::<AnyParser>(f, st, pos, col, left) == unit_run(f, st, pos, col),
    decreases left,
{
    let k = f.len() - pos;
    lemma_pull(f, pos, k, st, 0, seq![], col);
    assert(f.subrange(pos, pos + k) =~= tail(f, pos));
    let (next, r) = walk::<AnyParser>(st, tail(f, pos), 0, seq![]);
    let c = handled_all(col, r.events);
    assert(AnyParser::step(st, tail(f, pos)) == (next, r));
    match slice_move(f.len() as int, pos, r, c) {
        SliceMove::To(p) => {
            lemma_slice(f, next, p, c, (left - 1) as nat);
        },
        SliceMove::End(_) => {},
    }
}

/// In the next round the driver holds back no more than it may.
pub open spec fn round_fits(s: StreamView<AnyMode>) -> bool {
    let t = if s.skip > 0 {
        s.skipped()
    } else {
        s
    };
    t.skip > 0 || t.buf.len() - t.cursor <= t.max_retained
}

/// In the next `left` rounds the driver holds back no more than it may.
pub open spec fn rounds_fit(s: StreamView<AnyMode>, left: nat) -> bool
    decreases left,
{
    left == 0 || {
        &&& round_fits(s)
        &&& match prepared(s) {
            (t, None) => {
                let (next, r) = AnyParser::step(t.st, t.window());
                match followed(t.pulled(next, r), r) {
                    (u, None) => rounds_fit(u, (left - 1) as nat),
                    _ => true,
                }
            },
            _ => true,
        }
    }
}

/// Going on, the driver holds back no more than it may.
pub open spec fn fits(s: StreamView<AnyMode>) -> bool {
    s.done || rounds_fit(s, pull_budget(s.buf.len() as int))
}

/// Where the parser will be shown bytes next.
pub open spec fn aim(s: StreamView<AnyMode>) -> int {
    s.base + s.cursor + s.skip
}

/// The driver has seen the first `n` bytes of `f`, and will have found `goal` in the end.
spec fn on_track(s: StreamView<AnyMode>, f: Seq<u8>, n: int, goal: CollectorView) -> bool {
    if s.done {
        s.col == goal
    } else {
        &&& s.base + s.buf.len() == n
        &&& 0 <= s.cursor <= s.buf.len()
        &&& s.buf == f.subrange(s.base as int, n)
        &&& unit_run(f, s.st, aim(s), s.col) == goal
        &&& straight(f, s.st, aim(s))
    }
}

/// How many rounds are enough.
spec fn enough(n: int, target: int) -> int {
    if target <= n {
        n - target + 2
    } else {
        1
    }
}

proof fn lemma_prepared(s: StreamView<AnyMode>, f: Seq<u8>, n: int, goal: CollectorView)
    requires
        f.len() <= isize::MAX,
        0 <= n <= f.len(),
        !s.done,
        on_track(s, f, n, goal),
        s.eof ==> n == f.len(),
        round_fits(s),
    ensures
        ({
            let (t, o) = prepared(s);
            &&& on_track(t, f, n, goal)
            &&& t.eof == s.eof
            &&& o is Some && s.eof ==> t.done
            &&& o is None ==> {
                &&& !t.done
                &&& t.skip == 0
                &&& aim(t) == aim(s) <= n
                &&& aim(t) < n || s.eof
                &&& t.window() == f.subrange(aim(s), n)
            }
        }),
{
    let target = aim(s);
    if s.skip > 0 {
        let u = s.skipped();
        if target > n {
            assert(u.buf =~= f.subrange(n, n));
        } else {
            assert(u.buf =~= f.subrange(target, n));
        }
    }
    let (t, o) = prepared(s);
    if o is None {
        assert(t.window() =~= f.subrange(target, n));
    }
}

proof fn lemma_followed(t: StreamView<AnyMode>, f: Seq<u8>, n: int, goal: CollectorView)
    requires
        f.len() <= isize::MAX,
        0 <= n <= f.len(),
        !t.done,
        on_track(t, f, n, goal),
        t.eof ==> n == f.len(),
        t.skip == 0,
        aim(t) <= n,
        aim(t) < n || t.eof,
        t.window() == f.subrange(aim(t), n),
    ensures
        ({
            let (next, r) = AnyParser::step(t.st, t.window());
            let (u, o) = followed(t.pulled(next, r), r);
            &&& on_track(u, f, n, goal)
            &&& u.eof == t.eof
            &&& o is Some && t.eof ==> u.done
            &&& o is None ==> !u.done && aim(u) > aim(t)
        }),
{
    let target = aim(t);
    let w = t.window();
    let (next, r) = AnyParser::step(t.st, w);
    lemma_pull(f, target, n - target, t.st, 0, seq![], t.col);
    assert(handled_all(t.col, seq![]) == t.col);
    let p = t.pulled(next, r);
    let d = p.dropped();
    assert(d.buf =~= f.subrange(target + r.consumed, n));
    assert(d.base == target + r.consumed);
    let (u, o) = followed(p, r);
    match r.demand {
        Demand::Done => {},
        Demand::NeedBytes(k) => {
            assert(d.buf.len() == n - target - r.consumed);
        },
        Demand::Skip(k) => {
            assert(aim(u) == target + r.consumed + k);
        },
        Demand::SeekTo(q) => {
            assert(p.at() == target + r.consumed);
        },
    }
}

proof fn lemma_rounds(s: StreamView<AnyMode>, f: Seq<u8>, n: int, goal: CollectorView, left: nat)
    requires
        f.len() <= isize::MAX,
        0 <= n <= f.len(),
        !s.done,
        on_track(s, f, n, goal),
        s.eof ==> n == f.len(),
        left >= enough(n, aim(s)),
        rounds_fit(s, left),
    ensures
        ({
            let (t, o) = rounds::<AnyParser>(s, left);
            &&& on_track(t, f, n, goal)
            &&& t.eof == s.eof
            &&& s.eof ==> t.done
        }),
    decreases left,
{
    lemma_prepared(s, f, n, goal);
    let (t, o) = prepared(s);
    if o is None {
        lemma_followed(t, f, n, goal);
        let (next, r) = AnyParser::step(t.st, t.window());
        let (u, v) = followed(t.pulled(next, r), r);
        if v is None {
            lemma_rounds(u, f, n, goal, (left - 1) as nat);
        }
    }
}

/// An element that is found stays found when more bytes arrive.
proof fn lemma_first_element_extends(a: Seq<u8>, more: Seq<u8>, id: u32)
    requires
        first_element(elements(a), id) is Some,
    ensures
        first_element(elements(a + more), id) == first_element(elements(a), id),
    decreases a.len(),
{
    let c = a + more;
    match element_len(a) {
        Some(n) => {
            lemma_element_header_extends(a, more);
            let h = element_header(a).unwrap();
            assert(element_len(c) == Some(n));
            assert(c.subrange(h.header_len as int, n) =~= a.subrange(h.header_len as int, n));
            assert(tail(c, n) =~= tail(a, n) + more);
            assert(elements(a).drop_first() =~= elements(tail(a, n)));
            assert(elements(c).drop_first() =~= elements(tail(c, n)));
            assert(elements(a)[0] == elements(c)[0]);
            if elements(a)[0].header.id != id {
                lemma_first_element_extends(tail(a, n), more, id);
            }
        },
        None => {},
    }
}

/// Two bytes are too few for an element with a two-byte identifier.
proof fn lemma_too_short(b: Seq<u8>)
    requires
        b.len() <= 2,
    ensures
        first_element(elements(b), 0x4282) is None,
    decreases b.len(),
{
    reveal_with_fuel(crate::containers::ebml::number, 3);
    match element_len(b) {
        Some(n) => {
            lemma_element_header_extends(b, seq![]);
            assert(b + seq![] =~= b);
            let h = element_header(b).unwrap();
            assert(vint_len(b[0]) == 1);
            assert(b.subrange(0, 1).drop_last() =~= seq![]);
            assert(h.id == b[0] as u32);
            assert(elements(b).drop_first() =~= elements(tail(b, n)));
            lemma_too_short(tail(b, n));
        },
        None => {},
    }
}

/// A `ftyp` box that is not all there is not taken for an EBML header.
proof fn lemma_ftyp_is_no_doctype(p: Seq<u8>)
    requires
        p.len() < 12,
        ebml_magic(p),
        p.len() > 4 ==> p[4] == 0x66,
        p.len() > 5 ==> p[5] == 0x74,
        p.len() > 6 ==> p[6] == 0x79,
        p.len() > 7 ==> p[7] == 0x70,
    ensures
        doctype(p) is None,
{
    reveal_with_fuel(crate::containers::ebml::number, 3);
    if element_header(p) is Some {
        lemma_element_header_extends(p, seq![]);
        let h = element_header(p).unwrap();
        assert(vint_len(p[0]) == 4);
        assert(tail(p, 4)[0] == p[4]);
        assert(h.header_len == 6);
        let b = tail(p, 6);
        match element_len(b) {
            Some(n) => {
                lemma_element_header_extends(b, seq![]);
                let g = element_header(b).unwrap();
                assert(b[0] == 0x79);
                assert(b.len() >= 2);
                let first = b.subrange(0, 2);
                assert(first.drop_last() =~= seq![0x79u8]);
                assert(first.drop_last().drop_last() =~= seq![]);
                assert(first.last() == 0x70);
                assert(g.id == 0x7970);
                assert(elements(b).drop_first() =~= elements(tail(b, n)));
                lemma_too_short(tail(b, n));
            },
            None => {},
        }
    }
}

proof fn lemma_ftyp_bytes()
    ensures
        lit_ftyp() == seq![0x66u8, 0x74, 0x79, 0x70],
{
    reveal_strlit("ftyp");
    vstd::string::is_ascii_spec_bytes("ftyp");
    assert(lit_ftyp() =~= seq![0x66u8, 0x74, 0x79, 0x70]);
}

spec fn lit_ftyp() -> Seq<u8> {
    crate::bytes::lit("ftyp")
}

proof fn lemma_ebml_prefix(p: Seq<u8>, more: Seq<u8>)
    requires
        doctype(p) is Some || p.len() >= PROBE_MAX,
    ensures
        ebml_kind(p + more) == ebml_kind(p),
{
    let c = p + more;
    let a = if p.len() < PROBE_MAX {
        p
    } else {
        p.subrange(0, PROBE_MAX as int)
    };
    let b = if c.len() < PROBE_MAX {
        c
    } else {
        c.subrange(0, PROBE_MAX as int)
    };
    if p.len() >= PROBE_MAX {
        assert(a =~= b);
    } else {
        let rest = tail(b, a.len() as int);
        assert(b =~= a + rest);
        lemma_element_header_extends(a, rest);
        let h = element_header(a).unwrap();
        assert(tail(b, h.header_len as int) =~= tail(a, h.header_len as int) + rest);
        lemma_first_element_extends(tail(a, h.header_len as int), rest, 0x4282);
    }
}

/// The first bytes of the signatures that are words.
pub proof fn lemma_initials(b: Seq<u8>)
    ensures
        riff_webp(b) ==> b[0] == 0x52,
        gif_signature(b) ==> b[0] == 0x47,
{
    reveal_strlit("RIFF");
    reveal_strlit("GIF87a");
    reveal_strlit("GIF89a");
    vstd::string::is_ascii_spec_bytes("RIFF");
    vstd::string::is_ascii_spec_bytes("GIF87a");
    vstd::string::is_ascii_spec_bytes("GIF89a");
    assert(crate::bytes::lit("RIFF")[0] == 0x52);
    assert(crate::bytes::lit("GIF87a")[0] == 0x47);
    assert(crate::bytes::lit("GIF89a")[0] == 0x47);
    if riff_webp(b) {
        assert(b.subrange(0, 4)[0] == b[0]);
    }
    if gif_signature(b) {
        assert(b.subrange(0, 6)[0] == b[0]);
    }
}

/// A format that is told from the first bytes of a file stays the same when more bytes
/// arrive, and a file that is not known by then never will be.
pub proof fn probing_a_prefix_is_final(p: Seq<u8>, more: Seq<u8>)
    requires
        probed(p) != FileFormat::Unknown || p.len() >= PROBE_MAX,
    ensures
        probed(p + more) == probed(p),
{
    let c = p + more;
    lemma_initials(p);
    lemma_initials(c);
    if p.len() >= 6 {
        assert(c.subrange(0, 6) =~= p.subrange(0, 6));
    }
    if p.len() >= 12 {
        assert(c.subrange(0, 4) =~= p.subrange(0, 4));
        assert(c.subrange(4, 8) =~= p.subrange(4, 8));
        assert(c.subrange(8, 12) =~= p.subrange(8, 12));
        assert(riff_webp(c) == riff_webp(p));
        if ebml_magic(p) && probed(p) == ebml_kind(p) {
            lemma_ebml_prefix(p, more);
        }
    } else {
        assert(!riff_webp(p));
        if ebml_magic(p) && probed(p) != FileFormat::Unknown {
            assert(probed(p) == ebml_kind(p));
            lemma_ebml_prefix(p, more);
            if c.len() >= 12 && c.subrange(4, 8) == lit_ftyp() {
                lemma_ftyp_bytes();
                let q = c.subrange(4, 8);
                assert(q[0] == c[4] && q[1] == c[5] && q[2] == c[6] && q[3] == c[7]);
                lemma_ftyp_is_no_doctype(p);
            }
        }
    }
}

/// The pieces put together.
pub open spec fn joined(chunks: Seq<Seq<u8>>) -> Seq<u8>
    decreases chunks.len(),
{
    if chunks.len() == 0 {
        seq![]
    } else {
        joined(chunks.drop_last()) + chunks.last()
    }
}

/// The stream after all of the pieces have arrived.
pub open spec fn push_all(limits: Limits, chunks: Seq<Seq<u8>>) -> PushView
    decreases chunks.len(),
{
    if chunks.len() == 0 {
        push_start(limits)
    } else {
        push_fed(push_all(limits, chunks.drop_last()), chunks.last()).0
    }
}

/// Taking in `chunk`, the driver holds back no more than it may.
pub open spec fn feed_fits(v: PushView, chunk: Seq<u8>) -> bool {
    v.failed || match v.driver {
        Some(s) => fits(StreamView { buf: s.buf + chunk, ..s }),
        None => match start_mode(probed(v.pre + chunk), v.limits) {
            Some(m) => fits(StreamView { buf: v.pre + chunk, ..stream_start(m, v.limits) }),
            None => true,
        },
    }
}

/// At the end of the stream the driver holds back no more than it may.
pub open spec fn end_fits(v: PushView) -> bool {
    match v.driver {
        Some(s) => fits(StreamView { eof: true, ..s }),
        None => true,
    }
}

/// Taking in the pieces one after the other, the driver never holds back more than it may.
pub open spec fn stream_fits(limits: Limits, chunks: Seq<Seq<u8>>) -> bool
    decreases chunks.len(),
{
    &&& end_fits(push_all(limits, chunks))
    &&& chunks.len() > 0 ==> {
        &&& stream_fits(limits, chunks.drop_last())
        &&& feed_fits(push_all(limits, chunks.drop_last()), chunks.last())
    }
}

/// The file `f` can be read straight through.
pub open spec fn straight_file(f: Seq<u8>, limits: Limits) -> bool {
    match start_mode(probed(f), limits) {
        Some(m) => straight(f, m, 0),
        None => true,
    }
}

/// What will have been found in `f`.
spec fn goal_of(f: Seq<u8>, limits: Limits) -> CollectorView {
    unit_run(f, start_mode(probed(f), limits).unwrap(), 0, nothing(limits))
}

/// The stream has seen the first `n` bytes of `f` and will come to what `f` holds.
spec fn push_on_track(v: PushView, f: Seq<u8>, n: int, limits: Limits) -> bool {
    &&& v.limits == limits
    &&& v.failed ==> probed(f) == FileFormat::Unknown
    &&& !v.failed ==> match v.driver {
        Some(s) => {
            &&& v.format == probed(f)
            &&& start_mode(probed(f), limits) is Some
            &&& !s.eof
            &&& on_track(s, f, n, goal_of(f, limits))
        },
        None => {
            &&& v.pre == f.subrange(0, n)
            &&& n < PROBE_MAX
            &&& probed(v.pre) == FileFormat::Unknown
        },
    }
}

/// The driver goes on with the first `n` bytes of `f`.
proof fn lemma_driven(s: StreamView<AnyMode>, f: Seq<u8>, n: int, goal: CollectorView)
    requires
        f.len() <= isize::MAX,
        0 <= n <= f.len(),
        on_track(s, f, n, goal),
        s.eof ==> n == f.len(),
        fits(s),
    ensures
        ({
            let (t, o) = driven::<AnyParser>(s);
            &&& on_track(t, f, n, goal)
            &&& t.eof == s.eof
            &&& s.eof ==> t.done
        }),
{
    if !s.done {
        assert(aim(s) >= s.base);
        assert(pull_budget(s.buf.len() as int) >= enough(n, aim(s)));
        lemma_rounds(s, f, n, goal, pull_budget(s.buf.len() as int));
    }
}

proof fn lemma_known_formats(fmt: FileFormat, limits: Limits)
    ensures
        start_mode(fmt, limits) is Some <==> fmt != FileFormat::Unknown,
{
}

/// The driver that is given the first `n` bytes of `f` at once.
proof fn lemma_started(f: Seq<u8>, n: int, limits: Limits)
    requires
        f.len() <= isize::MAX,
        0 <= n <= f.len(),
        straight_file(f, limits),
        probed(f.subrange(0, n)) == probed(f),
        start_mode(probed(f), limits) is Some,
        fits(
            StreamView {
                buf: f.subrange(0, n),
                ..stream_start(start_mode(probed(f), limits).unwrap(), limits)
            },
        ),
    ensures
        ({
            let m = start_mode(probed(f), limits).unwrap();
            let (t, o) = fed::<AnyParser>(stream_start(m, limits), f.subrange(0, n));
            &&& on_track(t, f, n, goal_of(f, limits))
            &&& !t.eof
        }),
{
    let m = start_mode(probed(f), limits).unwrap();
    let s = stream_start(m, limits);
    assert(s.buf + f.subrange(0, n) =~= f.subrange(0, n));
    lemma_driven(StreamView { buf: f.subrange(0, n), ..s }, f, n, goal_of(f, limits));
}

/// Where the format is known, the driver goes on.
#[verifier::spinoff_prover]
#[verifier::rlimit(50)]
proof fn lemma_push_on(v: PushView, chunk: Seq<u8>, f: Seq<u8>, n: int, limits: Limits)
    requires
        f.len() <= isize::MAX,
        0 <= n,
        n + chunk.len() <= f.len(),
        chunk == f.subrange(n, n + chunk.len()),
        straight_file(f, limits),
        push_on_track(v, f, n, limits),
        feed_fits(v, chunk),
        !v.failed,
        v.driver is Some,
    ensures
        push_on_track(push_fed(v, chunk).0, f, n + chunk.len(), limits),
{
    let k = n + chunk.len();
    let s = v.driver.unwrap();
    let t = StreamView { buf: s.buf + chunk, ..s };
    if !s.done {
        assert(t.buf =~= f.subrange(s.base as int, k));
    }
    lemma_driven(t, f, k, goal_of(f, limits));
}

/// Where the format is not known yet, it is looked for.
#[verifier::spinoff_prover]
#[verifier::rlimit(50)]
proof fn lemma_push_probe(v: PushView, chunk: Seq<u8>, f: Seq<u8>, n: int, limits: Limits)
    requires
        f.len() <= isize::MAX,
        0 <= n,
        n + chunk.len() <= f.len(),
        chunk == f.subrange(n, n + chunk.len()),
        straight_file(f, limits),
        push_on_track(v, f, n, limits),
        feed_fits(v, chunk),
        !v.failed,
        v.driver is None,
    ensures
        push_on_track(push_fed(v, chunk).0, f, n + chunk.len(), limits),
{
    let k = n + chunk.len();
    let pre = v.pre + chunk;
    assert(pre =~= f.subrange(0, k));
    assert(f =~= pre + tail(f, k));
    lemma_known_formats(probed(pre), limits);
    if probed(pre) != FileFormat::Unknown || pre.len() >= PROBE_MAX {
        probing_a_prefix_is_final(pre, tail(f, k));
    }
    if probed(pre) != FileFormat::Unknown {
        lemma_started(f, k, limits);
    }
}

proof fn lemma_push_step(v: PushView, chunk: Seq<u8>, f: Seq<u8>, n: int, limits: Limits)
    requires
        f.len() <= isize::MAX,
        0 <= n,
        n + chunk.len() <= f.len(),
        chunk == f.subrange(n, n + chunk.len()),
        straight_file(f, limits),
        push_on_track(v, f, n, limits),
        feed_fits(v, chunk),
    ensures
        push_on_track(push_fed(v, chunk).0, f, n + chunk.len(), limits),
{
    if !v.failed {
        if v.driver is Some {
            lemma_push_on(v, chunk, f, n, limits);
        } else {
            lemma_push_probe(v, chunk, f, n, limits);
        }
    }
}

#[verifier::rlimit(40)]
proof fn lemma_push_all(chunks: Seq<Seq<u8>>, f: Seq<u8>, limits: Limits)
    requires
        f.len() <= isize::MAX,
        joined(chunks).len() <= f.len(),
        joined(chunks) == f.subrange(0, joined(chunks).len() as int),
        straight_file(f, limits),
        stream_fits(limits, chunks),
    ensures
        push_on_track(push_all(limits, chunks), f, joined(chunks).len() as int, limits),
    decreases chunks.len(),
{
    if chunks.len() == 0 {
        assert(push_start(limits).pre =~= f.subrange(0, 0));
        lemma_initials(seq![]);
    } else {
        let front = chunks.drop_last();
        let n = joined(front).len() as int;
        let k = joined(chunks).len() as int;
        assert(joined(front) =~= f.subrange(0, k).subrange(0, n));
        assert(joined(front) =~= f.subrange(0, n));
        assert(chunks.last() =~= f.subrange(0, k).subrange(n, k));
        assert(chunks.last() =~= f.subrange(n, k));
        lemma_push_all(front, f, limits);
        lemma_push_step(push_all(limits, front), chunks.last(), f, n, limits);
    }
}

/// A stream that is fed in any pieces gives the same metadata as the file in one buffer.
///
/// Left out are files that a stream cannot read as a buffer can: those with a payload at or
/// before the place that names it, and streams that would have to hold back more than the
/// limits allow.
pub proof fn push_agrees_with_slice(chunks: Seq<Seq<u8>>, limits: Limits)
    requires
        joined(chunks).len() <= isize::MAX,
        straight_file(joined(chunks), limits),
        stream_fits(limits, chunks),
    ensures
        push_finished(push_all(limits, chunks)) == metadata_of(joined(chunks), limits),
{
    let f = joined(chunks);
    let n = f.len() as int;
    assert(f =~= f.subrange(0, n));
    lemma_push_all(chunks, f, limits);
    lemma_known_formats(probed(f), limits);
    let v = push_all(limits, chunks);
    if start_mode(probed(f), limits) is Some {
        let m = start_mode(probed(f), limits).unwrap();
        lemma_slice(f, m, 0, nothing(limits), pull_budget(n));
    }
    if !v.failed {
        match v.driver {
            Some(s) => {
                lemma_driven(StreamView { eof: true, ..s }, f, n, goal_of(f, limits));
            },
            None => {},
        }
    }
}

/// Once a stream is done, what arrives later changes nothing.
pub proof fn done_is_final(v: PushView, chunk: Seq<u8>, later: Seq<u8>)
    requires
        push_fed(v, chunk).1 == Ok::<Outcome, crate::error::Error>(Outcome::Done),
    ensures
        push_finished(push_fed(push_fed(v, chunk).0, later).0) == push_finished(
            push_fed(v, chunk).0,
        ),
{
    let w = push_fed(v, chunk).0;
    lemma_done(
        match v.driver {
            Some(s) => StreamView { buf: s.buf + chunk, ..s },
            None => StreamView {
                buf: stream_start(start_mode(probed(v.pre + chunk), v.limits).unwrap(), v.limits).buf
                    + (v.pre + chunk),
                ..stream_start(start_mode(probed(v.pre + chunk), v.limits).unwrap(), v.limits)
            },
        },
    );
}

proof fn lemma_done(s: StreamView<AnyMode>)
    ensures
        driven::<AnyParser>(s).1 == Outcome::Done ==> driven::<AnyParser>(s).0.done,
{
    if !s.done {
        lemma_rounds_done(s, pull_budget(s.buf.len() as int));
    }
}

proof fn lemma_rounds_done(s: StreamView<AnyMode>, left: nat)
    ensures
        rounds::<AnyParser>(s, left).1 == Outcome::Done ==> rounds::<AnyParser>(s, left).0.done,
    decreases left,
{
    if left > 0 {
        match prepared(s) {
            (t, None) => {
                let (next, r) = AnyParser::step(t.st, t.window());
                match followed(t.pulled(next, r), r) {
                    (u, None) => lemma_rounds_done(u, (left - 1) as nat),
                    _ => {},
                }
            },
            _ => {},
        }
    }
}

/// A source that passes over bytes by itself leaves the driver where feeding it these
/// bytes would.
pub proof fn passing_over_is_feeding(s: StreamView<AnyMode>, skipped: Seq<u8>)
    requires
        !s.done,
        !s.eof,
        s.buf.len() == 0,
        s.cursor == 0,
        0 < skipped.len() <= s.skip,
    ensures
        fed::<AnyParser>(passed(s, skipped.len() as u64), seq![]) == fed::<AnyParser>(s, skipped),
{
    let a = StreamView { buf: s.buf + skipped, ..s };
    let p = passed(s, skipped.len() as u64);
    let b = StreamView { buf: p.buf + seq![], ..p };
    assert(a.skipped().buf =~= seq![]);
    assert(b.buf =~= seq![]);
    assert(b.skipped().buf =~= seq![]);
    assert(prepared(a) == prepared(b));
}

/// After a hint to skip, the driver holds nothing back.
pub proof fn hint_holds_nothing(s: StreamView<AnyMode>, chunk: Seq<u8>)
    ensures
        ({
            let (t, o) = fed::<AnyParser>(s, chunk);
            o matches Outcome::SkipHint(k) ==> {
                &&& t.skip == k > 0
                &&& t.buf.len() == 0
                &&& t.cursor == 0
            }
        }),
{
    let a = StreamView { buf: s.buf + chunk, ..s };
    if !a.done {
        lemma_hint(a, pull_budget(a.buf.len() as int));
    }
}

proof fn lemma_hint(s: StreamView<AnyMode>, left: nat)
    ensures
        ({
            let (t, o) = rounds::<AnyParser>(s, left);
            o matches Outcome::SkipHint(k) ==> {
                &&& t.skip == k > 0
                &&& t.buf.len() == 0
                &&& t.cursor == 0
            }
        }),
    decreases left,
{
    if left > 0 {
        match prepared(s) {
            (t, None) => {
                let (next, r) = AnyParser::step(t.st, t.window());
                match followed(t.pulled(next, r), r) {
                    (u, None) => lemma_hint(u, (left - 1) as nat),
                    _ => {},
                }
            },
            _ => {},
        }
    }
}

/// A pull consumes no more than the window.
pub proof fn lemma_consumed(st: AnyMode, w: Seq<u8>, off: int, events: Seq<crate::demand::EventView>)
    requires
        0 <= off <= w.len(),
    ensures
        off <= walk::<AnyParser>(st, w, off, events).1.consumed <= w.len(),
    decreases w.len() - off,
{
    lemma_unit(st, tail(w, off));
    match any_local(st, tail(w, off)) {
        Local::Next { st: next, len, events: found } => {
            lemma_consumed(next, w, off + len, events + found);
        },
        _ => {},
    }
}

/// The driver holds back at most `n` bytes.
spec fn small(s: StreamView<AnyMode>, n: int, max: usize) -> bool {
    &&& 0 <= s.cursor <= s.buf.len() <= n
    &&& s.max_retained == max
}

proof fn lemma_small(s: StreamView<AnyMode>, n: int, max: usize, left: nat)
    requires
        small(s, n, max),
        n <= max,
    ensures
        rounds_fit(s, left),
        small(rounds::<AnyParser>(s, left).0, n, max),
    decreases left,
{
    if left > 0 {
        let (t, o) = prepared(s);
        if o is None {
            let (next, r) = AnyParser::step(t.st, t.window());
            lemma_consumed(t.st, t.window(), 0, seq![]);
            let p = t.pulled(next, r);
            assert(small(p, n, max));
            let (u, v) = followed(p, r);
            assert(small(u, n, max));
            if v is None {
                lemma_small(u, n, max, (left - 1) as nat);
            }
        }
    }
}

/// A stream no longer than the driver may hold back fits.
pub proof fn lemma_small_all(chunks: Seq<Seq<u8>>, limits: Limits)
    requires
        joined(chunks).len() <= limits.max_retained_bytes,
    ensures
        stream_fits(limits, chunks),
        ({
            let v = push_all(limits, chunks);
            &&& v.limits == limits
            &&& v.driver is None && !v.failed ==> v.pre.len() <= joined(chunks).len()
            &&& v.failed ==> v.driver is None
            &&& v.driver matches Some(s) ==> {
                &&& 0 <= s.cursor <= s.buf.len() <= joined(chunks).len()
                &&& s.max_retained == limits.max_retained_bytes
            }
        }),
    decreases chunks.len(),
{
    let max = limits.max_retained_bytes;
    let n = joined(chunks).len() as int;
    let v = push_all(limits, chunks);
    if chunks.len() > 0 {
        let front = chunks.drop_last();
        let chunk = chunks.last();
        lemma_small_all(front, limits);
        let u = push_all(limits, front);
        match u.driver {
            Some(s) => {
                let t = StreamView { buf: s.buf + chunk, ..s };
                lemma_small(t, n, max, pull_budget(t.buf.len() as int));
            },
            None => {
                if !u.failed {
                    match start_mode(probed(u.pre + chunk), limits) {
                        Some(m) => {
                            let b = stream_start(m, limits);
                            let t = StreamView { buf: u.pre + chunk, ..b };
                            assert(b.buf + (u.pre + chunk) =~= u.pre + chunk);
                            lemma_small(t, n, max, pull_budget(t.buf.len() as int));
                        },
                        None => {},
                    }
                }
            },
        }
    }
    match v.driver {
        Some(s) => {
            let t = StreamView { eof: true, ..s };
            lemma_small(t, n, max, pull_budget(t.buf.len() as int));
        },
        None => {},
    }
}

/// A stream no longer than the driver may hold back gives the same metadata as the file in
/// one buffer.
pub proof fn short_streams_agree(chunks: Seq<Seq<u8>>, limits: Limits)
    requires
        joined(chunks).len() <= isize::MAX,
        joined(chunks).len() <= limits.max_retained_bytes,
        straight_file(joined(chunks), limits),
    ensures
        push_finished(push_all(limits, chunks)) == metadata_of(joined(chunks), limits),
{
    lemma_small_all(chunks, limits);
    push_agrees_with_slice(chunks, limits);
}

proof fn lemma_stays_done(v: PushView, later: Seq<u8>)
    requires
        !v.failed,
        v.driver matches Some(s) && s.done,
    ensures
        ({
            let w = push_fed(v, later).0;
            &&& !w.failed
            &&& w.driver matches Some(t) && t.done
            &&& push_finished(w) == push_finished(v)
        }),
{
}

proof fn lemma_done_all(chunks: Seq<Seq<u8>>, k: int, limits: Limits)
    requires
        0 <= k <= chunks.len(),
        !push_all(limits, chunks.take(k)).failed,
        push_all(limits, chunks.take(k)).driver matches Some(s) && s.done,
    ensures
        !push_all(limits, chunks).failed,
        push_all(limits, chunks).driver matches Some(s) && s.done,
        push_finished(push_all(limits, chunks)) == push_finished(
            push_all(limits, chunks.take(k)),
        ),
    decreases chunks.len(),
{
    if k == chunks.len() {
        assert(chunks.take(k) =~= chunks);
    } else {
        let front = chunks.drop_last();
        assert(front.take(k) =~= chunks.take(k));
        lemma_done_all(front, k, limits);
        lemma_stays_done(push_all(limits, front), chunks.last());
    }
}

/// A stream whose outcome is `Done` is done.
proof fn lemma_fed_done(v: PushView, chunk: Seq<u8>)
    requires
        push_fed(v, chunk).1 == Ok::<Outcome, crate::error::Error>(Outcome::Done),
    ensures
        !push_fed(v, chunk).0.failed,
        push_fed(v, chunk).0.driver matches Some(s) && s.done,
{
    lemma_done(
        match v.driver {
            Some(s) => StreamView { buf: s.buf + chunk, ..s },
            None => StreamView {
                buf: stream_start(start_mode(probed(v.pre + chunk), v.limits).unwrap(), v.limits).buf
                    + (v.pre + chunk),
                ..stream_start(start_mode(probed(v.pre + chunk), v.limits).unwrap(), v.limits)
            },
        },
    );
}

/// A reader that stops feeding once the outcome is `Done` has read all there is to find.
pub proof fn stopping_when_done_agrees(chunks: Seq<Seq<u8>>, k: int, limits: Limits)
    requires
        joined(chunks).len() <= isize::MAX,
        straight_file(joined(chunks), limits),
        stream_fits(limits, chunks),
        0 < k <= chunks.len(),
        push_fed(push_all(limits, chunks.take(k - 1)), chunks[k - 1]).1 == Ok::<
            Outcome,
            crate::error::Error,
        >(Outcome::Done),
    ensures
        push_finished(push_all(limits, chunks.take(k))) == metadata_of(joined(chunks), limits),
{
    lemma_done_at(chunks, k, limits);
    push_agrees_with_slice(chunks, limits);
}

proof fn lemma_done_at(chunks: Seq<Seq<u8>>, k: int, limits: Limits)
    requires
        0 < k <= chunks.len(),
        push_fed(push_all(limits, chunks.take(k - 1)), chunks[k - 1]).1 == Ok::<
            Outcome,
            crate::error::Error,
        >(Outcome::Done),
    ensures
        push_finished(push_all(limits, chunks)) == push_finished(push_all(limits, chunks.take(k))),
{
    let front = chunks.take(k - 1);
    lemma_done_here(front, chunks[k - 1], limits);
    assert(front.push(chunks[k - 1]) =~= chunks.take(k));
    lemma_done_all(chunks, k, limits);
}

proof fn lemma_done_here(front: Seq<Seq<u8>>, chunk: Seq<u8>, limits: Limits)
    requires
        push_fed(push_all(limits, front), chunk).1 == Ok::<Outcome, crate::error::Error>(
            Outcome::Done,
        ),
    ensures
        !push_all(limits, front.push(chunk)).failed,
        push_all(limits, front.push(chunk)).driver matches Some(s) && s.done,
{
    let v = push_all(limits, front);
    let w = push_fed(v, chunk).0;
    lemma_fed_done(v, chunk);
    assert(push_all(limits, front.push(chunk)) == w) by {
        assert(front.push(chunk).drop_last() =~= front);
    }
}

pub proof fn lemma_rounds_open(s: StreamView<AnyMode>, left: nat)
    requires
        !s.done,
    ensures
        rounds::<AnyParser>(s, left).1 is SkipHint ==> !rounds::<AnyParser>(s, left).0.done,
        rounds::<AnyParser>(s, left).0.eof == s.eof,
    decreases left,
{
    if left > 0 {
        match prepared(s) {
            (t, None) => {
                let (next, r) = AnyParser::step(t.st, t.window());
                match followed(t.pulled(next, r), r) {
                    (u, None) => lemma_rounds_open(u, (left - 1) as nat),
                    _ => {},
                }
            },
            _ => {},
        }
    }
}

/// After a hint to skip `k` bytes: to seek over the next ones, no more than `k`, and then
/// to feed nothing is to feed these bytes; and to end after seeking over fewer is to end
/// after feeding them.
pub proof fn seeking_is_feeding(v: PushView, chunk: Seq<u8>, k: u64, skipped: Seq<u8>)
    requires
        v.driver matches Some(s) ==> !s.eof,
        push_fed(v, chunk).1 == Ok::<Outcome, crate::error::Error>(Outcome::SkipHint(k)),
        0 < skipped.len() <= k,
    ensures
        ({
            let w = push_fed(v, chunk).0;
            let p = push_passed(w, skipped.len() as u64);
            &&& push_fed(p, seq![]) == push_fed(w, skipped)
            &&& skipped.len() < k ==> push_finished(p) == push_finished(push_fed(w, skipped).0)
        }),
{
    let w = push_fed(v, chunk).0;
    let (s, c) = match v.driver {
        Some(s) => (s, chunk),
        None => (
            stream_start(start_mode(probed(v.pre + chunk), v.limits).unwrap(), v.limits),
            v.pre + chunk,
        ),
    };
    hint_holds_nothing(s, c);
    let a = StreamView { buf: s.buf + c, ..s };
    lemma_rounds_open(a, pull_budget(a.buf.len() as int));
    let t = fed::<AnyParser>(s, c).0;
    assert(w.driver == Some(t));
    passing_over_is_feeding(t, skipped);
    if skipped.len() < k {
        let b = StreamView { buf: t.buf + skipped, ..t };
        let q = passed(t, skipped.len() as u64);
        assert(b.skipped().buf =~= seq![]);
        assert(t.buf =~= seq![]);
        assert(prepared(b).0 == q);
        assert(fed::<AnyParser>(t, skipped).0 == q);
    }
}

} // verus!
