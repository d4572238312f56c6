//! What holds of the drivers with any parser.
use vstd::prelude::*;

use crate::bytes::tail;
use crate::demand::{Demand, MetaParser};
use crate::driver::{
    driven, fed, followed, handled_all, nothing, passed, prepared, pull_budget, rounds, slice_end,
    slice_move, stream_start, CollectorView, Outcome, SliceMove, StreamView,
};
use crate::laws::agreement::lemma_consumed;
use crate::limits::Limits;
use crate::probe::{AnyMode, AnyParser};

verus! {

/// The pulls of a driver over all of `buf`: the state of the parser at each, and where the
/// window begins.
pub open spec fn slice_pulls<P: MetaParser>(
    buf: Seq<u8>,
    st: P::State,
    pos: int,
    col: CollectorView,
    left: nat,
) -> Seq<(P::State, int)>
    decreases left,
{
    if left == 0 {
        seq![]
    } else {
        let (next, r) = P::step(st, tail(buf, pos));
        let found = handled_all(col, r.events);
        seq![(st, pos)] + match slice_move(buf.len() as int, pos, r, found) {
            SliceMove::End(_) => seq![],
            SliceMove::To(p) => slice_pulls::<P>(buf, next, p, found, (left - 1) as nat),
        }
    }
}

/// What a pull answers, and the state it leaves.
pub open spec fn answer<P: MetaParser>(buf: Seq<u8>, pull: (P::State, int)) -> (P::State, Demand) {
    let (next, r) = P::step(pull.0, tail(buf, pull.1));
    (next, r.demand)
}

/// `ps` are pulls one after the other on suffixes of `buf`, of which only the last may be
/// answered by `Done`; they leave the state `end`.
pub open spec fn orderly<P: MetaParser>(
    buf: Seq<u8>,
    ps: Seq<(P::State, int)>,
    end: P::State,
) -> bool {
    &&& ps.len() > 0
    &&& forall|i: int| 0 <= i < ps.len() ==> 0 <= (#[trigger] ps[i]).1 <= buf.len()
    &&& forall|i: int|
        0 <= i < ps.len() - 1 ==> answer::<P>(buf, #[trigger] ps[i]).0 == ps[i + 1].0
            && answer::<P>(buf, ps[i]).1 != Demand::Done
    &&& answer::<P>(buf, ps.last()).0 == end
}

proof fn lemma_pulls<P: MetaParser>(
    buf: Seq<u8>,
    st: P::State,
    pos: int,
    col: CollectorView,
    left: nat,
)
    requires
        left > 0,
        0 <= pos <= buf.len(),
    ensures
        ({
            let ps = slice_pulls::<P>(buf, st, pos, col, left);
            &&& ps.len() <= left
            &&& ps.len() > 0
            &&& ps[0] == (st, pos)
            &&& orderly::<P>(buf, ps, slice_end::<P>(buf, st, pos, col, left))
        }),
    decreases left,
{
    let ps = slice_pulls::<P>(buf, st, pos, col, left);
    let (next, r) = P::step(st, tail(buf, pos));
    let found = handled_all(col, r.events);
    let first = (st, pos);
    match slice_move(buf.len() as int, pos, r, found) {
        SliceMove::End(_) => {
            assert(ps =~= seq![first]);
        },
        SliceMove::To(p) => {
            assert(r.demand != Demand::Done);
            assert(0 <= p <= buf.len());
            let rest = slice_pulls::<P>(buf, next, p, found, (left - 1) as nat);
            let end = slice_end::<P>(buf, next, p, found, (left - 1) as nat);
            assert(slice_end::<P>(buf, st, pos, col, left) == end);
            assert(ps == seq![first] + rest);
            if left == 1 {
                assert(ps =~= seq![first]);
                assert(end == next);
            } else {
                lemma_pulls::<P>(buf, next, p, found, (left - 1) as nat);
                assert(ps.last() == rest.last());
                assert forall|i: int| 0 <= i < ps.len() implies 0 <= (#[trigger] ps[i]).1
                    <= buf.len() by {
                    if i > 0 {
                        assert(ps[i] == rest[i - 1]);
                    }
                }
                assert forall|i: int| 0 <= i < ps.len() - 1 implies answer::<P>(
                    buf,
                    #[trigger] ps[i],
                ).0 == ps[i + 1].0 && answer::<P>(buf, ps[i]).1 != Demand::Done by {
                    assert(ps[i + 1] == rest[i]);
                    if i > 0 {
                        assert(ps[i] == rest[i - 1]);
                        assert(rest[i - 1 + 1] == rest[i]);
                    }
                }
            }
        },
    }
}

/// A driver over a whole buffer pulls any parser, a spiteful one too, at least once and no
/// more often than the buffer is worth. It starts with all of the buffer, shows only
/// suffixes of it, and does not pull again once the parser is done: the state that the
/// driver leaves is the one after the last of these pulls.
pub proof fn slice_pulls_are_few<P: MetaParser>(buf: Seq<u8>, st: P::State, limits: Limits)
    ensures
        ({
            let budget = pull_budget(buf.len() as int);
            let ps = slice_pulls::<P>(buf, st, 0, nothing(limits), budget);
            &&& 1 <= ps.len() <= budget <= 2 * buf.len() + 1024
            &&& ps[0] == (st, 0int)
            &&& orderly::<P>(buf, ps, slice_end::<P>(buf, st, 0, nothing(limits), budget))
        }),
{
    lemma_pulls::<P>(buf, st, 0, nothing(limits), pull_budget(buf.len() as int));
}

/// No pull of the parser consumes more than its window.
pub open spec fn within_window<P: MetaParser>() -> bool {
    forall|st: P::State, w: Seq<u8>|
        0 <= (#[trigger] P::step(st, w)).1.consumed <= w.len()
}

/// The parsers of the library keep to their windows.
pub proof fn known_parsers_keep_within()
    ensures
        within_window::<AnyParser>(),
{
    assert forall|st: AnyMode, w: Seq<u8>|
        0 <= (#[trigger] AnyParser::step(st, w)).1.consumed <= w.len() by {
        lemma_consumed(st, w, 0, seq![]);
    }
}

/// The driver stands among the bytes that it holds back.
pub open spec fn placed<S>(s: StreamView<S>) -> bool {
    0 <= s.cursor <= s.buf.len()
}

/// The windows that the parser is shown as the driver goes on, with `left` rounds left.
pub open spec fn windows<P: MetaParser>(s: StreamView<P::State>, left: nat) -> Seq<Seq<u8>>
    decreases left,
{
    if left == 0 {
        seq![]
    } else {
        match prepared(s) {
            (t, Some(_)) => seq![],
            (t, None) => {
                let (next, r) = P::step(t.st, t.window());
                seq![t.window()] + match followed(t.pulled(next, r), r) {
                    (u, Some(_)) => seq![],
                    (u, None) => windows::<P>(u, (left - 1) as nat),
                }
            },
        }
    }
}

/// The windows that the parser is shown as the driver goes on.
pub open spec fn driven_windows<P: MetaParser>(s: StreamView<P::State>) -> Seq<Seq<u8>> {
    if s.done {
        seq![]
    } else {
        windows::<P>(s, pull_budget(s.buf.len() as int))
    }
}

/// The windows that the parser is shown when `chunk` has arrived.
pub open spec fn fed_windows<P: MetaParser>(s: StreamView<P::State>, chunk: Seq<u8>) -> Seq<Seq<u8>> {
    driven_windows::<P>(StreamView { buf: s.buf + chunk, ..s })
}

/// What an outcome asks for, if anything, is more than nothing.
pub open spec fn asks(o: Outcome) -> bool {
    match o {
        Outcome::Need(n) => n >= 1,
        Outcome::SkipHint(k) => k >= 1,
        Outcome::Done => true,
    }
}

proof fn lemma_rounds<P: MetaParser>(s: StreamView<P::State>, left: nat)
    requires
        within_window::<P>(),
        placed(s),
    ensures
        ({
            let (t, o) = rounds::<P>(s, left);
            &&& placed(t)
            &&& t.eof == s.eof
            &&& asks(o)
            &&& s.eof ==> o == Outcome::Done
            &&& o == Outcome::Done ==> t.done
        }),
        forall|i: int|
            0 <= i < windows::<P>(s, left).len() ==> s.eof || (#[trigger] windows::<P>(
                s,
                left,
            )[i]).len() > 0,
    decreases left,
{
    if left > 0 {
        let (t, wait) = prepared(s);
        assert(placed(t));
        if wait is None {
            let w = t.window();
            let (next, r) = P::step(t.st, w);
            assert(0 <= r.consumed <= w.len());
            let ws = windows::<P>(s, left);
            match followed(t.pulled(next, r), r) {
                (u, Some(_)) => {
                    assert(ws =~= seq![w]);
                },
                (u, None) => {
                    assert(placed(u));
                    lemma_rounds::<P>(u, (left - 1) as nat);
                    let rest = windows::<P>(u, (left - 1) as nat);
                    assert(ws == seq![w] + rest);
                    assert forall|i: int| 0 <= i < ws.len() implies s.eof || (
                    #[trigger] ws[i]).len() > 0 by {
                        if i > 0 {
                            assert(ws[i] == rest[i - 1]);
                        }
                    }
                },
            }
        }
    }
}

/// Whatever its state, a driver over a stream that goes on with a parser that keeps to its
/// window shows it an empty window only at the end of the source, and asks for at least one
/// byte where it asks. At the end it is done, and once it is done it says so whatever arrives
/// later, and does not pull the parser again.
pub proof fn drives_ask_for_something<P: MetaParser>(s: StreamView<P::State>, later: Seq<u8>)
    requires
        within_window::<P>(),
        placed(s),
    ensures
        ({
            let (t, o) = driven::<P>(s);
            &&& placed(t)
            &&& asks(o)
            &&& forall|i: int|
                0 <= i < driven_windows::<P>(s).len() ==> s.eof || (#[trigger] driven_windows::<P>(
                    s,
                )[i]).len() > 0
            &&& s.eof ==> o == Outcome::Done
            &&& o == Outcome::Done ==> {
                &&& driven::<P>(t).1 == Outcome::Done
                &&& driven_windows::<P>(t).len() == 0
                &&& fed::<P>(t, later).1 == Outcome::Done
                &&& fed_windows::<P>(t, later).len() == 0
            }
        }),
{
    lemma_rounds::<P>(s, pull_budget(s.buf.len() as int));
}

/// With any parser that keeps to its window, a driver over a stream shows it an empty window
/// only at the end of the source, and asks for at least one byte where it asks. It keeps its
/// place, from the start on.
pub proof fn streams_ask_for_something<P: MetaParser>(
    s: StreamView<P::State>,
    chunk: Seq<u8>,
    n: u64,
    st: P::State,
    limits: Limits,
)
    requires
        within_window::<P>(),
        placed(s),
    ensures
        placed(stream_start(st, limits)),
        placed(passed(s, n)),
        placed(fed::<P>(s, chunk).0),
        asks(fed::<P>(s, chunk).1),
        forall|i: int|
            0 <= i < fed_windows::<P>(s, chunk).len() ==> s.eof || (#[trigger] fed_windows::<P>(
                s,
                chunk,
            )[i]).len() > 0,
{
    let a = StreamView { buf: s.buf + chunk, ..s };
    lemma_rounds::<P>(a, pull_budget(a.buf.len() as int));
}

/// Once the source has ended, a driver over a stream is done.
pub proof fn the_end_is_done<P: MetaParser>(s: StreamView<P::State>)
    requires
        within_window::<P>(),
        placed(s),
        s.eof,
    ensures
        driven::<P>(s).1 == Outcome::Done,
        driven::<P>(s).0.done,
{
    lemma_rounds::<P>(s, pull_budget(s.buf.len() as int));
}

/// A driver over a stream that is done stays done: whatever arrives later, it says so, does
/// not pull the parser and finds nothing more.
pub proof fn done_is_for_good<P: MetaParser>(
    s: StreamView<P::State>,
    chunk: Seq<u8>,
    later: Seq<u8>,
)
    requires
        within_window::<P>(),
        placed(s),
        fed::<P>(s, chunk).1 == Outcome::Done,
    ensures
        ({
            let t = fed::<P>(s, chunk).0;
            let (u, o) = fed::<P>(t, later);
            &&& o == Outcome::Done
            &&& u.done
            &&& u.st == t.st
            &&& u.col == t.col
            &&& fed_windows::<P>(t, later).len() == 0
        }),
{
    let a = StreamView { buf: s.buf + chunk, ..s };
    lemma_rounds::<P>(a, pull_budget(a.buf.len() as int));
}

} // verus!
