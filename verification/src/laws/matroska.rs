//! Matroska and WebM files, element by element: the size, the length and the time that are read
//! are those that the elements hold.
use vstd::arithmetic::power2::{lemma_pow2_pos, pow2};
use vstd::prelude::*;

use crate::adapters::slice::metadata_of;
use crate::bytes::{be32, be64, lit, tail};
use crate::containers::ebml::{
    elem_id, element_header, element_len, elements, first_element, number, size_span, vint_len,
    Element, ElementHeader,
};
use crate::demand::{Demand, EventView, Local};
use crate::driver::{finalized, handled_all, nothing, CollectorView};
use crate::formats::ebml::{
    entry_dims, float, header_need, info_created, info_duration, info_events, millis, time_2001,
    tracks_dims, unsigned, Binary, EbmlMode,
};
use crate::laws::agreement::unit_run;
use crate::laws::files::{lemma_after, lemma_read, sized};
use crate::laws::movies::{is_time, movie_times_invert, since_1904, too_late};
use crate::laws::plain_files::lemma_straight;
use crate::laws::webp_files::{lemma_moves_on, moves_on};
use crate::limits::Limits;
use crate::model::{DateTimeParts, FieldView, FileFormat};
use crate::probe::{any_local, doctype, probed, AnyMode};

verus! {

/// `x` in `n` bytes, the most significant first.
pub open spec fn in_bytes(n: nat, x: int) -> Seq<u8>
    decreases n,
{
    if n == 0 {
        seq![]
    } else {
        in_bytes((n - 1) as nat, x / 256).push((x % 256) as u8)
    }
}

/// The bit that tells that a number of variable length has `n` bytes: seven bits of each count.
pub open spec fn marker(n: int) -> int {
    if n == 1 {
        0x80
    } else if n == 2 {
        0x4000
    } else if n == 3 {
        0x20_0000
    } else if n == 4 {
        0x1000_0000
    } else if n == 5 {
        0x8_0000_0000
    } else if n == 6 {
        0x400_0000_0000
    } else if n == 7 {
        0x2_0000_0000_0000
    } else {
        0x100_0000_0000_0000
    }
}

/// How many bytes an identifier has, with the bit that tells it.
pub open spec fn id_width(id: int) -> nat {
    if id < 0x100 {
        1
    } else if id < 0x1_0000 {
        2
    } else if id < 0x100_0000 {
        3
    } else {
        4
    }
}

/// An element: its identifier, in how many bytes its size is written, and its data.
pub struct Piece {
    pub id: int,
    pub wide: nat,
    pub data: Seq<u8>,
}

pub open spec fn is_id(id: int) -> bool {
    marker(id_width(id) as int) <= id < 2 * marker(id_width(id) as int)
}

pub open spec fn whole(p: Piece) -> bool {
    &&& is_id(p.id)
    &&& 1 <= p.wide <= 8
    &&& p.data.len() < marker(p.wide as int) - 1
}

/// The identifier and the size.
pub open spec fn head_bytes(p: Piece) -> Seq<u8> {
    in_bytes(id_width(p.id), p.id) + in_bytes(p.wide, p.data.len() + marker(p.wide as int))
}

pub open spec fn piece_bytes(p: Piece) -> Seq<u8> {
    head_bytes(p) + p.data
}

pub open spec fn all_bytes(ps: Seq<Piece>) -> Seq<u8>
    decreases ps.len(),
{
    if ps.len() == 0 {
        seq![]
    } else {
        piece_bytes(ps[0]) + all_bytes(ps.drop_first())
    }
}

pub open spec fn all_whole(ps: Seq<Piece>) -> bool {
    forall|i: int| 0 <= i < ps.len() ==> whole(#[trigger] ps[i])
}

spec fn span(n: nat) -> int
    decreases n,
{
    if n == 0 {
        1
    } else {
        256 * span((n - 1) as nat)
    }
}

proof fn lemma_in_bytes(n: nat, x: int)
    requires
        0 <= x < span(n),
    ensures
        in_bytes(n, x).len() == n,
        number(in_bytes(n, x)) == x,
        n > 0 ==> in_bytes(n, x)[0] == x / span((n - 1) as nat),
        span(n) > 0,
    decreases n,
{
    if n > 0 {
        let m = (n - 1) as nat;
        lemma_in_bytes(m, x / 256);
        let b = in_bytes(n, x);
        assert(b.drop_last() =~= in_bytes(m, x / 256));
        if m > 0 {
            let k = span((m - 1) as nat);
            lemma_span((m - 1) as nat);
            vstd::arithmetic::div_mod::lemma_div_denominator(x, 256, k);
            assert(b[0] == in_bytes(m, x / 256)[0]);
            assert(span(m) == 256 * k);
        } else {
            assert(span(0) == 1);
            assert(span(1) == 256 * span(0));
            assert(x % 256 == x && x / 1 == x);
            assert(b[0] == (x % 256) as u8);
        }
    }
}

proof fn lemma_span(n: nat)
    ensures
        span(n) > 0,
    decreases n,
{
    if n > 0 {
        lemma_span((n - 1) as nat);
    }
}

proof fn lemma_spans()
    ensures
        span(0) == 1,
        span(1) == 0x100,
        span(2) == 0x1_0000,
        span(3) == 0x100_0000,
        span(4) == 0x1_0000_0000,
        span(5) == 0x100_0000_0000,
        span(6) == 0x1_0000_0000_0000,
        span(7) == 0x100_0000_0000_0000,
        span(8) == 0x1_0000_0000_0000_0000,
{
    reveal_with_fuel(span, 10);
}

/// A number with the bit that tells its length begins with that length.
proof fn lemma_first(n: nat, x: int)
    requires
        1 <= n <= 8,
        marker(n as int) <= x < 2 * marker(n as int),
    ensures
        in_bytes(n, x).len() == n,
        number(in_bytes(n, x)) == x,
        vint_len(in_bytes(n, x)[0]) == n,
{
    lemma_spans();
    lemma_in_bytes(n, x);
    let f = in_bytes(n, x)[0] as int;
    if n == 1 {
        assert(f == x / 1);
    } else if n == 2 {
        assert(f == x / 0x100);
    } else if n == 3 {
        assert(f == x / 0x1_0000);
    } else if n == 4 {
        assert(f == x / 0x100_0000);
    } else if n == 5 {
        assert(f == x / 0x1_0000_0000);
    } else if n == 6 {
        assert(f == x / 0x100_0000_0000);
    } else if n == 7 {
        assert(f == x / 0x1_0000_0000_0000);
    } else {
        assert(f == x / 0x100_0000_0000_0000);
    }
}

/// The head of an element reads back.
#[verifier::rlimit(40)]
proof fn lemma_head(p: Piece, x: Seq<u8>)
    requires
        whole(p),
    ensures
        ({
            let b = head_bytes(p) + x;
            let n = head_bytes(p).len();
            &&& n == id_width(p.id) + p.wide
            &&& element_header(b) == Some(
                ElementHeader {
                    id: p.id as u32,
                    header_len: n as u64,
                    size: Some(p.data.len() as u64),
                },
            )
            &&& header_need(b) == Some(n as int)
            &&& vint_len(b[0]) == id_width(p.id)
        }),
{
    let k = id_width(p.id);
    let s = p.data.len() + marker(p.wide as int);
    lemma_first(k, p.id);
    lemma_first(p.wide, s);
    let (i, z) = (in_bytes(k, p.id), in_bytes(p.wide, s));
    let b = head_bytes(p) + x;
    assert(b[0] == i[0]);
    assert(b[k as int] == z[0]);
    assert(b.subrange(0, k as int) =~= i);
    let t = tail(b, k as int);
    assert(t =~= z + x);
    assert(t[0] == z[0]);
    assert(t.subrange(0, p.wide as int) =~= z);
    let m = marker(p.wide as int);
    assert(size_span(p.wide as int) == m);
    assert(s % m == p.data.len()) by (nonlinear_arith)
        requires
            s == p.data.len() + m,
            p.data.len() < m,
    ;
}

/// An element, and what follows it.
proof fn lemma_piece(p: Piece, x: Seq<u8>)
    requires
        whole(p),
    ensures
        ({
            let b = piece_bytes(p) + x;
            let n = head_bytes(p).len() as int;
            &&& element_header(b) matches Some(h) && h.id == p.id && h.header_len == n && h.size
                == Some(p.data.len() as u64)
            &&& header_need(b) == Some(n)
            &&& b.subrange(n, n + p.data.len()) == p.data
            &&& tail(b, n + p.data.len()) == x
            &&& 2 <= n <= 12
        }),
{
    let b = piece_bytes(p) + x;
    let n = head_bytes(p).len() as int;
    lemma_head(p, p.data + x);
    assert(b =~= head_bytes(p) + (p.data + x));
    assert(b.subrange(n, n + p.data.len()) =~= p.data);
    assert(tail(b, n + p.data.len()) =~= x);
}

/// The element that a piece is.
spec fn is_piece(e: Element, p: Piece) -> bool {
    e.header.id == p.id && e.payload == p.data
}

spec fn are_pieces(es: Seq<Element>, ps: Seq<Piece>) -> bool {
    es.len() >= ps.len() && forall|i: int|
        0 <= i < ps.len() ==> is_piece(#[trigger] es[i], ps[i])
}

proof fn lemma_walk(ps: Seq<Piece>, x: Seq<u8>)
    requires
        all_whole(ps),
    ensures
        are_pieces(elements(all_bytes(ps) + x), ps),
        elements(all_bytes(ps) + x).len() == ps.len() + elements(x).len(),
    decreases ps.len(),
{
    if ps.len() == 0 {
        assert(all_bytes(ps) + x =~= x);
    } else {
        let p = ps[0];
        let m = ps.drop_first();
        let b = all_bytes(ps) + x;
        let y = all_bytes(m) + x;
        assert(whole(p));
        assert(b =~= piece_bytes(p) + y);
        lemma_piece(p, y);
        assert forall|i: int| 0 <= i < m.len() implies whole(#[trigger] m[i]) by {
            assert(m[i] == ps[i + 1]);
        }
        lemma_walk(m, x);
        let n = head_bytes(p).len() as int + p.data.len();
        assert(element_len(b) == Some(n)) by {
            assert(b.len() == n + y.len());
        }
        let es = elements(b);
        assert(es == seq![es[0]] + elements(y));
        assert forall|i: int| 0 <= i < ps.len() implies is_piece(#[trigger] es[i], ps[i]) by {
            if i > 0 {
                assert(es[i] == elements(y)[i - 1]);
                assert(is_piece(elements(y)[i - 1], m[i - 1]));
            }
        }
    }
}

proof fn lemma_walk_all(ps: Seq<Piece>)
    requires
        all_whole(ps),
    ensures
        are_pieces(elements(all_bytes(ps)), ps),
        elements(all_bytes(ps)).len() == ps.len(),
{
    lemma_walk(ps, seq![]);
    assert(all_bytes(ps) + seq![] =~= all_bytes(ps));
    assert(elem_id(seq![]) is None);
    assert(elements(seq![]).len() == 0);
}

/// The data of the first element with the identifier.
pub open spec fn first_of(ps: Seq<Piece>, id: int) -> Option<Seq<u8>>
    decreases ps.len(),
{
    if ps.len() == 0 {
        None
    } else if ps[0].id == id {
        Some(ps[0].data)
    } else {
        first_of(ps.drop_first(), id)
    }
}

proof fn lemma_first_of(es: Seq<Element>, ps: Seq<Piece>, id: u32)
    requires
        are_pieces(es, ps),
        es.len() == ps.len() || first_of(ps, id as int) is Some,
    ensures
        first_element(es, id) == first_of(ps, id as int),
    decreases ps.len(),
{
    if ps.len() > 0 {
        assert(is_piece(es[0], ps[0]));
        let (e, p) = (es.drop_first(), ps.drop_first());
        assert forall|i: int| 0 <= i < p.len() implies is_piece(#[trigger] e[i], p[i]) by {
            assert(is_piece(es[i + 1], ps[i + 1]));
        }
        if ps[0].id != id {
            lemma_first_of(e, p, id);
        }
    }
}

/// The unsigned number that up to eight bytes make.
pub open spec fn counts(b: Seq<u8>) -> int
    decreases b.len(),
{
    if b.len() == 0 {
        0
    } else {
        counts(b.drop_last()) * 256 + b.last()
    }
}

proof fn lemma_counts(b: Seq<u8>)
    ensures
        counts(b) == number(b),
        0 <= counts(b) < span(b.len()),
    decreases b.len(),
{
    if b.len() > 0 {
        lemma_counts(b.drop_last());
    }
}

/// The number that the first element with the identifier holds.
pub open spec fn first_count(ps: Seq<Piece>, id: int) -> Option<int> {
    match first_of(ps, id) {
        Some(b) => if b.len() <= 8 {
            Some(counts(b))
        } else {
            None
        },
        None => None,
    }
}

proof fn lemma_first_count(ps: Seq<Piece>, id: u32)
    requires
        all_whole(ps),
    ensures
        match unsigned(first_element(elements(all_bytes(ps)), id)) {
            Some(v) => first_count(ps, id as int) == Some(v as int),
            None => first_count(ps, id as int) is None,
        },
{
    lemma_walk_all(ps);
    lemma_first_of(elements(all_bytes(ps)), ps, id);
    match first_of(ps, id as int) {
        Some(b) => {
            lemma_counts(b);
            lemma_spans();
            if b.len() <= 8 {
                lemma_span_grows(b.len(), 8);
            }
        },
        None => {},
    }
}

proof fn lemma_span_grows(a: nat, b: nat)
    requires
        a <= b,
    ensures
        span(a) <= span(b),
    decreases b - a,
{
    lemma_span(a);
    if a < b {
        lemma_span_grows(a + 1, b);
    }
}

/// A track: its own elements, and those of its picture, if it has one.
pub struct Track {
    pub wide: nat,
    pub before: Seq<Piece>,
    pub picture: Option<(nat, Seq<Piece>)>,
    pub behind: Seq<Piece>,
}

/// The elements of a track.
pub open spec fn track_pieces(t: Track) -> Seq<Piece> {
    t.before + (match t.picture {
        Some((wide, ps)) => seq![Piece { id: 0xE0, wide, data: all_bytes(ps) }],
        None => seq![],
    }) + t.behind
}

pub open spec fn track_piece(t: Track) -> Piece {
    Piece { id: 0xAE, wide: t.wide, data: all_bytes(track_pieces(t)) }
}

pub open spec fn track_fits(t: Track) -> bool {
    &&& whole(track_piece(t))
    &&& all_whole(track_pieces(t))
    &&& t.picture matches Some((_, ps)) ==> all_whole(ps)
    &&& forall|i: int| 0 <= i < t.before.len() ==> (#[trigger] t.before[i]).id != 0xE0
    &&& t.picture is None ==> forall|i: int|
        0 <= i < t.behind.len() ==> (#[trigger] t.behind[i]).id != 0xE0
}

/// The size of the picture of a track: the width under 0xB0, the height under 0xBA.
pub open spec fn picture_size(t: Track) -> Option<(u32, u32)> {
    match t.picture {
        None => None,
        Some((_, ps)) => match (first_count(ps, 0xB0), first_count(ps, 0xBA)) {
            (Some(w), Some(h)) => if 0 < w < 0x1_0000_0000 && 0 < h < 0x1_0000_0000 {
                Some((w as u32, h as u32))
            } else {
                None
            },
            _ => None,
        },
    }
}

proof fn lemma_passes(a: Seq<Piece>, b: Seq<Piece>, id: int)
    requires
        forall|i: int| 0 <= i < a.len() ==> (#[trigger] a[i]).id != id,
    ensures
        first_of(a + b, id) == first_of(b, id),
    decreases a.len(),
{
    if a.len() == 0 {
        assert(a + b =~= b);
    } else {
        let m = a.drop_first();
        assert(a[0].id != id);
        assert((a + b).drop_first() =~= m + b);
        assert forall|i: int| 0 <= i < m.len() implies (#[trigger] m[i]).id != id by {
            assert(m[i] == a[i + 1]);
        }
        lemma_passes(m, b, id);
    }
}

proof fn lemma_track(t: Track)
    requires
        track_fits(t),
    ensures
        entry_dims(elements(all_bytes(track_pieces(t)))) == picture_size(t),
{
    let ps = track_pieces(t);
    lemma_walk_all(ps);
    lemma_first_of(elements(all_bytes(ps)), ps, 0xE0);
    match t.picture {
        Some((wide, qs)) => {
            let v = Piece { id: 0xE0, wide, data: all_bytes(qs) };
            assert(ps =~= t.before + (seq![v] + t.behind));
            lemma_passes(t.before, seq![v] + t.behind, 0xE0);
            assert((seq![v] + t.behind)[0] == v);
            assert(first_of(ps, 0xE0) == Some(v.data));
            lemma_first_count(qs, 0xB0);
            lemma_first_count(qs, 0xBA);
        },
        None => {
            assert(ps =~= t.before + t.behind);
            lemma_passes(t.before, t.behind, 0xE0);
            lemma_passes(t.behind, seq![], 0xE0);
            assert(t.behind + seq![] =~= t.behind);
        },
    }
}

pub open spec fn tracks_pieces(ts: Seq<Track>) -> Seq<Piece> {
    Seq::new(ts.len(), |i: int| track_piece(ts[i]))
}

/// The first size that a track has.
pub open spec fn first_size(ts: Seq<Track>) -> Option<(u32, u32)>
    decreases ts.len(),
{
    if ts.len() == 0 {
        None
    } else if picture_size(ts[0]) is Some {
        picture_size(ts[0])
    } else {
        first_size(ts.drop_first())
    }
}

pub open spec fn all_fit(ts: Seq<Track>) -> bool {
    forall|i: int| 0 <= i < ts.len() ==> track_fits(#[trigger] ts[i])
}

proof fn lemma_tracks(es: Seq<Element>, ts: Seq<Track>)
    requires
        are_pieces(es, tracks_pieces(ts)),
        es.len() == ts.len(),
        all_fit(ts),
    ensures
        tracks_dims(es) == first_size(ts),
    decreases ts.len(),
{
    if ts.len() > 0 {
        assert(is_piece(es[0], tracks_pieces(ts)[0]));
        assert(track_fits(ts[0]));
        lemma_track(ts[0]);
        let (e, t) = (es.drop_first(), ts.drop_first());
        assert forall|i: int| 0 <= i < t.len() implies is_piece(#[trigger] e[i], tracks_pieces(t)[i]) by {
            assert(is_piece(es[i + 1], tracks_pieces(ts)[i + 1]));
        }
        assert forall|i: int| 0 <= i < t.len() implies track_fits(#[trigger] t[i]) by {
            assert(t[i] == ts[i + 1]);
        }
        lemma_tracks(e, t);
    }
}

/// The length in milliseconds: what is under 0x4489, in units of as many nanoseconds as are
/// under 0x2AD7B1, or else of a million.
pub open spec fn length_of(ps: Seq<Piece>) -> Option<u64> {
    let scale = match first_count(ps, 0x2A_D7B1) {
        Some(s) => s,
        None => 1_000_000,
    };
    match first_of(ps, 0x4489) {
        Some(b) => match float(b) {
            Some(d) => millis(d, scale as u64),
            None => None,
        },
        None => None,
    }
}

/// The time, which is under 0x4461 in nanoseconds from the start of 2001, in eight bytes with a
/// sign.
pub open spec fn time_of(ps: Seq<Piece>) -> Option<DateTimeParts> {
    match first_of(ps, 0x4461) {
        Some(b) => if b.len() == 8 {
            Some(
                time_2001(
                    if counts(b) < 0x8000_0000_0000_0000 {
                        counts(b)
                    } else {
                        counts(b) - 0x1_0000_0000_0000_0000
                    },
                ),
            )
        } else {
            None
        },
        None => None,
    }
}

proof fn lemma_eight(b: Seq<u8>)
    requires
        b.len() == 8,
    ensures
        counts(b) == be64(b, 0),
{
    let s0: Seq<u8> = seq![];
    let s1 = s0.push(b[0]);
    let s2 = s1.push(b[1]);
    let s3 = s2.push(b[2]);
    let s4 = s3.push(b[3]);
    let s5 = s4.push(b[4]);
    let s6 = s5.push(b[5]);
    let s7 = s6.push(b[6]);
    let s8 = s7.push(b[7]);
    assert(s8 =~= b);
    lemma_push(s0, b[0]);
    lemma_push(s1, b[1]);
    lemma_push(s2, b[2]);
    lemma_push(s3, b[3]);
    lemma_push(s4, b[4]);
    lemma_push(s5, b[5]);
    lemma_push(s6, b[6]);
    lemma_push(s7, b[7]);
}

proof fn lemma_push(s: Seq<u8>, x: u8)
    ensures
        counts(s.push(x)) == counts(s) * 256 + x,
{
    assert(s.push(x).drop_last() =~= s);
}

proof fn lemma_info(ps: Seq<Piece>)
    requires
        all_whole(ps),
    ensures
        info_duration(elements(all_bytes(ps))) == length_of(ps),
        info_created(elements(all_bytes(ps))) == time_of(ps),
{
    let es = elements(all_bytes(ps));
    lemma_first_count(ps, 0x2A_D7B1);
    lemma_walk_all(ps);
    lemma_first_of(es, ps, 0x4489);
    lemma_first_of(es, ps, 0x4461);
    match first_of(ps, 0x4461) {
        Some(b) => {
            if b.len() == 8 {
                lemma_eight(b);
            }
        },
        None => {},
    }
}

/// An element of a segment.
pub enum Top {
    /// What the segment is.
    Info { wide: nat, pieces: Seq<Piece> },
    /// Its tracks.
    Tracks { wide: nat, tracks: Seq<Track> },
    /// Anything else.
    Other(Piece),
}

pub open spec fn top_piece(t: Top) -> Piece {
    match t {
        Top::Info { wide, pieces } => Piece { id: 0x1549_A966, wide, data: all_bytes(pieces) },
        Top::Tracks { wide, tracks } => Piece {
            id: 0x1654_AE6B,
            wide,
            data: all_bytes(tracks_pieces(tracks)),
        },
        Top::Other(p) => p,
    }
}

pub open spec fn top_fits(t: Top) -> bool {
    &&& whole(top_piece(t))
    &&& match t {
        Top::Info { pieces, .. } => all_whole(pieces),
        Top::Tracks { tracks, .. } => all_fit(tracks) && all_whole(tracks_pieces(tracks)),
        Top::Other(p) => p.id != 0x1549_A966 && p.id != 0x1654_AE6B && p.id != 0x1853_8067,
    }
}

pub open spec fn top_tells(t: Top) -> Seq<EventView> {
    match t {
        Top::Info { pieces, .. } => (match length_of(pieces) {
            Some(d) => seq![EventView::Field(FieldView::Duration(d))],
            None => seq![],
        }) + (match time_of(pieces) {
            Some(c) => seq![EventView::Field(FieldView::Created(c))],
            None => seq![],
        }),
        Top::Tracks { tracks, .. } => match first_size(tracks) {
            Some(d) => sized(d.0, d.1),
            None => seq![],
        },
        Top::Other(_) => seq![],
    }
}

pub open spec fn tops_bytes(ts: Seq<Top>) -> Seq<u8>
    decreases ts.len(),
{
    if ts.len() == 0 {
        seq![]
    } else {
        piece_bytes(top_piece(ts[0])) + tops_bytes(ts.drop_first())
    }
}

pub open spec fn tops_tell(ts: Seq<Top>) -> Seq<EventView>
    decreases ts.len(),
{
    if ts.len() == 0 {
        seq![]
    } else {
        top_tells(ts[0]) + tops_tell(ts.drop_first())
    }
}

pub open spec fn tops_fit(ts: Seq<Top>) -> bool {
    forall|i: int| 0 <= i < ts.len() ==> top_fits(#[trigger] ts[i])
}

spec fn walking() -> AnyMode {
    AnyMode::Ebml(EbmlMode::Walk)
}

proof fn lemma_unit(p: Piece, x: Seq<u8>, es: Seq<EventView>)
    requires
        whole(p),
        piece_bytes(p).len() + x.len() <= isize::MAX,
        p.id != 0x1853_8067,
        p.id == 0x1549_A966 ==> es == info_events(p.data),
        p.id == 0x1654_AE6B ==> es == crate::formats::bmff::opt_dims(
            tracks_dims(elements(p.data)),
        ),
        p.id != 0x1549_A966 && p.id != 0x1654_AE6B ==> es.len() == 0,
    ensures
        moves_on(any_local(walking(), piece_bytes(p) + x), walking(), piece_bytes(p).len() as int, es),
        piece_bytes(p).len() >= 2,
{
    lemma_piece(p, x);
    let b = piece_bytes(p) + x;
    assert(b.len() == piece_bytes(p).len() + x.len());
    assert(es.len() == 0 ==> es =~= seq![]);
    reveal(any_local);
}

proof fn lemma_top(t: Top, x: Seq<u8>)
    requires
        top_fits(t),
        piece_bytes(top_piece(t)).len() + x.len() <= isize::MAX,
    ensures
        moves_on(
            any_local(walking(), piece_bytes(top_piece(t)) + x),
            walking(),
            piece_bytes(top_piece(t)).len() as int,
            top_tells(t),
        ),
        piece_bytes(top_piece(t)).len() >= 2,
{
    let p = top_piece(t);
    match t {
        Top::Info { pieces, .. } => {
            lemma_info(pieces);
            assert(info_events(p.data) =~= top_tells(t));
        },
        Top::Tracks { tracks, .. } => {
            let ps = tracks_pieces(tracks);
            lemma_walk_all(ps);
            lemma_tracks(elements(all_bytes(ps)), tracks);
            assert(crate::formats::bmff::opt_dims(tracks_dims(elements(p.data))) =~= top_tells(t));
        },
        Top::Other(_) => {},
    }
    lemma_unit(p, x, top_tells(t));
}

proof fn lemma_tops(f: Seq<u8>, pos: int, ts: Seq<Top>, c: CollectorView)
    requires
        0 <= pos <= f.len() <= isize::MAX,
        tops_fit(ts),
        tail(f, pos) == tops_bytes(ts),
    ensures
        unit_run(f, walking(), pos, c) == handled_all(c, tops_tell(ts)),
    decreases ts.len(),
{
    let b = tail(f, pos);
    assert(b.len() == f.len() - pos);
    if ts.len() == 0 {
        assert(any_local(walking(), b) matches Local::Stop { demand: Demand::Done, events, .. }
            && events.len() == 0) by {
            reveal(any_local);
        }
        assert(handled_all(c, seq![]) == c);
    } else {
        let t = ts[0];
        let m = ts.drop_first();
        let n = piece_bytes(top_piece(t)).len() as int;
        assert(top_fits(t));
        lemma_top(t, tops_bytes(m));
        lemma_moves_on(f, walking(), pos, walking(), n, top_tells(t), c);
        assert(tail(f, pos + n) =~= tail(b, n));
        assert(tail(b, n) =~= tops_bytes(m));
        assert forall|i: int| 0 <= i < m.len() implies top_fits(#[trigger] m[i]) by {
            assert(m[i] == ts[i + 1]);
        }
        lemma_tops(f, pos + n, m, handled_all(c, top_tells(t)));
        lemma_after(c, top_tells(t), tops_tell(m));
    }
}

/// A file: the header with its elements, of which the `kind`-th is the type of document, a
/// segment, and its elements. In how many bytes the size of the segment is written, and that
/// size, do not matter; all bits of it set stand for one that is not known.
pub struct File {
    pub wide: nat,
    pub header: Seq<Piece>,
    pub kind: int,
    pub span: nat,
    pub size: int,
    pub tops: Seq<Top>,
}

pub open spec fn header_piece(g: File) -> Piece {
    Piece { id: 0x1A45_DFA3, wide: g.wide, data: all_bytes(g.header) }
}

pub open spec fn segment_bytes(g: File) -> Seq<u8> {
    in_bytes(4, 0x1853_8067) + in_bytes(g.span, g.size + marker(g.span as int))
}

pub open spec fn file_bytes(g: File) -> Seq<u8> {
    piece_bytes(header_piece(g)) + (segment_bytes(g) + tops_bytes(g.tops))
}

pub open spec fn file_fits(g: File) -> bool {
    &&& whole(header_piece(g))
    &&& all_whole(g.header)
    &&& 0 <= g.kind < g.header.len()
    &&& g.header[g.kind].id == 0x4282
    &&& forall|i: int| 0 <= i < g.kind ==> (#[trigger] g.header[i]).id != 0x4282
    &&& head_bytes(header_piece(g)).len() + all_bytes(g.header.take(g.kind + 1)).len() <= 64
    &&& all_bytes(g.header).len() < 4096
    &&& 1 <= g.span <= 8
    &&& 0 <= g.size < marker(g.span as int)
    &&& tops_fit(g.tops)
}

proof fn lemma_segment(g: File, x: Seq<u8>)
    requires
        file_fits(g),
        segment_bytes(g).len() + x.len() <= isize::MAX,
    ensures
        moves_on(
            any_local(walking(), segment_bytes(g) + x),
            walking(),
            segment_bytes(g).len() as int,
            seq![],
        ),
        segment_bytes(g).len() >= 2,
{
    let b = segment_bytes(g) + x;
    let s = g.size + marker(g.span as int);
    lemma_first(4, 0x1853_8067);
    lemma_first(g.span, s);
    let (i, z) = (in_bytes(4, 0x1853_8067), in_bytes(g.span, s));
    assert(b[0] == i[0] && b[4] == z[0]);
    assert(b.subrange(0, 4) =~= i);
    let t = tail(b, 4);
    assert(t =~= z + x);
    assert(t[0] == z[0]);
    assert(element_header(b) matches Some(h) && h.id == 0x1853_8067 && h.header_len == 4 + g.span);
    assert(header_need(b) == Some(4 + g.span as int));
    reveal(any_local);
}

proof fn lemma_split(ps: Seq<Piece>, k: int)
    requires
        0 <= k <= ps.len(),
    ensures
        all_bytes(ps) == all_bytes(ps.take(k)) + all_bytes(ps.skip(k)),
    decreases k,
{
    if k == 0 {
        assert(ps.skip(0) =~= ps);
        assert(all_bytes(ps.take(0)) + all_bytes(ps) =~= all_bytes(ps));
    } else {
        let m = ps.drop_first();
        lemma_split(m, k - 1);
        let t = ps.take(k);
        assert(t[0] == ps[0] && t.drop_first() =~= m.take(k - 1));
        assert(ps.skip(k) =~= m.skip(k - 1));
        assert(piece_bytes(ps[0]) + (all_bytes(m.take(k - 1)) + all_bytes(m.skip(k - 1)))
            =~= piece_bytes(ps[0]) + all_bytes(m.take(k - 1)) + all_bytes(m.skip(k - 1)));
    }
}

proof fn lemma_first_kind(ps: Seq<Piece>, k: int)
    requires
        0 <= k < ps.len(),
        ps[k].id == 0x4282,
        forall|i: int| 0 <= i < k ==> (#[trigger] ps[i]).id != 0x4282,
    ensures
        first_of(ps.take(k + 1), 0x4282) == Some(ps[k].data),
{
    let (a, b) = (ps.take(k), seq![ps[k]]);
    assert(ps.take(k + 1) =~= a + b);
    assert forall|i: int| 0 <= i < a.len() implies (#[trigger] a[i]).id != 0x4282 by {
        assert(a[i] == ps[i]);
    }
    lemma_passes(a, b, 0x4282);
    assert(b[0] == ps[k]);
}

/// The type of document in a header, of which the end may be cut off.
proof fn lemma_kind_in(h: Piece, hs: Seq<Piece>, x: Seq<u8>)
    requires
        whole(h),
        h.id == 0x1A45_DFA3,
        all_whole(hs),
        first_of(hs, 0x4282) is Some,
    ensures
        ({
            let scan = head_bytes(h) + (all_bytes(hs) + x);
            &&& element_header(scan) matches Some(e) && e.id == 0x1A45_DFA3 && first_element(
                elements(tail(scan, e.header_len as int)),
                0x4282,
            ) == first_of(hs, 0x4282)
        }),
{
    let scan = head_bytes(h) + (all_bytes(hs) + x);
    lemma_head(h, all_bytes(hs) + x);
    assert(tail(scan, head_bytes(h).len() as int) =~= all_bytes(hs) + x);
    lemma_walk(hs, x);
    lemma_first_of(elements(all_bytes(hs) + x), hs, 0x4282);
}

/// The first `n` bytes, which hold `a` and a part of `b`.
proof fn lemma_cut(a: Seq<u8>, b: Seq<u8>, n: int) -> (x: Seq<u8>)
    requires
        a.len() <= n,
    ensures
        (if (a + b).len() < n {
            a + b
        } else {
            (a + b).subrange(0, n)
        }) == a + x,
{
    let scan = if (a + b).len() < n {
        a + b
    } else {
        (a + b).subrange(0, n)
    };
    let x = tail(scan, a.len() as int);
    assert(scan =~= a + x);
    x
}

/// The type of document, as far as the first bytes of the file hold it.
#[verifier::rlimit(40)]
proof fn lemma_kind(g: File)
    requires
        file_fits(g),
    ensures
        doctype(file_bytes(g)) == Some(g.header[g.kind].data),
        file_bytes(g).len() >= 4,
        file_bytes(g)[0] == 0x1A && file_bytes(g)[1] == 0x45 && file_bytes(g)[2] == 0xDF
            && file_bytes(g)[3] == 0xA3,
{
    let f = file_bytes(g);
    let h = header_piece(g);
    let hs = g.header.take(g.kind + 1);
    lemma_split(g.header, g.kind + 1);
    let rest = all_bytes(g.header.skip(g.kind + 1)) + (segment_bytes(g) + tops_bytes(g.tops));
    let a = head_bytes(h) + all_bytes(hs);
    assert(f =~= a + rest);
    let x = lemma_cut(a, rest, 64);
    assert(a + x =~= head_bytes(h) + (all_bytes(hs) + x));
    assert forall|i: int| 0 <= i < hs.len() implies whole(#[trigger] hs[i]) by {
        assert(hs[i] == g.header[i]);
    }
    lemma_first_kind(g.header, g.kind);
    lemma_kind_in(h, hs, x);
    lemma_front(g);
}

proof fn lemma_front(g: File)
    requires
        whole(header_piece(g)),
    ensures
        file_bytes(g).len() >= 4,
        file_bytes(g)[0] == 0x1A && file_bytes(g)[1] == 0x45 && file_bytes(g)[2] == 0xDF
            && file_bytes(g)[3] == 0xA3,
{
    lemma_magic();
    let f = file_bytes(g);
    let i = in_bytes(4, 0x1A45_DFA3);
    assert(f[0] == i[0] && f[1] == i[1] && f[2] == i[2] && f[3] == i[3]);
}

proof fn lemma_magic()
    ensures
        in_bytes(4, 0x1A45_DFA3).len() == 4,
        in_bytes(4, 0x1A45_DFA3) == seq![0x1Au8, 0x45u8, 0xDFu8, 0xA3u8],
{
    reveal_with_fuel(in_bytes, 5);
    assert(0x1A45_DFA3int / 256 == 0x1A_45DF && 0x1A45_DFA3int % 256 == 0xA3);
    assert(0x1A_45DFint / 256 == 0x1A45 && 0x1A_45DFint % 256 == 0xDF);
    assert(0x1A45int / 256 == 0x1A && 0x1A45int % 256 == 0x45);
    assert(in_bytes(4, 0x1A45_DFA3) =~= seq![0x1Au8, 0x45u8, 0xDFu8, 0xA3u8]);
}

proof fn lemma_format(g: File)
    requires
        file_fits(g),
    ensures
        probed(file_bytes(g)) == (if g.header[g.kind].data == lit("webm") {
            FileFormat::Webm
        } else {
            FileFormat::Mkv
        }),
{
    lemma_kind(g);
    lemma_not_boxes(g);
    lemma_only_ebml(file_bytes(g), g.header[g.kind].data);
}

/// The magic number tells a file from those of other formats.
#[verifier::rlimit(40)]
proof fn lemma_only_ebml(f: Seq<u8>, kind: Seq<u8>)
    requires
        f.len() >= 4,
        f[0] == 0x1A && f[1] == 0x45 && f[2] == 0xDF && f[3] == 0xA3,
        f.len() >= 12 ==> f.subrange(4, 8) != lit("ftyp"),
        doctype(f) == Some(kind),
    ensures
        probed(f) == (if kind == lit("webm") {
            FileFormat::Webm
        } else {
            FileFormat::Mkv
        }),
{
    reveal_strlit("RIFF");
    vstd::string::is_ascii_spec_bytes("RIFF");
    reveal_strlit("GIF87a");
    vstd::string::is_ascii_spec_bytes("GIF87a");
    reveal_strlit("GIF89a");
    vstd::string::is_ascii_spec_bytes("GIF89a");
    assert(lit("RIFF")[0] == 0x52 && lit("GIF87a")[0] == 0x47 && lit("GIF89a")[0] == 0x47);
    assert(f.subrange(0, 4)[0] == f[0]);
    if f.len() >= 6 {
        assert(f.subrange(0, 6)[0] == f[0]);
    }
}

/// What stands behind the magic number is a size, not the type of a box.
proof fn lemma_not_boxes(g: File)
    requires
        file_fits(g),
    ensures
        file_bytes(g).len() >= 12 ==> file_bytes(g).subrange(4, 8) != lit("ftyp"),
{
    let f = file_bytes(g);
    let h = header_piece(g);
    lemma_first(4, 0x1A45_DFA3);
    let s = h.data.len() + marker(g.wide as int);
    lemma_first(g.wide, s);
    let z = in_bytes(g.wide, s);
    assert(f[4] == z[0]);
    reveal_strlit("ftyp");
    vstd::string::is_ascii_spec_bytes("ftyp");
    assert(lit("ftyp")[0] == 0x66 && lit("ftyp")[1] == 0x74);
    if f.len() >= 12 && f.subrange(4, 8) == lit("ftyp") {
        assert(f.subrange(4, 8)[0] == f[4]);
        assert(g.wide == 2);
        lemma_spans();
        lemma_in_bytes(2, s);
        assert(z[0] == s / 256);
    }
}

/// A Matroska or WebM file is read as what the elements of its segment tell.
#[verifier::rlimit(40)]
pub proof fn matroska_elements_are_read(g: File, l: Limits)
    requires
        file_fits(g),
        file_bytes(g).len() <= isize::MAX,
    ensures
        metadata_of(file_bytes(g), l) == Some(
            finalized(
                handled_all(nothing(l), tops_tell(g.tops)),
                if g.header[g.kind].data == lit("webm") {
                    FileFormat::Webm
                } else {
                    FileFormat::Mkv
                },
            ),
        ),
{
    let f = file_bytes(g);
    let h = header_piece(g);
    let y = segment_bytes(g) + tops_bytes(g.tops);
    lemma_format(g);
    lemma_straight(f, walking(), 0);
    lemma_read(f, l);
    assert(tail(f, 0) =~= f);
    let n = piece_bytes(h).len() as int;
    lemma_unit(h, y, seq![]);
    let c = nothing(l);
    assert(handled_all(c, seq![]) == c);
    lemma_moves_on(f, walking(), 0, walking(), n, seq![], c);
    assert(tail(f, n) =~= y);
    lemma_segment(g, tops_bytes(g.tops));
    let k = segment_bytes(g).len() as int;
    lemma_moves_on(f, walking(), n, walking(), k, seq![], c);
    assert(tail(f, n + k) =~= tail(y, k));
    assert(tail(y, k) =~= tops_bytes(g.tops));
    lemma_tops(f, n + k, g.tops, c);
}

/// A number in double precision reads back from its eight bytes: the power of two, and the
/// digits behind the first one.
pub proof fn long_floats_are_read(m: int, k: int)
    requires
        0x10_0000_0000_0000 <= m < 0x20_0000_0000_0000,
        1 <= k + 1075 < 0x7FF,
    ensures
        float(in_bytes(8, (k + 1075) * 0x10_0000_0000_0000 + (m - 0x10_0000_0000_0000))) == Some(
            Binary { m: m as nat, k },
        ),
{
    let x = (k + 1075) * 0x10_0000_0000_0000 + (m - 0x10_0000_0000_0000);
    lemma_spans();
    lemma_in_bytes(8, x);
    let b = in_bytes(8, x);
    lemma_counts(b);
    lemma_eight(b);
    assert(x / 0x10_0000_0000_0000 == k + 1075);
    assert(x % 0x10_0000_0000_0000 == m - 0x10_0000_0000_0000);
}

/// So is one in single precision, in four bytes.
pub proof fn short_floats_are_read(m: int, k: int)
    requires
        0x80_0000 <= m < 0x100_0000,
        1 <= k + 150 < 0xFF,
    ensures
        float(in_bytes(4, (k + 150) * 0x80_0000 + (m - 0x80_0000))) == Some(
            Binary { m: m as nat, k },
        ),
{
    let x = (k + 150) * 0x80_0000 + (m - 0x80_0000);
    lemma_spans();
    lemma_in_bytes(4, x);
    let b = in_bytes(4, x);
    lemma_counts(b);
    let s0: Seq<u8> = seq![];
    let s1 = s0.push(b[0]);
    let s2 = s1.push(b[1]);
    let s3 = s2.push(b[2]);
    let s4 = s3.push(b[3]);
    assert(s4 =~= b);
    lemma_push(s0, b[0]);
    lemma_push(s1, b[1]);
    lemma_push(s2, b[2]);
    lemma_push(s3, b[3]);
    assert(be32(b, 0) == x);
    assert(x / 0x80_0000 == k + 150);
    assert(x % 0x80_0000 == m - 0x80_0000);
}

/// A length of `m` times two to the `k` units of `scale` nanoseconds, in whole milliseconds.
pub proof fn lengths_are_in_milliseconds(m: nat, k: int, scale: u64)
    ensures
        millis(Binary { m, k }, scale) matches Some(ms) ==> ({
            let (a, b) = if k >= 0 {
                (m * scale * pow2(k as nat), 1_000_000)
            } else {
                (m * scale, 1_000_000 * pow2((-k) as nat))
            };
            ms * b <= a < (ms + 1) * b
        }),
{
    let p = m as int * scale as int;
    assert(p >= 0) by (nonlinear_arith)
        requires
            p == m as int * scale as int,
    ;
    let (a, b) = if k >= 0 {
        (p * pow2(k as nat) as int, 1_000_000int)
    } else {
        (p, 1_000_000 * pow2((-k) as nat) as int)
    };
    if k >= 0 {
        lemma_pow2_pos(k as nat);
        assert(a >= 0) by (nonlinear_arith)
            requires
                a == p * pow2(k as nat) as int,
                p >= 0,
                pow2(k as nat) > 0,
        ;
    } else {
        lemma_pow2_pos((-k) as nat);
    }
    let q = a / b;
    vstd::arithmetic::div_mod::lemma_fundamental_div_mod(a, b);
    vstd::arithmetic::div_mod::lemma_mod_bound(a, b);
    assert(q * b <= a < (q + 1) * b) by (nonlinear_arith)
        requires
            a == b * q + a % b,
            0 <= a % b < b,
    ;
}

/// A count of nanoseconds from the start of 2001 is turned into the time that lies so many
/// whole seconds behind it, in UTC: 97 years behind the start of 1904.
pub proof fn matroska_times_invert(ns: int)
    requires
        -35430 * 86400 <= ns / 1_000_000_000,
        ns < 0x8000_0000_0000_0000,
    ensures
        is_time(time_2001(ns)),
        since_1904(time_2001(ns)) == since_1904(
            DateTimeParts {
                year: 2001,
                month: 1,
                day: 1,
                hour: 0,
                minute: 0,
                second: 0,
                tz_offset_min: Some(0),
            },
        ) + ns / 1_000_000_000,
        time_2001(ns).tz_offset_min == Some(0i16),
{
    let secs = ns / 1_000_000_000 + 35430 * 86400;
    assert(secs < too_late());
    movie_times_invert(secs as u64);
    assert(secs / 86400 - 24107 == ns / 1_000_000_000 / 86400 + 11323);
    assert(secs % 86400 == ns / 1_000_000_000 % 86400);
}

} // verus!
