//! Stripping WebP twice is stripping it once.
use vstd::prelude::*;

use crate::adapters::strip_slice::stripped;
use crate::bytes::{le32, le32_bytes, lit, tail};
use crate::formats::webp::riff_webp;
use crate::laws::stripping::orientation_round_trips;
use crate::model::FileFormat;
use crate::normalize::or;
use crate::probe::probed;
use crate::strip::exif_synth::{orientation_bytes, riff_bytes};
use crate::strip::jpeg::tiff_orientation;
use crate::strip::webp::{
    chunk_end, data_end, exif_chunk, last_orientation, new_flags, rebuild, rebuild_step, riff_kind,
    webp_body, with_flags, Rebuilt,
};
use crate::strip::{
    applied, applied_all, nothing_stripped, strip_run, AnyStrip, AnyStripper, CmdView,
    StripOptions, Stripped,
};

verus! {

/// A whole chunk and nothing else.
pub open spec fn is_chunk(c: Seq<u8>) -> bool {
    c.len() >= 8 && chunk_end(c) == c.len()
}

/// A chunk that is not all there, or nothing.
pub open spec fn is_remnant(r: Seq<u8>) -> bool {
    r.len() == 0 || (r.len() >= 8 && chunk_end(r) > r.len())
}

/// The chunks that follow each other in `t`.
pub open spec fn riff_chunks(t: Seq<u8>) -> Seq<Seq<u8>>
    decreases t.len(),
{
    if t.len() < 8 || chunk_end(t) > t.len() {
        seq![]
    } else {
        seq![t.subrange(0, chunk_end(t))] + riff_chunks(tail(t, chunk_end(t)))
    }
}

/// What is left of `t` behind its chunks.
pub open spec fn riff_rest(t: Seq<u8>) -> Seq<u8>
    decreases t.len(),
{
    if t.len() < 8 {
        seq![]
    } else if chunk_end(t) > t.len() {
        t
    } else {
        riff_rest(tail(t, chunk_end(t)))
    }
}

/// The chunks put together.
pub open spec fn flat(l: Seq<Seq<u8>>) -> Seq<u8>
    decreases l.len(),
{
    if l.len() == 0 {
        seq![]
    } else {
        l[0] + flat(l.drop_first())
    }
}

pub open spec fn all_chunks(l: Seq<Seq<u8>>) -> bool {
    forall|i: int| 0 <= i < l.len() ==> is_chunk(#[trigger] l[i])
}

/// The type of a chunk.
pub open spec fn fourcc(c: Seq<u8>) -> Seq<u8> {
    c.subrange(0, 4)
}

pub proof fn lemma_chunk_front(c: Seq<u8>, x: Seq<u8>)
    requires
        is_chunk(c),
    ensures
        ({
            let t = c + x;
            &&& t.len() >= 8
            &&& chunk_end(t) == c.len()
            &&& data_end(t) == data_end(c)
            &&& t.subrange(0, chunk_end(t)) == c
            &&& tail(t, chunk_end(t)) == x
            &&& fourcc(t) == fourcc(c)
            &&& t.subrange(8, data_end(t)) == c.subrange(8, data_end(c))
        }),
{
    let t = c + x;
    assert(le32(t, 4) == le32(c, 4));
    assert(t.subrange(0, c.len() as int) =~= c);
    assert(tail(t, c.len() as int) =~= x);
    assert(fourcc(t) =~= fourcc(c));
    assert(t.subrange(8, data_end(c)) =~= c.subrange(8, data_end(c)));
}

/// Chunks that are put together come apart again.
proof fn lemma_parse(l: Seq<Seq<u8>>, rest: Seq<u8>)
    requires
        all_chunks(l),
        is_remnant(rest),
    ensures
        riff_chunks(flat(l) + rest) == l,
        riff_rest(flat(l) + rest) == rest,
    decreases l.len(),
{
    let t = flat(l) + rest;
    if l.len() == 0 {
        assert(t =~= rest);
        assert(riff_chunks(t) =~= l);
    } else {
        let x = flat(l.drop_first()) + rest;
        assert(t =~= l[0] + x);
        lemma_chunk_front(l[0], x);
        lemma_parse(l.drop_first(), rest);
        assert(riff_chunks(t) =~= seq![l[0]] + l.drop_first());
        assert(seq![l[0]] + l.drop_first() =~= l);
    }
}

pub proof fn lemma_pieces(t: Seq<u8>)
    ensures
        all_chunks(riff_chunks(t)),
        is_remnant(riff_rest(t)),
    decreases t.len(),
{
    if t.len() >= 8 && chunk_end(t) <= t.len() {
        let c = t.subrange(0, chunk_end(t));
        assert(le32(c, 4) == le32(t, 4));
        lemma_pieces(tail(t, chunk_end(t)));
        let l = riff_chunks(tail(t, chunk_end(t)));
        assert forall|i: int| 0 <= i < riff_chunks(t).len() implies is_chunk(
            #[trigger] riff_chunks(t)[i],
        ) by {
            if i > 0 {
                assert(riff_chunks(t)[i] == l[i - 1]);
            }
        }
    }
}

/// The container after the chunks of `l`.
pub open spec fn rebuilt(l: Seq<Seq<u8>>, r: Rebuilt, opts: StripOptions) -> Rebuilt
    decreases l.len(),
{
    if l.len() == 0 {
        r
    } else {
        rebuilt(l.drop_first(), rebuild_step(l[0], r, opts), opts)
    }
}

proof fn lemma_rebuilt(t: Seq<u8>, r: Rebuilt, opts: StripOptions)
    ensures
        rebuild(t, r, opts) == (rebuilt(riff_chunks(t), r, opts), riff_rest(t)),
    decreases t.len(),
{
    if t.len() >= 8 && chunk_end(t) <= t.len() {
        let c = t.subrange(0, chunk_end(t));
        assert(le32(c, 4) == le32(t, 4));
        assert(c.subrange(0, 4) =~= t.subrange(0, 4));
        assert(c.subrange(0, chunk_end(c)) =~= c);
        assert(rebuild_step(c, r, opts) == rebuild_step(t, r, opts));
        let next = tail(t, chunk_end(t));
        lemma_rebuilt(next, rebuild_step(t, r, opts), opts);
        assert(riff_chunks(t).drop_first() =~= riff_chunks(next));
    }
}

/// The chunks that stay.
pub open spec fn kept(l: Seq<Seq<u8>>, opts: StripOptions) -> Seq<Seq<u8>>
    decreases l.len(),
{
    if l.len() == 0 {
        seq![]
    } else if riff_kind(fourcc(l[0]), opts) is Some {
        kept(l.drop_first(), opts)
    } else {
        seq![l[0]] + kept(l.drop_first(), opts)
    }
}

pub open spec fn none_goes(l: Seq<Seq<u8>>, opts: StripOptions) -> bool {
    forall|i: int| 0 <= i < l.len() ==> riff_kind(fourcc(#[trigger] l[i]), opts) is None
}

/// The chunks with the orientation put in: behind the first VP8X chunk, else at the end.
pub open spec fn placed(l: Seq<Seq<u8>>, o: Option<u16>) -> Seq<Seq<u8>>
    decreases l.len(),
{
    match o {
        None => l,
        Some(v) => if l.len() == 0 {
            seq![exif_chunk(o)]
        } else if fourcc(l[0]) == lit("VP8X") {
            seq![l[0], exif_chunk(o)] + l.drop_first()
        } else {
            seq![l[0]] + placed(l.drop_first(), o)
        },
    }
}

/// A VP8X chunk with flags.
pub open spec fn is_flagged(c: Seq<u8>) -> bool {
    fourcc(c) == lit("VP8X") && le32(c, 4) >= 1
}

/// Where the flags stand, in bytes from `base` on.
pub open spec fn flag_at(l: Seq<Seq<u8>>, base: int) -> Option<int>
    decreases l.len(),
{
    if l.len() == 0 {
        None
    } else {
        or(
            flag_at(l.drop_first(), base + l[0].len()),
            if is_flagged(l[0]) {
                Some(base + 8)
            } else {
                None
            },
        )
    }
}

/// Whether there is a colour profile among the chunks.
pub open spec fn has_icc(l: Seq<Seq<u8>>) -> bool
    decreases l.len(),
{
    l.len() > 0 && (fourcc(l[0]) == lit("ICCP") || has_icc(l.drop_first()))
}

pub proof fn lemma_kept(l: Seq<Seq<u8>>, opts: StripOptions)
    requires
        all_chunks(l),
    ensures
        all_chunks(kept(l, opts)),
        none_goes(kept(l, opts), opts),
    decreases l.len(),
{
    if l.len() > 0 {
        assert(all_chunks(l.drop_first())) by {
            assert forall|i: int| 0 <= i < l.drop_first().len() implies is_chunk(
                #[trigger] l.drop_first()[i],
            ) by {
                assert(l.drop_first()[i] == l[i + 1]);
            }
        }
        lemma_kept(l.drop_first(), opts);
        let k = kept(l, opts);
        let m = kept(l.drop_first(), opts);
        if riff_kind(fourcc(l[0]), opts) is None {
            assert forall|i: int| 0 <= i < k.len() implies is_chunk(#[trigger] k[i]) && riff_kind(
                fourcc(k[i]),
                opts,
            ) is None by {
                if i > 0 {
                    assert(k[i] == m[i - 1]);
                } else {
                    assert(is_chunk(l[0]));
                }
            }
        }
    }
}

/// The EXIF chunk is one, holds the orientation, and is no VP8X chunk.
pub proof fn lemma_exif_chunk(v: u16)
    ensures
        ({
            let c = exif_chunk(Some(v));
            &&& is_chunk(c)
            &&& fourcc(c) == lit("EXIF")
            &&& data_end(c) == 34
            &&& c.len() == 34
            &&& c.subrange(8, 34) == orientation_bytes(v)
            &&& !is_flagged(c)
            &&& fourcc(c) != lit("VP8X")
        }),
{
    reveal_strlit("EXIF");
    reveal_strlit("VP8X");
    vstd::string::is_ascii_spec_bytes("EXIF");
    vstd::string::is_ascii_spec_bytes("VP8X");
    assert(lit("EXIF")[0] == 0x45);
    assert(lit("VP8X")[0] == 0x56);
    assert(lit("EXIF").len() == 4);
    crate::laws::stripping::lemma_orientation_len(v);
    let d = orientation_bytes(v);
    let c = riff_bytes(lit("EXIF"), d);
    assert(c.len() == 34);
    assert(c[4] == 26 && c[5] == 0 && c[6] == 0 && c[7] == 0);
    assert(le32(c, 4) == 26);
    assert(fourcc(c) =~= lit("EXIF"));
    assert(c.subrange(8, 34) =~= d);
}

proof fn lemma_flag_base(l: Seq<Seq<u8>>, base: int, d: int)
    ensures
        flag_at(l, base + d) == (match flag_at(l, base) {
            Some(i) => Some(i + d),
            None => None,
        }),
    decreases l.len(),
{
    if l.len() > 0 {
        lemma_flag_base(l.drop_first(), base + l[0].len(), d);
        assert(base + d + l[0].len() == base + l[0].len() + d);
    }
}

proof fn lemma_flag_exif(l: Seq<Seq<u8>>, base: int, v: u16)
    ensures
        flag_at(seq![exif_chunk(Some(v))] + l, base) == flag_at(l, base + 34),
{
    lemma_exif_chunk(v);
    let m = seq![exif_chunk(Some(v))] + l;
    assert(m.drop_first() =~= l);
}

proof fn lemma_icc_word()
    ensures
        lit("VP8X") != lit("ICCP"),
{
    reveal_strlit("VP8X");
    reveal_strlit("ICCP");
    vstd::string::is_ascii_spec_bytes("VP8X");
    vstd::string::is_ascii_spec_bytes("ICCP");
    assert(lit("VP8X")[0] == 0x56);
    assert(lit("ICCP")[0] == 0x49);
}

/// What the container comes to, in terms of its chunks.
#[verifier::rlimit(40)]
proof fn lemma_rebuilt_body(l: Seq<Seq<u8>>, r: Rebuilt, opts: StripOptions)
    requires
        all_chunks(l),
    ensures
        ({
            let s = rebuilt(l, r, opts);
            let p = placed(kept(l, opts), r.orientation);
            &&& s.body + exif_chunk(s.orientation) == r.body + flat(p)
            &&& s.flags == or(flag_at(p, r.body.len() as int), r.flags)
            &&& s.icc == (r.icc || has_icc(kept(l, opts)))
        }),
    decreases l.len(),
{
    let k = kept(l, opts);
    let p = placed(k, r.orientation);
    let s = rebuilt(l, r, opts);
    if l.len() == 0 {
        match r.orientation {
            None => {
                assert(flat(p) =~= seq![]);
                assert(s.body + exif_chunk(s.orientation) =~= r.body + flat(p));
            },
            Some(v) => {
                lemma_exif_chunk(v);
                assert(p.drop_first() =~= seq![]);
                reveal_with_fuel(flat, 2);
                reveal_with_fuel(flag_at, 2);
                assert(flat(p) =~= exif_chunk(r.orientation));
            },
        }
    } else {
        let c = l[0];
        let next = l.drop_first();
        assert(all_chunks(next)) by {
            assert forall|i: int| 0 <= i < next.len() implies is_chunk(#[trigger] next[i]) by {
                assert(next[i] == l[i + 1]);
            }
        }
        assert(is_chunk(c));
        let q = rebuild_step(c, r, opts);
        lemma_rebuilt_body(next, q, opts);
        let m = kept(next, opts);
        assert(c.subrange(0, chunk_end(c)) =~= c);
        if riff_kind(fourcc(c), opts) is Some {
        } else {
            assert(k.drop_first() =~= m);
            assert(k[0] == c);
            let base = r.body.len() as int;
            assert(has_icc(k) == (fourcc(c) == lit("ICCP") || has_icc(m)));
            if fourcc(c) == lit("VP8X") {
                lemma_icc_word();
                assert(q.orientation is None);
                assert(q.body =~= r.body + c + exif_chunk(r.orientation));
                match r.orientation {
                    Some(v) => {
                        lemma_exif_chunk(v);
                        let e = exif_chunk(r.orientation);
                        assert(p =~= seq![c] + (seq![e] + m));
                        assert(p.drop_first() =~= seq![e] + m);
                        assert((seq![e] + m).drop_first() =~= m);
                        assert((seq![e] + m)[0] == e);
                        assert(flat(seq![e] + m) == e + flat(m));
                        assert(flat(p) =~= c + (e + flat(m)));
                        assert(q.body + flat(m) =~= r.body + flat(p));
                        lemma_flag_exif(m, base + c.len(), v);
                        assert(q.body.len() == base + c.len() + 34);
                    },
                    None => {
                        assert(p.drop_first() =~= m);
                        assert(q.body + flat(m) =~= r.body + flat(p));
                        assert(q.body.len() == base + c.len());
                    },
                }
            } else {
                let n = placed(m, r.orientation);
                assert(p.drop_first() =~= n);
                assert(p[0] == c);
                assert(q.body + flat(n) =~= r.body + flat(p));
                assert(q.body.len() == base + c.len());
            }
        }
    }
}

/// The chunks with the flags set to `x`.
pub open spec fn reflagged(l: Seq<Seq<u8>>, x: u8) -> Seq<Seq<u8>>
    decreases l.len(),
{
    if l.len() == 0 {
        seq![]
    } else if flag_at(l.drop_first(), 0) is None && is_flagged(l[0]) {
        seq![l[0].update(8, x)] + l.drop_first()
    } else {
        seq![l[0]] + reflagged(l.drop_first(), x)
    }
}

/// A flagged chunk keeps its shape under other flags.
proof fn lemma_update(c: Seq<u8>, x: u8)
    requires
        is_chunk(c),
        is_flagged(c),
    ensures
        ({
            let d = c.update(8, x);
            &&& is_chunk(d)
            &&& d.len() == c.len()
            &&& fourcc(d) == fourcc(c)
            &&& is_flagged(d)
            &&& d[8] == x
        }),
{
    let d = c.update(8, x);
    assert(le32(d, 4) == le32(c, 4));
    assert(fourcc(d) =~= fourcc(c));
}

pub proof fn lemma_rest_chunks(l: Seq<Seq<u8>>)
    requires
        all_chunks(l),
        l.len() > 0,
    ensures
        all_chunks(l.drop_first()),
        is_chunk(l[0]),
{
    assert forall|i: int| 0 <= i < l.drop_first().len() implies is_chunk(
        #[trigger] l.drop_first()[i],
    ) by {
        assert(l.drop_first()[i] == l[i + 1]);
    }
    assert(is_chunk(l[0]));
}

/// Setting the flags is setting one byte.
pub proof fn lemma_reflagged(l: Seq<Seq<u8>>, x: u8)
    requires
        all_chunks(l),
    ensures
        all_chunks(reflagged(l, x)),
        flag_at(reflagged(l, x), 0) == flag_at(l, 0),
        flag_at(l, 0) matches Some(i) ==> {
            &&& 8 <= i < flat(l).len()
            &&& flat(reflagged(l, x)) == flat(l).update(i, x)
        },
        flag_at(l, 0) is None ==> reflagged(l, x) == l,
    decreases l.len(),
{
    if l.len() == 0 {
        assert(reflagged(l, x) =~= l);
    } else {
        lemma_rest_chunks(l);
        let m = l.drop_first();
        let c = l[0];
        lemma_reflagged(m, x);
        lemma_flag_base(m, 0, c.len() as int);
        let r = reflagged(l, x);
        if flag_at(m, 0) is None && is_flagged(c) {
            lemma_update(c, x);
            let d = c.update(8, x);
            assert(r.drop_first() =~= m);
            assert(r[0] == d);
            lemma_flag_base(m, 0, d.len() as int);
            assert(flat(r) =~= flat(l).update(8, x));
            assert forall|i: int| 0 <= i < r.len() implies is_chunk(#[trigger] r[i]) by {
                if i > 0 {
                    assert(r[i] == m[i - 1]);
                }
            }
        } else {
            let n = reflagged(m, x);
            assert(r.drop_first() =~= n);
            assert(r[0] == c);
            lemma_flag_base(n, 0, c.len() as int);
            assert forall|i: int| 0 <= i < r.len() implies is_chunk(#[trigger] r[i]) by {
                if i > 0 {
                    assert(r[i] == n[i - 1]);
                }
            }
            match flag_at(m, 0) {
                Some(i) => {
                    assert(flat(r) =~= flat(l).update(i + c.len(), x));
                },
                None => {
                    assert(r =~= l);
                },
            }
        }
    }
}

/// Where the flags stand does not depend on the orientation put in, but for the offset.
proof fn lemma_placed_flags(l: Seq<Seq<u8>>, o: Option<u16>)
    ensures
        flag_at(placed(l, o), 0) is Some <==> flag_at(l, 0) is Some,
    decreases l.len(),
{
    match o {
        None => {},
        Some(v) => {
            lemma_exif_chunk(v);
            let p = placed(l, o);
            if l.len() == 0 {
                assert(p.drop_first() =~= seq![]);
                reveal_with_fuel(flag_at, 2);
            } else {
                let m = l.drop_first();
                let c = l[0];
                if fourcc(c) == lit("VP8X") {
                    assert(p.drop_first() =~= seq![exif_chunk(o)] + m);
                    lemma_flag_exif(m, c.len() as int, v);
                    lemma_flag_base(m, 0, c.len() as int);
                    lemma_flag_base(m, 0, c.len() as int + 34);
                } else {
                    lemma_placed_flags(m, o);
                    assert(p.drop_first() =~= placed(m, o));
                    lemma_flag_base(m, 0, c.len() as int);
                    lemma_flag_base(placed(m, o), 0, c.len() as int);
                }
            }
        },
    }
}

/// Setting the flags and putting in the orientation go together in either order.
pub proof fn lemma_commute(l: Seq<Seq<u8>>, o: Option<u16>, x: u8)
    requires
        all_chunks(l),
    ensures
        placed(reflagged(l, x), o) == reflagged(placed(l, o), x),
    decreases l.len(),
{
    match o {
        None => {},
        Some(v) => {
            lemma_exif_chunk(v);
            let e = exif_chunk(o);
            let p = placed(l, o);
            if l.len() == 0 {
                assert(p.drop_first() =~= seq![]);
                reveal_with_fuel(reflagged, 2);
                reveal_with_fuel(flag_at, 2);
                assert(reflagged(p, x) =~= p);
                assert(reflagged(l, x) =~= l);
            } else {
                lemma_rest_chunks(l);
                let m = l.drop_first();
                let c = l[0];
                lemma_commute(m, o, x);
                lemma_placed_flags(m, o);
                if fourcc(c) == lit("VP8X") {
                    let em = seq![e] + m;
                    assert(p.drop_first() =~= em);
                    assert(p[0] == c);
                    assert(em.drop_first() =~= m);
                    lemma_flag_exif(m, 0, v);
                    lemma_flag_base(m, 0, 34);
                    assert(reflagged(em, x) =~= seq![e] + reflagged(m, x));
                    if flag_at(m, 0) is None && is_flagged(c) {
                        lemma_update(c, x);
                        let r = reflagged(l, x);
                        assert(r.drop_first() =~= m);
                        assert(placed(r, o) =~= reflagged(p, x));
                    } else {
                        let r = reflagged(l, x);
                        assert(r.drop_first() =~= reflagged(m, x));
                        assert(r[0] == c);
                        assert(placed(r, o) =~= reflagged(p, x));
                    }
                } else {
                    assert(!is_flagged(c));
                    assert(p.drop_first() =~= placed(m, o));
                    assert(p[0] == c);
                    let r = reflagged(l, x);
                    assert(r.drop_first() =~= reflagged(m, x));
                    assert(r[0] == c);
                    assert(placed(r, o) =~= reflagged(p, x));
                }
            }
        },
    }
}

/// Of the chunks with an orientation put in, all stay but that one.
proof fn lemma_kept_placed(l: Seq<Seq<u8>>, o: Option<u16>, opts: StripOptions)
    requires
        none_goes(l, opts),
    ensures
        kept(placed(l, o), opts) == l,
    decreases l.len(),
{
    let p = placed(l, o);
    if l.len() == 0 {
        match o {
            Some(v) => {
                lemma_exif_chunk(v);
                assert(p.drop_first() =~= seq![]);
                reveal_with_fuel(kept, 2);
            },
            None => {},
        }
        assert(kept(p, opts) =~= l);
    } else {
        let m = l.drop_first();
        assert(none_goes(m, opts)) by {
            assert forall|i: int| 0 <= i < m.len() implies riff_kind(
                fourcc(#[trigger] m[i]),
                opts,
            ) is None by {
                assert(m[i] == l[i + 1]);
            }
        }
        assert(riff_kind(fourcc(l[0]), opts) is None);
        assert(seq![l[0]] + m =~= l);
        lemma_kept_placed(m, None, opts);
        match o {
            None => {
                assert(kept(l, opts) == seq![l[0]] + m);
            },
            Some(v) => {
                lemma_exif_chunk(v);
                if fourcc(l[0]) == lit("VP8X") {
                    let em = seq![exif_chunk(o)] + m;
                    assert(p.drop_first() =~= em);
                    assert(em.drop_first() =~= m);
                    assert(em[0] == exif_chunk(o));
                    assert(kept(em, opts) == kept(m, opts));
                    assert(kept(p, opts) == seq![l[0]] + kept(em, opts));
                } else {
                    lemma_kept_placed(m, o, opts);
                    assert(p.drop_first() =~= placed(m, o));
                    assert(p[0] == l[0]);
                    assert(kept(p, opts) == seq![l[0]] + m);
                }
            },
        }
    }
}

pub proof fn lemma_reflagged_stays(l: Seq<Seq<u8>>, x: u8, opts: StripOptions)
    requires
        all_chunks(l),
        none_goes(l, opts),
    ensures
        none_goes(reflagged(l, x), opts),
    decreases l.len(),
{
    if l.len() > 0 {
        lemma_rest_chunks(l);
        let m = l.drop_first();
        let c = l[0];
        assert(riff_kind(fourcc(c), opts) is None);
        assert(none_goes(m, opts)) by {
            assert forall|i: int| 0 <= i < m.len() implies riff_kind(
                fourcc(#[trigger] m[i]),
                opts,
            ) is None by {
                assert(m[i] == l[i + 1]);
            }
        }
        lemma_reflagged_stays(m, x, opts);
        let r = reflagged(l, x);
        let n = reflagged(m, x);
        assert forall|i: int| 0 <= i < r.len() implies riff_kind(fourcc(#[trigger] r[i]), opts)
            is None by {
            if flag_at(m, 0) is None && is_flagged(c) {
                lemma_update(c, x);
                if i > 0 {
                    assert(r[i] == m[i - 1]);
                }
            } else {
                if i > 0 {
                    assert(r[i] == n[i - 1]);
                }
            }
        }
    }
}

proof fn lemma_reflagged_icc(l: Seq<Seq<u8>>, x: u8)
    requires
        all_chunks(l),
    ensures
        has_icc(reflagged(l, x)) == has_icc(l),
    decreases l.len(),
{
    if l.len() > 0 {
        lemma_rest_chunks(l);
        let m = l.drop_first();
        let r = reflagged(l, x);
        lemma_reflagged_icc(m, x);
        if flag_at(m, 0) is None && is_flagged(l[0]) {
            lemma_update(l[0], x);
            assert(r.drop_first() =~= m);
        } else {
            assert(r.drop_first() =~= reflagged(m, x));
        }
    }
}

/// The orientation that the last EXIF chunk among `l` gives.
pub open spec fn listed_orientation(l: Seq<Seq<u8>>, found: Option<u16>) -> Option<u16>
    decreases l.len(),
{
    if l.len() == 0 {
        found
    } else {
        listed_orientation(
            l.drop_first(),
            if fourcc(l[0]) == lit("EXIF") {
                tiff_orientation(l[0].subrange(8, data_end(l[0])))
            } else {
                found
            },
        )
    }
}

/// The orientation once the rest, too, was looked at.
pub open spec fn rest_orientation(r: Seq<u8>, found: Option<u16>) -> Option<u16> {
    if r.len() >= 8 && data_end(r) <= r.len() && fourcc(r) == lit("EXIF") {
        tiff_orientation(r.subrange(8, data_end(r)))
    } else {
        found
    }
}

proof fn lemma_last_orientation(t: Seq<u8>, found: Option<u16>)
    ensures
        last_orientation(t, found) == rest_orientation(
            riff_rest(t),
            listed_orientation(riff_chunks(t), found),
        ),
    decreases t.len(),
{
    if t.len() >= 8 && chunk_end(t) <= t.len() {
        let c = t.subrange(0, chunk_end(t));
        assert(le32(c, 4) == le32(t, 4));
        assert(fourcc(c) =~= t.subrange(0, 4));
        assert(c.subrange(8, data_end(c)) =~= t.subrange(8, data_end(t)));
        let next = tail(t, chunk_end(t));
        assert(riff_chunks(t).drop_first() =~= riff_chunks(next));
        assert(riff_chunks(t)[0] == c);
        lemma_last_orientation(
            next,
            if fourcc(c) == lit("EXIF") {
                tiff_orientation(c.subrange(8, data_end(c)))
            } else {
                found
            },
        );
    }
}

/// Chunks of which none goes give no orientation; the one put in does.
proof fn lemma_placed_orientation(
    l: Seq<Seq<u8>>,
    o: Option<u16>,
    found: Option<u16>,
    opts: StripOptions,
)
    requires
        none_goes(l, opts),
    ensures
        listed_orientation(placed(l, o), found) == or(o, found),
    decreases l.len(),
{
    let p = placed(l, o);
    if l.len() == 0 {
        match o {
            Some(v) => {
                lemma_listed_exif(seq![], v, found);
                assert(p =~= seq![exif_chunk(o)] + seq![]);
            },
            None => {},
        }
    } else {
        let m = l.drop_first();
        assert(none_goes(m, opts)) by {
            assert forall|i: int| 0 <= i < m.len() implies riff_kind(
                fourcc(#[trigger] m[i]),
                opts,
            ) is None by {
                assert(m[i] == l[i + 1]);
            }
        }
        assert(riff_kind(fourcc(l[0]), opts) is None);
        match o {
            None => {
                lemma_placed_orientation(m, None, found, opts);
                assert(placed(m, o) == m);
            },
            Some(v) => {
                assert(p[0] == l[0]);
                assert(listed_orientation(p, found) == listed_orientation(p.drop_first(), found));
                if fourcc(l[0]) == lit("VP8X") {
                    let em = seq![exif_chunk(o)] + m;
                    assert(p.drop_first() =~= em);
                    lemma_listed_exif(m, v, found);
                    lemma_placed_orientation(m, None, Some(v), opts);
                    assert(placed(m, None::<u16>) == m);
                } else {
                    assert(p.drop_first() =~= placed(m, o));
                    lemma_placed_orientation(m, o, found, opts);
                }
            },
        }
    }
}

proof fn lemma_listed_exif(m: Seq<Seq<u8>>, v: u16, found: Option<u16>)
    ensures
        listed_orientation(seq![exif_chunk(Some(v))] + m, found) == listed_orientation(m, Some(v)),
{
    lemma_exif_chunk(v);
    orientation_round_trips(v);
    let em = seq![exif_chunk(Some(v))] + m;
    assert(em[0] == exif_chunk(Some(v)));
    assert(em.drop_first() =~= m);
}

/// The orientation that is put into the file `b`.
pub open spec fn webp_orientation(b: Seq<u8>, opts: StripOptions) -> Option<u16> {
    if opts.keep_orientation {
        last_orientation(tail(b, 12), None)
    } else {
        None
    }
}

/// The chunks of the stripped file, before the flags are brought up to date.
pub open spec fn webp_chunks(b: Seq<u8>, opts: StripOptions) -> Seq<Seq<u8>> {
    placed(kept(riff_chunks(tail(b, 12)), opts), webp_orientation(b, opts))
}

/// The container of the stripped file, before the flags are brought up to date.
pub open spec fn webp_unflagged(b: Seq<u8>, opts: StripOptions) -> Seq<u8> {
    lit("WEBP") + flat(webp_chunks(b, opts))
}

/// Whether the stripped file has a colour profile.
pub open spec fn webp_icc(b: Seq<u8>, opts: StripOptions) -> bool {
    has_icc(kept(riff_chunks(tail(b, 12)), opts))
}

/// The container of the stripped file.
pub open spec fn webp_flagged(b: Seq<u8>, opts: StripOptions) -> Seq<u8> {
    with_flags(
        webp_unflagged(b, opts),
        flag_at(webp_chunks(b, opts), 4),
        webp_orientation(b, opts) is Some,
        webp_icc(b, opts),
    )
}

/// The stripped WebP file.
pub open spec fn webp_clean(b: Seq<u8>, opts: StripOptions) -> Seq<u8> {
    let body = webp_flagged(b, opts) + riff_rest(tail(b, 12));
    lit("RIFF") + le32_bytes((body.len() % 0x1_0000_0000) as u32) + body
}

pub proof fn lemma_webp_word()
    ensures
        lit("WEBP").len() == 4,
        lit("RIFF").len() == 4,
{
    reveal_strlit("WEBP");
    reveal_strlit("RIFF");
    vstd::string::is_ascii_spec_bytes("WEBP");
    vstd::string::is_ascii_spec_bytes("RIFF");
}

pub proof fn lemma_webp_body(b: Seq<u8>, opts: StripOptions)
    ensures
        webp_body(b, opts).0 == webp_flagged(b, opts) + riff_rest(tail(b, 12)),
{
    lemma_webp_word();
    let t = tail(b, 12);
    let begin = Rebuilt {
        body: lit("WEBP"),
        orientation: webp_orientation(b, opts),
        flags: None,
        icc: false,
        removed: seq![],
    };
    lemma_rebuilt(t, begin, opts);
    lemma_pieces(t);
    lemma_rebuilt_body(riff_chunks(t), begin, opts);
}

proof fn lemma_reports_only(w: Seq<u8>, a: Stripped, cs: Seq<CmdView>)
    requires
        forall|i: int| 0 <= i < cs.len() ==> (#[trigger] cs[i]) is Account,
    ensures
        applied_all(w, a, cs).out == a.out,
    decreases cs.len(),
{
    if cs.len() > 0 {
        let next = cs.drop_first();
        assert forall|i: int| 0 <= i < next.len() implies (#[trigger] next[i]) is Account by {
            assert(next[i] == cs[i + 1]);
        }
        assert(cs[0] is Account);
        lemma_reports_only(w, applied(w, a, cs[0]), next);
    }
}

proof fn lemma_removed_reports(t: Seq<u8>, r: Rebuilt, opts: StripOptions)
    requires
        forall|i: int| 0 <= i < r.removed.len() ==> (#[trigger] r.removed[i]) is Account,
    ensures
        forall|i: int|
            0 <= i < rebuild(t, r, opts).0.removed.len() ==> (#[trigger] rebuild(
                t,
                r,
                opts,
            ).0.removed[i]) is Account,
    decreases t.len(),
{
    if t.len() >= 8 && chunk_end(t) <= t.len() {
        lemma_removed_reports(tail(t, chunk_end(t)), rebuild_step(t, r, opts), opts);
    }
}

/// Stripping a WebP file gives the chunks that stay, with the orientation put in, the flags
/// brought up to date and the size of it all.
pub proof fn webp_stripped_is_clean(b: Seq<u8>, opts: StripOptions)
    requires
        probed(b) == FileFormat::Webp,
    ensures
        stripped(b, opts) matches Ok(s) && s.out == webp_clean(b, opts),
{
    assert(riff_webp(b));
    assert(tail(b, 0) =~= b);
    let a = nothing_stripped();
    lemma_webp_body(b, opts);
    let (body, removed) = webp_body(b, opts);
    let with = lit("RIFF") + le32_bytes((body.len() % 0x1_0000_0000) as u32) + body;
    let c = CmdView::Replace { consume: b.len() as int, with };
    let cmds = seq![c] + removed;
    assert(cmds.drop_first() =~= removed);
    lemma_removed_reports(
        tail(b, 12),
        Rebuilt {
            body: lit("WEBP"),
            orientation: webp_orientation(b, opts),
            flags: None,
            icc: false,
            removed: seq![],
        },
        opts,
    );
    lemma_reports_only(b, applied(b, a, c), removed);
    assert(applied(b, a, c).out =~= with);
    assert(strip_run::<AnyStripper>(b, AnyStrip::Webp(opts), 0, a).out =~= webp_clean(b, opts));
}

proof fn lemma_flags_settle(x: u8, exif: bool, icc: bool)
    ensures
        new_flags(new_flags(x, exif, icc), exif, icc) == new_flags(x, exif, icc),
{
    let a = x & 0xD3u8;
    assert((x & 0xD3u8) & 0xD3u8 == x & 0xD3u8) by (bit_vector);
    assert(((x & 0xD3u8) | 0x08u8) & 0xD3u8 == x & 0xD3u8) by (bit_vector);
    assert(((x & 0xD3u8) | 0x20u8) & 0xD3u8 == x & 0xD3u8) by (bit_vector);
    assert((((x & 0xD3u8) | 0x08u8) | 0x20u8) & 0xD3u8 == x & 0xD3u8) by (bit_vector);
}

/// The chunks of the stripped file: what a second strip finds.
proof fn lemma_second_look(b: Seq<u8>, opts: StripOptions, x: u8)
    ensures
        ({
            let p = reflagged(webp_chunks(b, opts), x);
            let rest = riff_rest(tail(b, 12));
            let o = webp_orientation(b, opts);
            let t = flat(p) + rest;
            &&& riff_chunks(t) == p
            &&& riff_rest(t) == rest
            &&& placed(kept(p, opts), o) == p
            &&& has_icc(kept(p, opts)) == webp_icc(b, opts)
            &&& opts.keep_orientation ==> last_orientation(t, None) == o
        }),
{
    let t0 = tail(b, 12);
    lemma_pieces(t0);
    let l = riff_chunks(t0);
    let rest = riff_rest(t0);
    let o = webp_orientation(b, opts);
    let k = kept(l, opts);
    lemma_kept(l, opts);
    lemma_placed_chunks(k, o);
    let p0 = placed(k, o);
    lemma_reflagged(p0, x);
    let p = reflagged(p0, x);
    lemma_parse(p, rest);
    lemma_commute(k, o, x);
    let k1 = reflagged(k, x);
    lemma_reflagged_stays(k, x, opts);
    lemma_kept_placed(k1, o, opts);
    lemma_reflagged_icc(k, x);
    let t = flat(p) + rest;
    if opts.keep_orientation {
        lemma_last_orientation(t0, None);
        lemma_last_orientation(t, None);
        lemma_placed_orientation(k1, o, None, opts);
    }
}

pub proof fn lemma_placed_chunks(l: Seq<Seq<u8>>, o: Option<u16>)
    requires
        all_chunks(l),
    ensures
        all_chunks(placed(l, o)),
    decreases l.len(),
{
    match o {
        None => {},
        Some(v) => {
            lemma_exif_chunk(v);
            let p = placed(l, o);
            if l.len() > 0 {
                lemma_rest_chunks(l);
                let m = l.drop_first();
                lemma_placed_chunks(m, o);
                assert forall|i: int| 0 <= i < p.len() implies is_chunk(#[trigger] p[i]) by {
                    if fourcc(l[0]) == lit("VP8X") {
                        if i > 1 {
                            assert(p[i] == m[i - 2]);
                        }
                    } else {
                        if i > 0 {
                            assert(p[i] == placed(m, o)[i - 1]);
                        }
                    }
                }
            }
        },
    }
}

/// The flags that the stripped file has.
pub open spec fn settled(b: Seq<u8>, opts: StripOptions) -> u8 {
    let plain = webp_unflagged(b, opts);
    match flag_at(webp_chunks(b, opts), 0) {
        Some(k) => new_flags(
            plain[k + 4],
            webp_orientation(b, opts) is Some,
            webp_icc(b, opts),
        ),
        None => 0,
    }
}

/// The container of the stripped file, by its chunks.
pub proof fn lemma_flagged_chunks(b: Seq<u8>, opts: StripOptions)
    ensures
        ({
            let p = webp_chunks(b, opts);
            let q = reflagged(p, settled(b, opts));
            &&& webp_flagged(b, opts) == lit("WEBP") + flat(q)
            &&& flag_at(q, 4) == flag_at(p, 4)
            &&& flag_at(p, 4) matches Some(i) ==> 12 <= i < webp_flagged(b, opts).len()
                && webp_flagged(b, opts)[i] == settled(b, opts) && flag_at(p, 0) == Some(i - 4)
        }),
{
    lemma_webp_word();
    let t = tail(b, 12);
    lemma_pieces(t);
    lemma_kept(riff_chunks(t), opts);
    lemma_placed_chunks(kept(riff_chunks(t), opts), webp_orientation(b, opts));
    let p = webp_chunks(b, opts);
    let x = settled(b, opts);
    lemma_flag_base(p, 0, 4);
    lemma_reflagged(p, x);
    lemma_flag_base(reflagged(p, x), 0, 4);
    assert(webp_flagged(b, opts) =~= lit("WEBP") + flat(reflagged(p, x)));
}

/// A container with its size in front is read as one.
pub proof fn lemma_frame(x: Seq<u8>, rest: Seq<u8>, n: u32)
    ensures
        ({
            let f = lit("RIFF") + le32_bytes(n) + (lit("WEBP") + x + rest);
            &&& riff_webp(f)
            &&& tail(f, 12) == x + rest
        }),
{
    lemma_webp_word();
    let f = lit("RIFF") + le32_bytes(n) + (lit("WEBP") + x + rest);
    assert(f.subrange(0, 4) =~= lit("RIFF"));
    assert(f.subrange(8, 12) =~= lit("WEBP"));
    assert(tail(f, 12) =~= x + rest);
}

/// What a second strip sees of the stripped file.
proof fn lemma_once_again(b: Seq<u8>, opts: StripOptions)
    ensures
        ({
            let once = webp_clean(b, opts);
            &&& probed(once) == FileFormat::Webp
            &&& webp_unflagged(once, opts) == webp_flagged(b, opts)
            &&& flag_at(webp_chunks(once, opts), 4) == flag_at(webp_chunks(b, opts), 4)
            &&& riff_rest(tail(once, 12)) == riff_rest(tail(b, 12))
            &&& webp_orientation(once, opts) == webp_orientation(b, opts)
            &&& webp_icc(once, opts) == webp_icc(b, opts)
        }),
{
    let once = webp_clean(b, opts);
    let q = reflagged(webp_chunks(b, opts), settled(b, opts));
    let rest = riff_rest(tail(b, 12));
    let body = webp_flagged(b, opts) + rest;
    lemma_flagged_chunks(b, opts);
    lemma_frame(flat(q), rest, (body.len() % 0x1_0000_0000) as u32);
    assert(tail(once, 12) == flat(q) + rest);
    lemma_once_is_webp(once);
    lemma_second_look(b, opts, settled(b, opts));
    assert(webp_orientation(once, opts) == webp_orientation(b, opts));
    assert(webp_chunks(once, opts) == q);
}

/// Stripping a WebP file twice is stripping it once.
pub proof fn webp_strip_is_idempotent(b: Seq<u8>, opts: StripOptions)
    requires
        probed(b) == FileFormat::Webp,
    ensures
        ({
            let once = webp_clean(b, opts);
            &&& stripped(b, opts) matches Ok(s) && s.out == once
            &&& stripped(once, opts) matches Ok(s) && s.out == once
        }),
{
    let once = webp_clean(b, opts);
    webp_stripped_is_clean(b, opts);
    lemma_once_again(b, opts);
    webp_stripped_is_clean(once, opts);
    lemma_flagged_chunks(b, opts);
    let plain = webp_unflagged(b, opts);
    let flagged = webp_flagged(b, opts);
    match flag_at(webp_chunks(b, opts), 4) {
        Some(k) => {
            lemma_flags_settle(plain[k], webp_orientation(b, opts) is Some, webp_icc(b, opts));
            assert(webp_flagged(once, opts) =~= flagged);
        },
        None => {},
    }
}

pub proof fn lemma_once_is_webp(b: Seq<u8>)
    requires
        riff_webp(b),
    ensures
        probed(b) == FileFormat::Webp,
{
    reveal_strlit("RIFF");
    vstd::string::is_ascii_spec_bytes("RIFF");
    assert(lit("RIFF")[0] == 0x52);
    assert(b.subrange(0, 4)[0] == b[0]);
}

} // verus!
