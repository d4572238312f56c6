//! What stripping does to a JPEG file, piece by piece: segments with metadata are taken out,
//! and all else stands unchanged and in its order.
use vstd::prelude::*;

use crate::adapters::strip_slice::stripped;
use crate::bytes::{has_prefix, has_window, lit, tail, window_at};
use crate::formats::jpeg::fill_end;
use crate::laws::image_items::two_bytes;
use crate::laws::stripping::{
    jpeg_kept, jpeg_stripped_is_clean, jpeg_synth, lemma_orientation_bytes,
};
use crate::strip::exif_synth::{app1_bytes, orientation_bytes};
use crate::strip::jpeg::{jpeg_part, jpeg_walk, segment_kind, synthesized, tiff_orientation, Part};
use crate::strip::{
    applied, applied_all, nothing_stripped, strip_run, AnyStrip, AnyStripper, CmdView,
    RemovedKind, StripOptions, Stripped,
};

verus! {

/// A piece of a JPEG file before its first scan: a segment with a body, or a marker that
/// stands alone. Fill bytes may stand before the marker.
pub enum Piece {
    Segment { fill: nat, marker: u8, body: Seq<u8> },
    Bare { fill: nat, marker: u8 },
}

/// `n` fill bytes, and the byte that begins a marker.
pub open spec fn fills(n: nat) -> Seq<u8> {
    Seq::new(n + 1, |i: int| 0xFFu8)
}

pub open spec fn piece_bytes(p: Piece) -> Seq<u8> {
    match p {
        Piece::Segment { fill, marker, body } => fills(fill) + seq![marker] + two_bytes(
            body.len() as int + 2,
        ) + body,
        Piece::Bare { fill, marker } => fills(fill) + seq![marker],
    }
}

pub open spec fn pieces_bytes(ps: Seq<Piece>) -> Seq<u8>
    decreases ps.len(),
{
    if ps.len() == 0 {
        seq![]
    } else {
        piece_bytes(ps[0]) + pieces_bytes(ps.drop_first())
    }
}

/// Markers that stand alone: 0x01 and the restart markers.
pub open spec fn lone(m: u8) -> bool {
    m == 0x01 || 0xD0 <= m <= 0xD7
}

/// A piece as it may stand in a file. The scan and the end are none.
pub open spec fn proper(p: Piece) -> bool {
    match p {
        Piece::Segment { marker, body, .. } => marker != 0xFF && marker != 0xD9 && marker != 0xDA
            && !lone(marker) && body.len() <= 65533,
        Piece::Bare { marker, .. } => lone(marker),
    }
}

pub open spec fn all_proper(ps: Seq<Piece>) -> bool {
    forall|i: int| 0 <= i < ps.len() ==> proper(#[trigger] ps[i])
}

/// What follows the pieces: the first scan and all behind it, the end marker and what comes
/// behind it, or nothing.
pub enum Ending {
    Scan { fill: nat, rest: Seq<u8> },
    End { fill: nat, rest: Seq<u8> },
    Nothing,
}

pub open spec fn ending_bytes(e: Ending) -> Seq<u8> {
    match e {
        Ending::Scan { fill, rest } => fills(fill) + seq![0xDAu8] + rest,
        Ending::End { fill, rest } => fills(fill) + seq![0xD9u8] + rest,
        Ending::Nothing => seq![],
    }
}

/// What of it stays: all, but for what comes behind the end marker.
pub open spec fn ending_kept(e: Ending) -> Seq<u8> {
    match e {
        Ending::Scan { fill, rest } => fills(fill) + seq![0xDAu8] + rest,
        Ending::End { fill, rest } => fills(fill) + seq![0xD9u8],
        Ending::Nothing => seq![],
    }
}

/// A JPEG file made of these.
pub open spec fn jpeg_file(ps: Seq<Piece>, e: Ending) -> Seq<u8> {
    seq![0xFFu8, 0xD8u8] + pieces_bytes(ps) + ending_bytes(e)
}

/// Whether the body of a segment begins with a text.
pub open spec fn begins(body: Seq<u8>, text: &str) -> bool {
    lit(text).is_prefix_of(body)
}

/// Whether the letters `8BIM` stand somewhere in the body of a segment.
pub open spec fn holds_resource(body: Seq<u8>) -> bool {
    exists|k: int|
        0 <= k && k + 4 <= body.len() && #[trigger] body[k] == 0x38 && body[k + 1] == 0x42 && body[k
            + 2] == 0x49 && body[k + 3] == 0x4D
}

/// The kind of metadata that a piece holds, where it is to go: APP1 segments that begin as
/// EXIF or XMP, APP13 segments with a Photoshop resource in them and, unless they are kept,
/// APP2 segments that begin as colour profiles.
pub open spec fn metadata_kind(p: Piece, keep_icc: bool) -> Option<RemovedKind> {
    match p {
        Piece::Segment { marker, body, .. } => if marker == 0xE1 && begins(body, "Exif\0\0") {
            Some(RemovedKind::Exif)
        } else if marker == 0xE1 && begins(body, "http://ns.adobe.com/xap/1.0/\0") {
            Some(RemovedKind::Xmp)
        } else if marker == 0xED && holds_resource(body) {
            Some(RemovedKind::Iptc)
        } else if marker == 0xE2 && !keep_icc && begins(body, "ICC_PROFILE\0") {
            Some(RemovedKind::Icc)
        } else {
            None
        },
        Piece::Bare { .. } => None,
    }
}

/// The pieces that stay.
pub open spec fn staying(ps: Seq<Piece>, keep_icc: bool) -> Seq<Piece>
    decreases ps.len(),
{
    if ps.len() == 0 {
        seq![]
    } else if metadata_kind(ps[0], keep_icc) is Some {
        staying(ps.drop_first(), keep_icc)
    } else {
        seq![ps[0]] + staying(ps.drop_first(), keep_icc)
    }
}

/// The segment that holds an orientation and nothing else.
pub open spec fn orientation_segment(v: u16) -> Seq<u8> {
    seq![
        0xFFu8, 0xE1u8, 0u8, 34u8, 0x45u8, 0x78u8, 0x69u8, 0x66u8, 0u8, 0u8, 0x49u8, 0x49u8, 42u8,
        0u8, 8u8, 0u8, 0u8, 0u8, 1u8, 0u8, 0x12u8, 0x01u8, 3u8, 0u8, 1u8, 0u8, 0u8, 0u8,
        (v % 0x100) as u8, (v / 0x100) as u8, 0u8, 0u8, 0u8, 0u8, 0u8, 0u8,
    ]
}

/// The orientation that a piece gives, where it holds EXIF data.
pub open spec fn piece_orientation(p: Piece) -> Option<u16> {
    match p {
        Piece::Segment { body, .. } if metadata_kind(p, true) == Some(RemovedKind::Exif)
            && body.len() > 6 => tiff_orientation(tail(body, 6)),
        _ => None,
    }
}

/// The first orientation among the pieces.
pub open spec fn first_orientation(ps: Seq<Piece>) -> Option<u16>
    decreases ps.len(),
{
    if ps.len() == 0 {
        None
    } else {
        match piece_orientation(ps[0]) {
            Some(v) => Some(v),
            None => first_orientation(ps.drop_first()),
        }
    }
}

pub proof fn lemma_fills(n: nat, m: u8, x: Seq<u8>)
    requires
        m != 0xFF,
    ensures
        ({
            let t = fills(n) + seq![m] + x;
            &&& t[0] == 0xFF
            &&& fill_end(t, 1) == n + 1
            &&& t[n as int + 1] == m
            &&& t.len() == n + 2 + x.len()
        }),
{
    let t = fills(n) + seq![m] + x;
    lemma_fill_run(t, 1, n as int + 1);
}

proof fn lemma_fill_run(t: Seq<u8>, i: int, n: int)
    requires
        0 <= i <= n < t.len(),
        forall|j: int| i <= j < n ==> t[j] == 0xFF,
        t[n] != 0xFF,
    ensures
        fill_end(t, i) == n,
    decreases n - i,
{
    if i < n {
        lemma_fill_run(t, i + 1, n);
    }
}

proof fn lemma_words()
    ensures
        lit("8BIM") == seq![0x38u8, 0x42u8, 0x49u8, 0x4Du8],
{
    reveal_strlit("8BIM");
    vstd::string::is_ascii_spec_bytes("8BIM");
    assert(lit("8BIM") =~= seq![0x38u8, 0x42u8, 0x49u8, 0x4Du8]);
}

pub proof fn lemma_prefix(body: Seq<u8>, text: &str)
    ensures
        has_prefix(body, lit(text)) == begins(body, text),
{
    let p = lit(text);
    if begins(body, text) {
        assert(body.subrange(0, p.len() as int) =~= p);
    }
    if has_prefix(body, p) {
        assert forall|i: int| 0 <= i < p.len() implies p[i] == body[i] by {
            assert(body.subrange(0, p.len() as int)[i] == body[i]);
        }
    }
}

proof fn lemma_resource(body: Seq<u8>)
    ensures
        has_window(body, lit("8BIM")) == holds_resource(body),
{
    lemma_words();
    let p = lit("8BIM");
    if has_window(body, p) {
        let k = choose|k: int| #[trigger] window_at(body, p, k);
        let s = body.subrange(k, k + 4);
        assert(s[0] == body[k] && s[1] == body[k + 1] && s[2] == body[k + 2] && s[3] == body[k + 3]);
    }
    if holds_resource(body) {
        let k = choose|k: int|
            0 <= k && k + 4 <= body.len() && #[trigger] body[k] == 0x38 && body[k + 1] == 0x42
                && body[k + 2] == 0x49 && body[k + 3] == 0x4D;
        assert(body.subrange(k, k + 4) =~= p);
        assert(window_at(body, p, k));
    }
}

proof fn lemma_kind(marker: u8, body: Seq<u8>, fill: nat, opts: StripOptions)
    ensures
        segment_kind(marker, body, opts) == metadata_kind(
            Piece::Segment { fill, marker, body },
            opts.keep_icc,
        ),
{
    lemma_prefix(body, "Exif\0\0");
    lemma_prefix(body, "http://ns.adobe.com/xap/1.0/\0");
    lemma_prefix(body, "ICC_PROFILE\0");
    lemma_resource(body);
}

/// What becomes of a piece.
proof fn lemma_piece(p: Piece, x: Seq<u8>, opts: StripOptions)
    requires
        proper(p),
    ensures
        ({
            let n = piece_bytes(p).len() as int;
            jpeg_part(piece_bytes(p) + x, opts) == (match metadata_kind(p, opts.keep_icc) {
                Some(kind) => Part::Drop {
                    len: n,
                    kind,
                    orientation: if opts.keep_orientation {
                        piece_orientation(p)
                    } else {
                        None
                    },
                },
                None => Part::Keep(n),
            })
        }),
        piece_bytes(p).len() >= 2,
{
    let t = piece_bytes(p) + x;
    match p {
        Piece::Segment { fill, marker, body } => {
            let rest = two_bytes(body.len() as int + 2) + body + x;
            lemma_fills(fill, marker, rest);
            assert(t =~= fills(fill) + seq![marker] + rest);
            let i = fill as int + 1;
            assert(t.subrange(i + 1, i + 3) =~= two_bytes(body.len() as int + 2));
            crate::laws::image_items::lemma_two(t, i + 1, body.len() as int + 2);
            assert(t.subrange(i + 3, i + 3 + body.len()) =~= body);
            lemma_kind(marker, body, fill, opts);
            lemma_kind(marker, body, fill, StripOptions { keep_icc: true, ..opts });
        },
        Piece::Bare { fill, marker } => {
            lemma_fills(fill, marker, x);
            assert(t =~= fills(fill) + seq![marker] + x);
        },
    }
}

proof fn lemma_ending(e: Ending, opts: StripOptions)
    ensures
        jpeg_kept(ending_bytes(e), opts) == ending_kept(e),
        jpeg_walk(ending_bytes(e), opts).orientation is None,
        forall|i: int|
            0 <= i < jpeg_walk(ending_bytes(e), opts).cmds.len() ==> !((#[trigger] jpeg_walk(
                ending_bytes(e),
                opts,
            ).cmds[i]) is Drop) && !(jpeg_walk(ending_bytes(e), opts).cmds[i] is Account),
{
    let t = ending_bytes(e);
    match e {
        Ending::Scan { fill, rest } => {
            lemma_fills(fill, 0xDA, rest);
            assert(jpeg_part(t, opts) is Rest);
        },
        Ending::End { fill, rest } => {
            lemma_fills(fill, 0xD9, rest);
            assert(jpeg_part(t, opts) == Part::End(fill as int + 2));
            assert(t.subrange(0, fill as int + 2) =~= ending_kept(e));
        },
        Ending::Nothing => {},
    }
}

#[verifier::rlimit(60)]
proof fn lemma_kept(ps: Seq<Piece>, e: Ending, opts: StripOptions)
    requires
        all_proper(ps),
    ensures
        ({
            let t = pieces_bytes(ps) + ending_bytes(e);
            &&& jpeg_kept(t, opts) == pieces_bytes(staying(ps, opts.keep_icc)) + ending_kept(e)
            &&& jpeg_walk(t, opts).orientation == (if opts.keep_orientation {
                first_orientation(ps)
            } else {
                None
            })
        }),
    decreases ps.len(),
{
    lemma_ending(e, opts);
    let t = pieces_bytes(ps) + ending_bytes(e);
    if ps.len() == 0 {
        assert(t =~= ending_bytes(e));
        assert(pieces_bytes(staying(ps, opts.keep_icc)) + ending_kept(e) =~= ending_kept(e));
    } else {
        let p = ps[0];
        let m = ps.drop_first();
        assert(proper(p));
        assert forall|i: int| 0 <= i < m.len() implies proper(#[trigger] m[i]) by {
            assert(m[i] == ps[i + 1]);
        }
        let x = pieces_bytes(m) + ending_bytes(e);
        let n = piece_bytes(p).len() as int;
        assert(t =~= piece_bytes(p) + x);
        lemma_piece(p, x, opts);
        assert(tail(t, n) =~= x);
        assert(t.subrange(0, n) =~= piece_bytes(p));
        lemma_kept(m, e, opts);
        let s = staying(m, opts.keep_icc);
        lemma_not_exif(p, opts.keep_icc);
        if metadata_kind(p, opts.keep_icc) is None {
            assert((seq![p] + s).drop_first() =~= s);
            assert(pieces_bytes(seq![p] + s) == piece_bytes(p) + pieces_bytes(s));
            assert(piece_bytes(p) + (pieces_bytes(s) + ending_kept(e)) =~= piece_bytes(p)
                + pieces_bytes(s) + ending_kept(e));
        }
    }
}

/// EXIF data goes whether profiles are kept or not.
proof fn lemma_not_exif(p: Piece, keep_icc: bool)
    ensures
        metadata_kind(p, keep_icc) is None ==> piece_orientation(p) is None,
{
}

proof fn lemma_segment(v: u16)
    ensures
        app1_bytes(orientation_bytes(v)) == orientation_segment(v),
{
    lemma_orientation_bytes(v);
    crate::formats::jpeg::lemma_exif_marker();
    assert(app1_bytes(orientation_bytes(v)) =~= orientation_segment(v));
}

proof fn lemma_four_parts(a: Seq<u8>, b: Seq<u8>, c: Seq<u8>, d: Seq<u8>)
    ensures
        a + b + (c + d) == a + b + c + d,
{
    assert(a + b + (c + d) =~= a + b + c + d);
}

/// Stripping a JPEG file takes out the segments with metadata. All other pieces, the scan and
/// what follows it stand in the output as they were and in their order; behind the start
/// marker stands, where it is to be kept, the first orientation that the removed EXIF data
/// gave; and what follows the end marker goes.
#[verifier::rlimit(40)]
pub proof fn jpeg_pieces_stay(ps: Seq<Piece>, e: Ending, opts: StripOptions)
    requires
        all_proper(ps),
    ensures
        stripped(jpeg_file(ps, e), opts) matches Ok(s) && s.out == seq![0xFFu8, 0xD8u8] + (
        match first_orientation(ps) {
            Some(v) if opts.keep_orientation => orientation_segment(v),
            _ => seq![],
        }) + pieces_bytes(staying(ps, opts.keep_icc)) + ending_kept(e),
{
    let b = jpeg_file(ps, e);
    let t = pieces_bytes(ps) + ending_bytes(e);
    assert(b[0] == 0xFF && b[1] == 0xD8);
    jpeg_stripped_is_clean(b, opts);
    assert(tail(b, 2) =~= t);
    lemma_kept(ps, e, opts);
    assert(b.subrange(0, 2) =~= seq![0xFFu8, 0xD8u8]);
    let o = jpeg_walk(t, opts).orientation;
    match o {
        Some(v) => lemma_segment(v),
        None => {},
    }
    lemma_four_parts(
        seq![0xFFu8, 0xD8u8],
        jpeg_synth(o),
        pieces_bytes(staying(ps, opts.keep_icc)),
        ending_kept(e),
    );
}

/// Of the pieces before the first scan only APP1, APP2 and APP13 segments go: one with any
/// other marker stays, whatever it holds.
pub proof fn only_application_segments_go(ps: Seq<Piece>, keep_icc: bool, i: int)
    requires
        0 <= i < ps.len(),
        ps[i] is Bare || (ps[i] matches Piece::Segment { marker, .. } && marker != 0xE1 && marker
            != 0xE2 && marker != 0xED),
    ensures
        staying(ps, keep_icc).contains(ps[i]),
    decreases ps.len(),
{
    let m = ps.drop_first();
    let s = staying(ps, keep_icc);
    if i == 0 {
        assert(s[0] == ps[0]);
    } else {
        assert(m[i - 1] == ps[i]);
        only_application_segments_go(m, keep_icc, i - 1);
        let k = choose|k: int| 0 <= k < staying(m, keep_icc).len() && staying(m, keep_icc)[k]
            == ps[i];
        if metadata_kind(ps[0], keep_icc) is None {
            assert(s[k + 1] == ps[i]);
        } else {
            assert(s[k] == ps[i]);
        }
    }
}

/// Whether a piece with metadata of a kind is among them.
pub open spec fn has_kind(ps: Seq<Piece>, keep_icc: bool, kind: RemovedKind) -> bool {
    exists|i: int| 0 <= i < ps.len() && metadata_kind(#[trigger] ps[i], keep_icc) == Some(kind)
}

proof fn lemma_cmds(t: Seq<u8>, n: int, opts: StripOptions)
    requires
        0 < n <= t.len(),
        jpeg_part(t, opts) == Part::Keep(n) || (jpeg_part(t, opts) matches Part::Drop { len, .. }
            && len == n),
    ensures
        jpeg_walk(t, opts).cmds == seq![
            match jpeg_part(t, opts) {
                Part::Drop { len, kind, .. } => CmdView::Drop { len, kind },
                _ => CmdView::Emit(n),
            },
        ] + jpeg_walk(tail(t, n), opts).cmds,
{
}

proof fn lemma_still(w: Seq<u8>, a: Stripped, cs: Seq<CmdView>)
    requires
        forall|i: int| 0 <= i < cs.len() ==> !((#[trigger] cs[i]) is Drop) && !(cs[i] is Account),
    ensures
        applied_all(w, a, cs).kinds == a.kinds,
    decreases cs.len(),
{
    if cs.len() > 0 {
        let m = cs.drop_first();
        assert(!(cs[0] is Drop) && !(cs[0] is Account));
        assert forall|i: int| 0 <= i < m.len() implies !((#[trigger] m[i]) is Drop) && !(m[i]
            is Account) by {
            assert(m[i] == cs[i + 1]);
        }
        lemma_still(w, applied(w, a, cs[0]), m);
    }
}

proof fn lemma_has_kind(ps: Seq<Piece>, keep_icc: bool, k: RemovedKind)
    requires
        ps.len() > 0,
    ensures
        has_kind(ps, keep_icc, k) == (metadata_kind(ps[0], keep_icc) == Some(k) || has_kind(
            ps.drop_first(),
            keep_icc,
            k,
        )),
{
    let m = ps.drop_first();
    if has_kind(m, keep_icc, k) {
        let i = choose|i: int|
            0 <= i < m.len() && metadata_kind(#[trigger] m[i], keep_icc) == Some(k);
        assert(ps[i + 1] == m[i]);
    }
    if has_kind(ps, keep_icc, k) {
        let i = choose|i: int|
            0 <= i < ps.len() && metadata_kind(#[trigger] ps[i], keep_icc) == Some(k);
        if i > 0 {
            assert(m[i - 1] == ps[i]);
        }
    }
}

proof fn lemma_kinds(
    w: Seq<u8>,
    a: Stripped,
    ps: Seq<Piece>,
    e: Ending,
    opts: StripOptions,
    k: RemovedKind,
)
    requires
        all_proper(ps),
    ensures
        applied_all(w, a, jpeg_walk(pieces_bytes(ps) + ending_bytes(e), opts).cmds).kinds.contains(
            k,
        ) == (a.kinds.contains(k) || has_kind(ps, opts.keep_icc, k)),
    decreases ps.len(),
{
    let t = pieces_bytes(ps) + ending_bytes(e);
    lemma_ending(e, opts);
    if ps.len() == 0 {
        assert(t =~= ending_bytes(e));
        lemma_still(w, a, jpeg_walk(t, opts).cmds);
    } else {
        let p = ps[0];
        let m = ps.drop_first();
        assert(proper(p));
        assert forall|i: int| 0 <= i < m.len() implies proper(#[trigger] m[i]) by {
            assert(m[i] == ps[i + 1]);
        }
        let x = pieces_bytes(m) + ending_bytes(e);
        let n = piece_bytes(p).len() as int;
        assert(t =~= piece_bytes(p) + x);
        lemma_piece(p, x, opts);
        assert(tail(t, n) =~= x);
        lemma_cmds(t, n, opts);
        let cs = jpeg_walk(t, opts).cmds;
        assert(cs.drop_first() =~= jpeg_walk(x, opts).cmds);
        let b = applied(w, a, cs[0]);
        lemma_kinds(w, b, m, e, opts, k);
        lemma_has_kind(ps, opts.keep_icc, k);
        match metadata_kind(p, opts.keep_icc) {
            Some(kind) => {
                assert(cs[0] == CmdView::Drop { len: n, kind });
                assert(b.kinds == a.kinds.insert(kind));
            },
            None => {
                assert(cs[0] == CmdView::Emit(n));
                assert(b.kinds == a.kinds);
            },
        }
        assert(applied_all(w, a, cs) == applied_all(w, b, cs.drop_first()));
    }
}

/// The report names the kinds of metadata that were in the segments taken out, and no other.
pub proof fn jpeg_reports_what_goes(ps: Seq<Piece>, e: Ending, opts: StripOptions, k: RemovedKind)
    requires
        all_proper(ps),
    ensures
        stripped(jpeg_file(ps, e), opts) matches Ok(s) && (s.kinds.contains(k) <==> has_kind(
            ps,
            opts.keep_icc,
            k,
        )),
{
    let b = jpeg_file(ps, e);
    let t = pieces_bytes(ps) + ending_bytes(e);
    jpeg_stripped_is_clean(b, opts);
    assert(tail(b, 0) =~= b);
    assert(tail(b, 2) =~= t);
    let w = jpeg_walk(t, opts);
    let a = nothing_stripped();
    let first = seq![CmdView::Emit(2)] + synthesized(w.orientation);
    crate::laws::stripping::lemma_applied_split(b, a, first, w.cmds);
    let c = applied_all(b, a, first);
    assert forall|i: int| 0 <= i < first.len() implies !((#[trigger] first[i]) is Drop)
        && !(first[i] is Account) by {}
    lemma_still(b, a, first);
    lemma_kinds(b, c, ps, e, opts, k);
    assert(strip_run::<AnyStripper>(b, AnyStrip::Jpeg(opts), 0, a).kinds == applied_all(
        b,
        c,
        w.cmds,
    ).kinds);
}

} // verus!
