//! JPEG files, piece by piece: the size and the EXIF data that are read are those that the
//! segments hold.
use vstd::prelude::*;

use crate::adapters::slice::metadata_of;
use crate::bytes::{be16, tail};
use crate::demand::{Demand, EventView, Local, PayloadKind};
use crate::driver::{finalized, handled_all, nothing, CollectorView};
use crate::formats::jpeg::{exif_payload, fill_end, jpeg_local, JpegMode};
use crate::laws::agreement::unit_run;
use crate::laws::files::{lemma_after, lemma_read, sized};
use crate::laws::image_items::{lemma_two, two_bytes};
use crate::laws::jpeg_pieces::{
    begins, ending_bytes, fills, jpeg_file, lemma_fills, lemma_prefix, piece_bytes, pieces_bytes,
    proper, Ending, Piece,
};
use crate::laws::movies::two;
use crate::laws::plain_files::lemma_straight;
use crate::laws::webp_files::{lemma_moves_on, moves_on};
use crate::limits::Limits;
use crate::model::FileFormat;
use crate::probe::{any_local, probed, AnyMode};

verus! {

/// Markers of frame headers: SOF0 to SOF15, but for those that define Huffman tables,
/// arithmetic conditioning and extensions.
pub open spec fn frame(m: u8) -> bool {
    m == 0xC0 || m == 0xC1 || m == 0xC2 || m == 0xC3 || m == 0xC5 || m == 0xC6 || m == 0xC7 || m
        == 0xC9 || m == 0xCA || m == 0xCB || m == 0xCD || m == 0xCE || m == 0xCF
}

/// What a piece tells: a frame header the height, then the width, behind the precision; an
/// APP1 segment that begins so, EXIF data.
pub open spec fn piece_tells(p: Piece) -> Seq<EventView> {
    match p {
        Piece::Segment { marker, body, .. } => if frame(marker) {
            sized(two(body, 3) as u32, two(body, 1) as u32)
        } else if marker == 0xE1 && begins(body, "Exif\0\0") {
            seq![EventView::Payload { kind: PayloadKind::Exif, data: body.skip(6) }]
        } else {
            seq![]
        },
        Piece::Bare { .. } => seq![],
    }
}

pub open spec fn pieces_tell(ps: Seq<Piece>) -> Seq<EventView>
    decreases ps.len(),
{
    if ps.len() == 0 {
        seq![]
    } else {
        piece_tells(ps[0]) + pieces_tell(ps.drop_first())
    }
}

/// A piece that can be read: frame headers are long enough to hold a size.
pub open spec fn readable(p: Piece) -> bool {
    proper(p) && (p matches Piece::Segment { marker, body, .. } ==> marker != 0 && (frame(marker)
        ==> body.len() >= 5))
}

pub open spec fn all_readable(ps: Seq<Piece>) -> bool {
    forall|i: int| 0 <= i < ps.len() ==> readable(#[trigger] ps[i])
}

spec fn at_segment() -> AnyMode {
    AnyMode::Jpeg(JpegMode::Segments)
}

/// What the bytes of a segment say.
proof fn lemma_segment_bytes(fill: nat, marker: u8, body: Seq<u8>, x: Seq<u8>)
    requires
        marker != 0xFF,
        body.len() + 2 <= 0xFFFF,
    ensures
        ({
            let t = fills(fill) + seq![marker] + two_bytes(body.len() as int + 2) + body + x;
            let i = fill as int + 1;
            &&& t.len() == i + 3 + body.len() + x.len()
            &&& t[0] == 0xFF
            &&& fill_end(t, 1) == i
            &&& t[i] == marker
            &&& be16(t, i + 1) == body.len() + 2
            &&& t.subrange(i + 3, i + 3 + body.len()) == body
            &&& forall|j: int| 0 <= j < body.len() ==> t[i + 3 + j] == #[trigger] body[j]
        }),
{
    let rest = two_bytes(body.len() as int + 2) + body + x;
    let t = fills(fill) + seq![marker] + two_bytes(body.len() as int + 2) + body + x;
    lemma_fills(fill, marker, rest);
    assert(t =~= fills(fill) + seq![marker] + rest);
    let i = fill as int + 1;
    assert(t.subrange(i + 1, i + 3) =~= two_bytes(body.len() as int + 2));
    lemma_two(t, i + 1, body.len() as int + 2);
    assert(t.subrange(i + 3, i + 3 + body.len()) =~= body);
}

/// What a segment at the front is read as.
proof fn lemma_segment_read(t: Seq<u8>, i: int, marker: u8, body: Seq<u8>)
    requires
        1 <= i,
        t.len() >= i + 3 + body.len(),
        t[0] == 0xFF,
        fill_end(t, 1) == i,
        t[i] == marker,
        be16(t, i + 1) == body.len() + 2,
        t.subrange(i + 3, i + 3 + body.len()) == body,
        forall|j: int| 0 <= j < body.len() ==> t[i + 3 + j] == #[trigger] body[j],
        readable(Piece::Segment { fill: (i - 1) as nat, marker, body }),
    ensures
        match jpeg_local(JpegMode::Segments, t) {
            Local::Next { st, len, events } => st == JpegMode::Segments && len == i + 3
                + body.len() && events == piece_tells(
                Piece::Segment { fill: (i - 1) as nat, marker, body },
            ),
            Local::Stop { st, len, events, demand } => st == JpegMode::Segments && events
                == piece_tells(Piece::Segment { fill: (i - 1) as nat, marker, body }) && (
            demand matches Demand::Skip(k) && len + k == i + 3 + body.len()),
        },
{
    if frame(marker) {
        assert(t[i + 3 + 1] == body[1] && t[i + 3 + 2] == body[2]);
        assert(t[i + 3 + 3] == body[3] && t[i + 3 + 4] == body[4]);
    } else if marker == 0xE1 {
        lemma_exif(body);
    }
}

proof fn lemma_unit(p: Piece, x: Seq<u8>)
    requires
        readable(p),
        piece_bytes(p).len() + x.len() <= isize::MAX,
    ensures
        moves_on(
            any_local(at_segment(), piece_bytes(p) + x),
            at_segment(),
            piece_bytes(p).len() as int,
            piece_tells(p),
        ),
        piece_bytes(p).len() >= 2,
{
    let t = piece_bytes(p) + x;
    match p {
        Piece::Segment { fill, marker, body } => {
            lemma_segment_bytes(fill, marker, body, x);
            let i = fill as int + 1;
            lemma_segment_read(t, i, marker, body);
        },
        Piece::Bare { fill, marker } => {
            lemma_fills(fill, marker, x);
            assert(t =~= fills(fill) + seq![marker] + x);
        },
    }
    assert(t.len() == piece_bytes(p).len() + x.len());
    reveal(any_local);
}

proof fn lemma_exif(body: Seq<u8>)
    ensures
        exif_payload(body) == (if begins(body, "Exif\0\0") {
            seq![EventView::Payload { kind: PayloadKind::Exif, data: body.skip(6) }]
        } else {
            seq![]
        }),
{
    lemma_prefix(body, "Exif\0\0");
    crate::formats::jpeg::lemma_exif_marker();
    if begins(body, "Exif\0\0") {
        assert(tail(body, 6) =~= body.skip(6));
    }
}

proof fn lemma_end(e: Ending)
    requires
        !(e is Nothing),
    ensures
        any_local(at_segment(), ending_bytes(e)) matches Local::Stop {
            demand: Demand::Done,
            events,
            ..
        } && events.len() == 0,
{
    reveal(any_local);
    match e {
        Ending::Scan { fill, rest } => lemma_fills(fill, 0xDA, rest),
        Ending::End { fill, rest } => lemma_fills(fill, 0xD9, rest),
        Ending::Nothing => {},
    }
}

proof fn lemma_pieces(f: Seq<u8>, pos: int, ps: Seq<Piece>, e: Ending, c: CollectorView)
    requires
        all_readable(ps),
        !(e is Nothing),
        0 <= pos <= f.len() <= isize::MAX,
        tail(f, pos) == pieces_bytes(ps) + ending_bytes(e),
    ensures
        unit_run(f, at_segment(), pos, c) == handled_all(c, pieces_tell(ps)),
    decreases ps.len(),
{
    assert(tail(f, pos).len() == f.len() - pos);
    if ps.len() == 0 {
        assert(tail(f, pos) =~= ending_bytes(e));
        lemma_end(e);
        assert(handled_all(c, seq![]) == c);
    } else {
        let p = ps[0];
        let m = ps.drop_first();
        let x = pieces_bytes(m) + ending_bytes(e);
        let n = piece_bytes(p).len() as int;
        assert(readable(p));
        assert(tail(f, pos) =~= piece_bytes(p) + x);
        lemma_unit(p, x);
        lemma_moves_on(f, at_segment(), pos, at_segment(), n, piece_tells(p), c);
        assert(tail(f, pos + n) =~= x) by {
            assert(tail(f, pos + n) =~= tail(tail(f, pos), n));
            assert(tail(piece_bytes(p) + x, n) =~= x);
        }
        assert forall|i: int| 0 <= i < m.len() implies readable(#[trigger] m[i]) by {
            assert(m[i] == ps[i + 1]);
        }
        lemma_pieces(f, pos + n, m, e, handled_all(c, piece_tells(p)));
        lemma_after(c, piece_tells(p), pieces_tell(m));
    }
}

/// A JPEG file is read as what its pieces tell, one after the other up to the first scan or
/// the end: sizes and EXIF data.
#[verifier::rlimit(60)]
pub proof fn jpeg_pieces_are_read(ps: Seq<Piece>, e: Ending, l: Limits)
    requires
        all_readable(ps),
        !(e is Nothing),
        jpeg_file(ps, e).len() <= isize::MAX,
    ensures
        metadata_of(jpeg_file(ps, e), l) == Some(
            finalized(handled_all(nothing(l), pieces_tell(ps)), FileFormat::Jpeg),
        ),
{
    let f = jpeg_file(ps, e);
    assert(f[0] == 0xFF && f[1] == 0xD8);
    assert(probed(f) == FileFormat::Jpeg);
    let st = AnyMode::Jpeg(JpegMode::Start);
    lemma_straight(f, st, 0);
    lemma_read(f, l);
    assert(tail(f, 0) =~= f);
    assert(moves_on(any_local(st, f), at_segment(), 2, seq![])) by {
        reveal(any_local);
    }
    lemma_moves_on(f, st, 0, at_segment(), 2, seq![], nothing(l));
    assert(handled_all(nothing(l), seq![]) == nothing(l));
    assert(tail(f, 2) =~= pieces_bytes(ps) + ending_bytes(e));
    lemma_pieces(f, 2, ps, e, nothing(l));
}

} // verus!
