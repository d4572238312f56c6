//! A reader finds no metadata in a stripped file but the orientation that was kept.
use vstd::prelude::*;

use crate::adapters::slice::metadata_of;
use crate::adapters::strip_slice::stripped;
use crate::bytes::{be16, be32, has_prefix, lit, sat64, tail};
use crate::codecs::exif::{byte_order, decoded, directories, directory, entries, next_link};
use crate::codecs::exif::{links_of, typed, value, Link, Progress};
use crate::cursor::{u16_at, u32_at, Endian};
use crate::demand::{Demand, EventView, Local, PayloadKind};
use crate::driver::{handled, handled_all, nothing, pull_budget, raw_of, CollectorView};
use crate::formats::jpeg::{fill_end, is_bare, jpeg_local, lemma_exif_marker, lemma_fill_end, JpegMode};
use crate::formats::png::{png_local, signature, PngMode};
use crate::laws::agreement::{lemma_slice, unit_run};
use crate::laws::plain_files::lemma_straight;
use crate::laws::stripping::{
    jpeg_clean, jpeg_kept, jpeg_stripped_is_clean, jpeg_synth, lemma_chunk_prefix,
    lemma_chunk_types, lemma_only_png, lemma_orientation_bytes, lemma_part, lemma_png_synth,
    lemma_same_fill, png_clean, png_kept, png_stripped_is_clean, png_synth,
};
use crate::limits::Limits;
use crate::model::{
    orientation_of, ExifTagView, FileFormat, IfdKind, MetadataView, RawView, StructuralView,
    ValueView, Warning,
};
use crate::normalize::{all_xmp, exif_orientation, unified};
use crate::probe::{any_local, probed, start_mode, AnyMode};
use crate::strip::exif_synth::{app1_bytes, orientation_bytes};
use crate::strip::jpeg::{jpeg_part, jpeg_walk, Part};
use crate::strip::png::{cdata, chunk_kind, ctype, is_gate, next_orientation, whole_chunk};
use crate::strip::StripOptions;

verus! {

/// The one tag that tells an orientation, as far as the limits let it be read.
pub open spec fn orientation_tags(o: Option<u16>, l: Limits) -> Seq<ExifTagView> {
    match o {
        Some(v) if l.max_tags > 0 && l.max_ifds > 0 && l.max_payload_bytes >= 2 => seq![
            ExifTagView { ifd: IfdKind::Primary, tag: 0x0112, value: ValueView::U16(v) },
        ],
        _ => seq![],
    }
}

/// The smallest EXIF data decodes to its one tag, without a warning.
pub proof fn orientation_decodes(v: u16, warnings: Seq<Warning>, l: Limits)
    ensures
        decoded(orientation_bytes(v), seq![], warnings, l) == (
            orientation_tags(Some(v), l),
            warnings,
        ),
{
    lemma_orientation_bytes(v);
    let t = orientation_bytes(v);
    let e = Endian::Little;
    assert(byte_order(t) == Some(e));
    assert(u16_at(e, t, 2) == 42);
    assert(u32_at(e, t, 4) == 8);
    assert(u16_at(e, t, 8) == 1);
    assert(u16_at(e, t, 10) == 0x0112);
    assert(u16_at(e, t, 12) == 3);
    assert(u32_at(e, t, 14) == 1);
    assert(u16_at(e, t, 18) == v);
    assert(u32_at(e, t, 22) == 0);
    let first = Link { kind: IfdKind::Primary, off: 8 };
    let p = Progress { out: seq![], warnings, links: seq![first] };
    if l.max_ifds > 0 {
        let rest = Progress { links: p.links.subrange(1, 1), ..p };
        assert(rest.links =~= seq![]);
        assert(next_link(t, e, IfdKind::Primary, 8, 1) =~= seq![]);
        let field = t.subrange(18, 20);
        assert(u16_at(e, field, 0) == v);
        assert(typed(e, 3, 1, field) == Some(ValueView::U16(v)));
        let max = l.max_payload_bytes as int;
        let out = orientation_tags(Some(v), l);
        assert(links_of(IfdKind::Primary, 0x0112, ValueView::U16(v)) =~= seq![]);
        reveal_with_fuel(entries, 2);
        let es = entries(t, e, IfdKind::Primary, 10, 1, seq![], seq![], l);
        assert(es.0 =~= out);
        assert(es.1 =~= seq![]);
        let d = directory(t, e, IfdKind::Primary, 8, rest, l);
        assert(d.links =~= seq![]);
        assert(d.out =~= out);
        assert(directories(t, e, d, (l.max_ifds - 1) as nat, l) == d);
        assert(directories(t, e, p, l.max_ifds as nat, l) == d);
    }
}

/// The same tags were found.
pub open spec fn same_tags(a: CollectorView, b: CollectorView) -> bool {
    &&& a.exif == b.exif
    &&& a.xmp == b.xmp
    &&& a.container == b.container
    &&& a.text == b.text
    &&& a.limits == b.limits
}

/// No event of `es` brings a tag.
pub open spec fn tagless(es: Seq<EventView>) -> bool {
    forall|i: int| 0 <= i < es.len() ==> (#[trigger] es[i]) is Field || es[i] is Warning
}

pub proof fn lemma_tagless(c: CollectorView, es: Seq<EventView>)
    requires
        tagless(es),
    ensures
        same_tags(handled_all(c, es), c),
    decreases es.len(),
{
    reveal(handled);
    if es.len() > 0 {
        let front = es.drop_last();
        assert forall|i: int| 0 <= i < front.len() implies (#[trigger] front[i]) is Field
            || front[i] is Warning by {
            assert(front[i] == es[i]);
        }
        lemma_tagless(c, front);
        assert(es.last() == es[es.len() - 1]);
    }
}

/// A payload of EXIF data with an orientation brings its one tag.
pub proof fn lemma_oriented(c: CollectorView, v: u16)
    requires
        c.exif.len() == 0,
    ensures
        ({
            let e = EventView::Payload { kind: PayloadKind::Exif, data: orientation_bytes(v) };
            let d = handled_all(c, seq![e]);
            &&& d.exif == orientation_tags(Some(v), c.limits)
            &&& d.xmp == c.xmp
            &&& d.container == c.container
            &&& d.text == c.text
            &&& d.limits == c.limits
        }),
{
    reveal(handled);
    let e = EventView::Payload { kind: PayloadKind::Exif, data: orientation_bytes(v) };
    reveal_with_fuel(handled_all, 2);
    assert(seq![e].drop_last() =~= seq![]);
    assert(c.exif =~= seq![]);
    orientation_decodes(v, c.warnings, c.limits);
}

/// The unit `l` brings no tag, and where reading goes on, it goes on with `st`, `n` bytes
/// further.
pub open spec fn passes(l: Local<AnyMode>, st: AnyMode, n: int) -> bool {
    match l {
        Local::Next { st: next, len, events } => next == st && len == n && tagless(events),
        Local::Stop { st: next, len, events, demand } => tagless(events) && match demand {
            Demand::Skip(k) => next == st && len + k == n,
            Demand::SeekTo(_) => false,
            _ => true,
        },
    }
}

/// The unit `l` brings no tag, and reading does not go on within the first `n` bytes.
pub open spec fn ends(l: Local<AnyMode>, n: int) -> bool {
    match l {
        Local::Next { .. } => false,
        Local::Stop { len, events, demand, .. } => tagless(events) && match demand {
            Demand::Skip(k) => len + k > n,
            Demand::SeekTo(_) => false,
            _ => true,
        },
    }
}

/// Units of JPEG files.
proof fn lemma_any_jpeg(m: JpegMode, b: Seq<u8>)
    ensures
        any_local(AnyMode::Jpeg(m), b) == (match jpeg_local(m, b) {
            Local::Next { st, len, events } => Local::Next { st: AnyMode::Jpeg(st), len, events },
            Local::Stop { st, len, events, demand } => Local::Stop {
                st: AnyMode::Jpeg(st),
                len,
                events,
                demand,
            },
        }),
{
    reveal(any_local);
}

/// A run that ends with the unit at `pos` finds no more tags.
pub proof fn lemma_ends(f: Seq<u8>, st: AnyMode, pos: int, col: CollectorView)
    requires
        0 <= pos <= f.len(),
        ends(any_local(st, tail(f, pos)), f.len() - pos),
    ensures
        same_tags(unit_run(f, st, pos, col), col),
{
    reveal_with_fuel(unit_run, 2);
    match any_local(st, tail(f, pos)) {
        Local::Next { .. } => {},
        Local::Stop { events, .. } => {
            lemma_tagless(col, events);
        },
    }
}

/// Where the unit at `pos` brings no tag, all tags are those found behind it.
pub proof fn lemma_passes(f: Seq<u8>, st: AnyMode, pos: int, col: CollectorView, next: AnyMode, n: int)
    requires
        0 <= pos <= f.len(),
        n > 0,
        passes(any_local(st, tail(f, pos)), next, n),
    ensures
        exists|c: CollectorView| #[trigger]
            same_tags(c, col) && (same_tags(unit_run(f, st, pos, col), col) || unit_run(
                f,
                st,
                pos,
                col,
            ) == unit_run(f, next, pos + n, c)),
{
    match any_local(st, tail(f, pos)) {
        Local::Next { events, .. } => {
            lemma_tagless(col, events);
            assert(same_tags(handled_all(col, events), col));
        },
        Local::Stop { events, .. } => {
            lemma_tagless(col, events);
            assert(same_tags(handled_all(col, events), col));
        },
    }
}

/// A part of a JPEG file that stays brings no tag.
proof fn lemma_jpeg_passes(t: Seq<u8>, n: int, rest: Seq<u8>, opts: StripOptions)
    requires
        jpeg_part(t, opts) == Part::Keep(n),
    ensures
        passes(
            any_local(AnyMode::Jpeg(JpegMode::Segments), t.subrange(0, n) + rest),
            AnyMode::Jpeg(JpegMode::Segments),
            n,
        ),
{
    lemma_part(t, opts);
    lemma_fill_end(t, 1);
    let i = fill_end(t, 1);
    let u = t.subrange(0, n) + rest;
    lemma_any_jpeg(JpegMode::Segments, u);
    lemma_same_fill(t, u, 1, i);
    if !is_bare(t[i]) {
        assert(u.subrange(i + 3, n) =~= t.subrange(i + 3, n));
    }
}

/// What is no segment of a JPEG file, or not all of one, brings no tag.
proof fn lemma_jpeg_ends(t: Seq<u8>, opts: StripOptions)
    requires
        jpeg_part(t, opts) is Rest || jpeg_part(t, opts) is Nothing,
    ensures
        ends(any_local(AnyMode::Jpeg(JpegMode::Segments), t), t.len() as int),
{
    lemma_any_jpeg(JpegMode::Segments, t);
    if t.len() > 0 {
        lemma_fill_end(t, 1);
    }
}

/// Nor does the end marker.
proof fn lemma_jpeg_end(t: Seq<u8>, n: int, opts: StripOptions)
    requires
        jpeg_part(t, opts) == Part::End(n),
    ensures
        ends(any_local(AnyMode::Jpeg(JpegMode::Segments), t.subrange(0, n)), n),
{
    lemma_any_jpeg(JpegMode::Segments, t.subrange(0, n));
    lemma_part(t, opts);
    lemma_fill_end(t, 1);
    lemma_same_fill(t, t.subrange(0, n), 1, fill_end(t, 1));
}

/// In the parts of a JPEG file that stay, a reader finds no tags.
proof fn lemma_jpeg_bare(f: Seq<u8>, pos: int, col: CollectorView, t: Seq<u8>, opts: StripOptions)
    requires
        0 <= pos <= f.len(),
        tail(f, pos) == jpeg_kept(t, opts),
    ensures
        same_tags(unit_run(f, AnyMode::Jpeg(JpegMode::Segments), pos, col), col),
    decreases t.len(),
{
    let st = AnyMode::Jpeg(JpegMode::Segments);
    lemma_part(t, opts);
    assert(tail(f, pos).len() == f.len() - pos);
    match jpeg_part(t, opts) {
        Part::Nothing => {
            assert(t =~= seq![]);
            lemma_jpeg_ends(t, opts);
            lemma_ends(f, st, pos, col);
        },
        Part::Rest => {
            lemma_jpeg_ends(t, opts);
            lemma_ends(f, st, pos, col);
        },
        Part::End(n) => {
            lemma_jpeg_end(t, n, opts);
            lemma_ends(f, st, pos, col);
        },
        Part::Keep(n) => {
            let rest = jpeg_kept(tail(t, n), opts);
            lemma_jpeg_passes(t, n, rest, opts);
            assert(tail(f, pos) == t.subrange(0, n) + rest);
            assert(tail(f, pos + n) =~= tail(tail(f, pos), n));
            assert(tail(tail(f, pos), n) =~= rest);
            lemma_passes(f, st, pos, col, st, n);
            let c = choose|c: CollectorView| #[trigger]
                same_tags(c, col) && (same_tags(unit_run(f, st, pos, col), col) || unit_run(
                    f,
                    st,
                    pos,
                    col,
                ) == unit_run(f, st, pos + n, c));
            lemma_jpeg_bare(f, pos + n, c, tail(t, n), opts);
        },
        Part::Drop { len, .. } => {
            lemma_jpeg_bare(f, pos, col, tail(t, len), opts);
        },
    }
}

/// What was found is the orientation `o` and nothing else.
pub open spec fn only_oriented(c: CollectorView, o: Option<u16>, l: Limits) -> bool {
    &&& c.exif == orientation_tags(o, l)
    &&& c.xmp.len() == 0
    &&& c.container.len() == 0
    &&& c.text.len() == 0
    &&& c.limits == l
}

/// The metadata `m` has no tags but the one that tells the orientation `o`.
pub open spec fn reads_oriented(m: MetadataView, o: Option<u16>, l: Limits) -> bool {
    &&& m.raw.exif == orientation_tags(o, l)
    &&& m.raw.xmp.len() == 0
    &&& m.raw.xmp_sidecar.len() == 0
    &&& m.raw.container.len() == 0
    &&& m.raw.text.len() == 0
    &&& m.unified.orientation == match o {
        Some(v) if orientation_tags(o, l).len() > 0 => orientation_of(v),
        _ => None,
    }
}

proof fn lemma_unified_orientation(raw: RawView, st: StructuralView, o: Option<u16>, l: Limits)
    requires
        raw.exif == orientation_tags(o, l),
        raw.xmp.len() == 0,
        raw.xmp_sidecar.len() == 0,
    ensures
        unified(raw, st).orientation == match o {
            Some(v) if orientation_tags(o, l).len() > 0 => orientation_of(v),
            _ => None,
        },
{
    let tags = orientation_tags(o, l);
    assert(all_xmp(raw) =~= seq![]);
    if tags.len() > 0 {
        assert(tags.drop_last() =~= seq![]);
        reveal_with_fuel(exif_orientation, 2);
    }
}

/// What is read unit by unit is what reading gives.
pub proof fn lemma_metadata(f: Seq<u8>, o: Option<u16>, l: Limits)
    requires
        f.len() <= isize::MAX,
        probed(f) == FileFormat::Jpeg || probed(f) == FileFormat::Png || probed(f)
            == FileFormat::Webp,
        only_oriented(unit_run(f, start_mode(probed(f), l).unwrap(), 0, nothing(l)), o, l),
    ensures
        metadata_of(f, l) matches Some(m) && reads_oriented(m, o, l),
{
    let st = start_mode(probed(f), l).unwrap();
    lemma_straight(f, st, 0);
    lemma_slice(f, st, 0, nothing(l), pull_budget(f.len() as int));
    let c = unit_run(f, st, 0, nothing(l));
    lemma_unified_orientation(raw_of(c), c.structural, o, l);
}

/// What is found once an orientation was read, and nothing before it.
pub open spec fn oriented(c: CollectorView, v: u16) -> CollectorView {
    handled_all(
        c,
        seq![EventView::Payload { kind: PayloadKind::Exif, data: orientation_bytes(v) }],
    )
}

/// Reading goes on behind the unit that tells an orientation.
pub proof fn lemma_step_oriented(
    f: Seq<u8>,
    st: AnyMode,
    pos: int,
    n: int,
    next: AnyMode,
    v: u16,
    c: CollectorView,
)
    requires
        0 <= pos <= f.len(),
        n > 0,
        any_local(st, tail(f, pos)) == (Local::Next {
            st: next,
            len: n,
            events: seq![
                EventView::Payload { kind: PayloadKind::Exif, data: orientation_bytes(v) },
            ],
        }),
    ensures
        unit_run(f, st, pos, c) == unit_run(f, next, pos + n, oriented(c, v)),
{
}

/// What is found in a stripped JPEG file.
proof fn lemma_jpeg_found(b: Seq<u8>, opts: StripOptions, l: Limits)
    requires
        b.len() >= 2,
        b[0] == 0xFF,
        b[1] == 0xD8,
    ensures
        only_oriented(
            unit_run(jpeg_clean(b, opts), AnyMode::Jpeg(JpegMode::Start), 0, nothing(l)),
            jpeg_walk(tail(b, 2), opts).orientation,
            l,
        ),
{
    let f = jpeg_clean(b, opts);
    let o = jpeg_walk(tail(b, 2), opts).orientation;
    let kept = jpeg_kept(tail(b, 2), opts);
    let st = AnyMode::Jpeg(JpegMode::Segments);
    let c0 = nothing(l);
    assert(f[0] == 0xFF && f[1] == 0xD8);
    lemma_jpeg_start(f, c0);
    assert(tail(f, 2) =~= jpeg_synth(o) + kept);
    match o {
        Some(v) => {
            lemma_jpeg_oriented(v, kept);
            lemma_oriented(c0, v);
            assert(tail(f, 38) =~= kept);
            lemma_step_oriented(f, st, 2, 36, st, v, c0);
            lemma_jpeg_bare(f, 38, oriented(c0, v), tail(b, 2), opts);
        },
        None => {
            assert(tail(f, 2) =~= kept);
            lemma_jpeg_bare(f, 2, c0, tail(b, 2), opts);
        },
    }
}

/// In a stripped JPEG file a reader finds the orientation that was kept, and no other tag.
pub proof fn jpeg_stripped_reads_clean(b: Seq<u8>, opts: StripOptions, l: Limits)
    requires
        probed(b) == FileFormat::Jpeg,
        jpeg_clean(b, opts).len() <= isize::MAX,
    ensures
        stripped(b, opts) matches Ok(s) && metadata_of(s.out, l) matches Some(m) && reads_oriented(
            m,
            jpeg_walk(tail(b, 2), opts).orientation,
            l,
        ),
{
    jpeg_stripped_is_clean(b, opts);
    lemma_jpeg_found(b, opts, l);
    let f = jpeg_clean(b, opts);
    assert(f[0] == 0xFF && f[1] == 0xD8);
    lemma_metadata(f, jpeg_walk(tail(b, 2), opts).orientation, l);
}

proof fn lemma_jpeg_start(f: Seq<u8>, col: CollectorView)
    requires
        f.len() >= 2,
        f[0] == 0xFF,
        f[1] == 0xD8,
    ensures
        unit_run(f, AnyMode::Jpeg(JpegMode::Start), 0, col) == unit_run(
            f,
            AnyMode::Jpeg(JpegMode::Segments),
            2,
            col,
        ),
{
    lemma_any_jpeg(JpegMode::Start, f);
    assert(tail(f, 0) =~= f);
    assert(handled_all(col, seq![]) == col);
}

/// The segment that holds an orientation is read as EXIF data.
proof fn lemma_jpeg_oriented(v: u16, x: Seq<u8>)
    ensures
        any_local(AnyMode::Jpeg(JpegMode::Segments), jpeg_synth(Some(v)) + x) == (Local::Next {
            st: AnyMode::Jpeg(JpegMode::Segments),
            len: 36,
            events: seq![
                EventView::Payload { kind: PayloadKind::Exif, data: orientation_bytes(v) },
            ],
        }),
        jpeg_synth(Some(v)).len() == 36,
{
    lemma_exif_marker();
    lemma_orientation_bytes(v);
    let s = app1_bytes(orientation_bytes(v));
    let u = s + x;
    lemma_any_jpeg(JpegMode::Segments, u);
    assert(u[0] == 0xFF && u[1] == 0xE1 && u[2] == 0 && u[3] == 34);
    assert(fill_end(u, 1) == 1);
    assert(be16(u, 2) == 34);
    let body = u.subrange(4, 36);
    assert(body.subrange(0, 6) =~= lit("Exif\0\0"));
    assert(has_prefix(body, lit("Exif\0\0")));
    assert(tail(body, 6) =~= orientation_bytes(v));
}

/// Units of PNG files.
proof fn lemma_any_png(m: PngMode, b: Seq<u8>)
    ensures
        any_local(AnyMode::Png(m), b) == (match png_local(m, b) {
            Local::Next { st, len, events } => Local::Next { st: AnyMode::Png(st), len, events },
            Local::Stop { st, len, events, demand } => Local::Stop {
                st: AnyMode::Png(st),
                len,
                events,
                demand,
            },
        }),
{
    reveal(any_local);
}

/// A chunk of a PNG file that stays brings no tag.
proof fn lemma_png_passes(at: u64, t: Seq<u8>, rest: Seq<u8>, opts: StripOptions)
    requires
        whole_chunk(t),
        t.len() <= isize::MAX,
        chunk_kind(ctype(t), cdata(t), opts) is None,
        ctype(t) != lit("IEND"),
    ensures
        passes(
            any_local(
                AnyMode::Png(PngMode::Chunks { at }),
                t.subrange(0, 12 + be32(t, 0)) + rest,
            ),
            AnyMode::Png(PngMode::Chunks { at: sat64(at + be32(t, 0) + 12) }),
            12 + be32(t, 0),
        ),
{
    let n = 12 + be32(t, 0);
    let u = t.subrange(0, n) + rest;
    lemma_any_png(PngMode::Chunks { at }, u);
    lemma_chunk_prefix(t, rest);
    assert(u.subrange(4, 8) == ctype(t));
}

/// What is no whole chunk of a PNG file brings no tag, nor does the last chunk.
proof fn lemma_png_ends(at: u64, t: Seq<u8>)
    requires
        !whole_chunk(t) || ctype(t) == lit("IEND"),
    ensures
        ends(any_local(AnyMode::Png(PngMode::Chunks { at }), t), t.len() as int),
{
    lemma_any_png(PngMode::Chunks { at }, t);
}

/// Behind the image data of a stripped PNG file, a reader finds no tags.
proof fn lemma_png_bare(
    f: Seq<u8>,
    pos: int,
    at: u64,
    col: CollectorView,
    t: Seq<u8>,
    found: Option<u16>,
    opts: StripOptions,
)
    requires
        f.len() <= isize::MAX,
        t.len() <= isize::MAX,
        0 <= pos <= f.len(),
        tail(f, pos) == png_kept(t, found, false, opts),
    ensures
        same_tags(unit_run(f, AnyMode::Png(PngMode::Chunks { at }), pos, col), col),
    decreases t.len(),
{
    let st = AnyMode::Png(PngMode::Chunks { at });
    assert(tail(f, pos).len() == f.len() - pos);
    if !whole_chunk(t) {
        lemma_png_ends(at, t);
        lemma_ends(f, st, pos, col);
    } else {
        lemma_chunk_types();
        let n = 12 + be32(t, 0);
        let own = t.subrange(0, n);
        let next = next_orientation(t, found, opts);
        let rest = png_kept(tail(t, n), next, false, opts);
        match chunk_kind(ctype(t), cdata(t), opts) {
            Some(_) => {
                assert(png_kept(t, found, false, opts) =~= rest);
                lemma_png_bare(f, pos, at, col, tail(t, n), next, opts);
            },
            None => {
                if ctype(t) == lit("IEND") {
                    assert(png_kept(t, found, false, opts) =~= own);
                    assert(ctype(own) =~= ctype(t));
                    lemma_png_ends(at, own);
                    lemma_ends(f, st, pos, col);
                } else {
                    assert(png_kept(t, found, false, opts) =~= own + rest);
                    lemma_png_passes(at, t, rest, opts);
                    assert(tail(f, pos + n) =~= tail(tail(f, pos), n));
                    assert(tail(tail(f, pos), n) =~= rest);
                    let at2 = sat64(at + be32(t, 0) + 12);
                    let st2 = AnyMode::Png(PngMode::Chunks { at: at2 });
                    lemma_passes(f, st, pos, col, st2, n);
                    let c = choose|c: CollectorView| #[trigger]
                        same_tags(c, col) && (same_tags(unit_run(f, st, pos, col), col)
                            || unit_run(f, st, pos, col) == unit_run(f, st2, pos + n, c));
                    lemma_png_bare(f, pos + n, at2, c, tail(t, n), next, opts);
                }
            },
        }
    }
}

/// The chunk that holds an orientation is read as EXIF data.
proof fn lemma_png_oriented(at: u64, v: u16, x: Seq<u8>)
    ensures
        any_local(AnyMode::Png(PngMode::Chunks { at }), png_synth(Some(v)) + x) == (Local::Next {
            st: AnyMode::Png(PngMode::Chunks { at: sat64(at + 38) }),
            len: 38,
            events: seq![
                EventView::Payload { kind: PayloadKind::Exif, data: orientation_bytes(v) },
            ],
        }),
        png_synth(Some(v)).len() == 38,
        tail(png_synth(Some(v)) + x, 38) == x,
{
    let u = png_synth(Some(v)) + x;
    lemma_any_png(PngMode::Chunks { at }, u);
    lemma_png_synth(v, x);
    lemma_chunk_types();
    lemma_header_type();
    assert(u.subrange(4, 8) == ctype(u));
    assert(u.subrange(8, 34) == cdata(u));
}

proof fn lemma_header_type()
    ensures
        lit("IHDR") != lit("eXIf"),
{
    reveal_strlit("IHDR");
    reveal_strlit("eXIf");
    vstd::string::is_ascii_spec_bytes("IHDR");
    vstd::string::is_ascii_spec_bytes("eXIf");
    assert(lit("IHDR")[0] == 0x49);
    assert(lit("eXIf")[0] == 0x65);
}

/// The orientation that is put in before the image data of `t`.
pub open spec fn png_put(t: Seq<u8>, found: Option<u16>, opts: StripOptions) -> Option<u16>
    decreases t.len(),
{
    if !whole_chunk(t) {
        None
    } else if is_gate(ctype(t)) {
        found
    } else {
        png_put(tail(t, 12 + be32(t, 0)), next_orientation(t, found, opts), opts)
    }
}

/// In the chunks of a PNG file that stay, a reader finds the orientation that was put in.
proof fn lemma_png_found(
    f: Seq<u8>,
    pos: int,
    at: u64,
    col: CollectorView,
    t: Seq<u8>,
    found: Option<u16>,
    opts: StripOptions,
)
    requires
        f.len() <= isize::MAX,
        t.len() <= isize::MAX,
        0 <= pos <= f.len(),
        tail(f, pos) == png_kept(t, found, true, opts),
        only_oriented(col, None, col.limits),
    ensures
        only_oriented(
            unit_run(f, AnyMode::Png(PngMode::Chunks { at }), pos, col),
            png_put(t, found, opts),
            col.limits,
        ),
    decreases t.len(),
{
    let st = AnyMode::Png(PngMode::Chunks { at });
    assert(tail(f, pos).len() == f.len() - pos);
    if !whole_chunk(t) {
        lemma_png_ends(at, t);
        lemma_ends(f, st, pos, col);
    } else {
        lemma_chunk_types();
        let n = 12 + be32(t, 0);
        let own = t.subrange(0, n);
        let next = next_orientation(t, found, opts);
        if is_gate(ctype(t)) {
            let rest = png_kept(t, found, false, opts);
            assert(png_kept(t, found, true, opts) =~= png_synth(found) + rest);
            match found {
                Some(v) => {
                    lemma_png_oriented(at, v, rest);
                    let at2 = sat64(at + 38);
                    let st2 = AnyMode::Png(PngMode::Chunks { at: at2 });
                    lemma_step_oriented(f, st, pos, 38, st2, v, col);
                    lemma_oriented(col, v);
                    assert(tail(f, pos + 38) =~= tail(tail(f, pos), 38));
                    lemma_png_bare(f, pos + 38, at2, oriented(col, v), t, found, opts);
                },
                None => {
                    assert(png_synth(found) + rest =~= rest);
                    lemma_png_bare(f, pos, at, col, t, found, opts);
                },
            }
        } else {
            let rest = png_kept(tail(t, n), next, true, opts);
            match chunk_kind(ctype(t), cdata(t), opts) {
                Some(_) => {
                    assert(png_kept(t, found, true, opts) =~= rest);
                    lemma_png_found(f, pos, at, col, tail(t, n), next, opts);
                },
                None => {
                    assert(png_kept(t, found, true, opts) =~= own + rest);
                    lemma_png_passes(at, t, rest, opts);
                    assert(tail(f, pos + n) =~= tail(tail(f, pos), n));
                    assert(tail(tail(f, pos), n) =~= rest);
                    let at2 = sat64(at + be32(t, 0) + 12);
                    let st2 = AnyMode::Png(PngMode::Chunks { at: at2 });
                    lemma_png_goes_on(at, t, rest, opts, f, pos, col);
                    let c = choose|c: CollectorView| #[trigger]
                        same_tags(c, col) && unit_run(f, st, pos, col) == unit_run(
                            f,
                            st2,
                            pos + n,
                            c,
                        );
                    lemma_png_found(f, pos + n, at2, c, tail(t, n), next, opts);
                },
            }
        }
    }
}

/// Behind a whole chunk reading goes on.
proof fn lemma_png_goes_on(
    at: u64,
    t: Seq<u8>,
    rest: Seq<u8>,
    opts: StripOptions,
    f: Seq<u8>,
    pos: int,
    col: CollectorView,
)
    requires
        whole_chunk(t),
        t.len() <= isize::MAX,
        chunk_kind(ctype(t), cdata(t), opts) is None,
        ctype(t) != lit("IEND"),
        0 <= pos <= f.len(),
        tail(f, pos) == t.subrange(0, 12 + be32(t, 0)) + rest,
    ensures
        exists|c: CollectorView| #[trigger]
            same_tags(c, col) && unit_run(f, AnyMode::Png(PngMode::Chunks { at }), pos, col)
                == unit_run(
                f,
                AnyMode::Png(PngMode::Chunks { at: sat64(at + be32(t, 0) + 12) }),
                pos + 12 + be32(t, 0),
                c,
            ),
{
    let n = 12 + be32(t, 0);
    let u = t.subrange(0, n) + rest;
    let st = AnyMode::Png(PngMode::Chunks { at });
    lemma_png_passes(at, t, rest, opts);
    lemma_any_png(PngMode::Chunks { at }, u);
    lemma_chunk_prefix(t, rest);
    assert(u.subrange(4, 8) == ctype(t));
    match any_local(st, u) {
        Local::Next { events, .. } => {
            lemma_tagless(col, events);
            assert(same_tags(handled_all(col, events), col));
        },
        Local::Stop { events, .. } => {
            lemma_tagless(col, events);
            assert(same_tags(handled_all(col, events), col));
        },
    }
}

proof fn lemma_png_start(f: Seq<u8>, col: CollectorView)
    requires
        signature(f),
    ensures
        unit_run(f, AnyMode::Png(PngMode::Start), 0, col) == unit_run(
            f,
            AnyMode::Png(PngMode::Chunks { at: 8 }),
            8,
            col,
        ),
{
    lemma_any_png(PngMode::Start, f);
    assert(tail(f, 0) =~= f);
    assert(handled_all(col, seq![]) == col);
}

/// In a stripped PNG file a reader finds the orientation that was kept, and no other tag.
#[verifier::rlimit(40)]
pub proof fn png_stripped_reads_clean(b: Seq<u8>, opts: StripOptions, l: Limits)
    requires
        probed(b) == FileFormat::Png,
        b.len() <= isize::MAX,
        png_clean(b, opts).len() <= isize::MAX,
    ensures
        stripped(b, opts) matches Ok(s) && metadata_of(s.out, l) matches Some(m) && reads_oriented(
            m,
            png_put(tail(b, 8), None, opts),
            l,
        ),
{
    png_stripped_is_clean(b, opts);
    lemma_only_png(b);
    let f = png_clean(b, opts);
    assert(signature(f));
    assert(tail(f, 8) =~= png_kept(tail(b, 8), None, true, opts));
    lemma_png_start(f, nothing(l));
    lemma_png_found(f, 8, 8, nothing(l), tail(b, 8), None, opts);
    lemma_metadata(f, png_put(tail(b, 8), None, opts), l);
}

} // verus!
