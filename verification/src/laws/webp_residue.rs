//! A reader finds no metadata in a stripped WebP file but the orientation that was kept.
use vstd::prelude::*;

use crate::adapters::slice::metadata_of;
use crate::adapters::strip_slice::stripped;
use crate::bytes::{has_prefix, le32, le32_bytes, lit, tail};
use crate::demand::{EventView, Local, PayloadKind};
use crate::driver::{handled_all, nothing, CollectorView};
use crate::formats::jpeg::lemma_exif_marker;
use crate::formats::webp::{dims_len, riff_webp, unmarked, webp_local, WebpMode};
use crate::laws::agreement::unit_run;
use crate::laws::residue::{
    ends, lemma_ends, lemma_metadata, lemma_oriented, lemma_step_oriented, lemma_tagless,
    only_oriented, oriented, passes, reads_oriented, same_tags,
};
use crate::laws::stripping::lemma_orientation_bytes;
use crate::laws::webp_stripping::{
    all_chunks, flat, fourcc, is_chunk, is_remnant, kept, lemma_chunk_front, lemma_commute,
    lemma_exif_chunk, lemma_flagged_chunks, lemma_frame, lemma_kept, lemma_once_is_webp,
    lemma_pieces, lemma_reflagged, lemma_reflagged_stays, lemma_rest_chunks, lemma_webp_word,
    none_goes, placed, reflagged, riff_chunks, riff_rest, settled, webp_clean, webp_flagged,
    webp_orientation, webp_stripped_is_clean,
};
use crate::limits::Limits;
use crate::model::FileFormat;
use crate::probe::{any_local, probed, AnyMode};
use crate::strip::exif_synth::orientation_bytes;
use crate::strip::webp::{data_end, exif_chunk, riff_kind};
use crate::strip::StripOptions;

verus! {

/// Units of WebP files.
proof fn lemma_any_webp(m: WebpMode, b: Seq<u8>)
    ensures
        any_local(AnyMode::Webp(m), b) == (match webp_local(m, b) {
            Local::Next { st, len, events } => Local::Next { st: AnyMode::Webp(st), len, events },
            Local::Stop { st, len, events, demand } => Local::Stop {
                st: AnyMode::Webp(st),
                len,
                events,
                demand,
            },
        }),
{
    reveal(any_local);
}

/// What is left of the container behind `n` bytes.
pub open spec fn left_after(left: u64, n: int) -> u64 {
    if left < n {
        0
    } else {
        (left - n) as u64
    }
}

pub open spec fn at_chunk(left: u64) -> AnyMode {
    AnyMode::Webp(WebpMode::Chunks { left })
}

/// Holds neither EXIF nor XMP.
pub open spec fn plain_chunk(c: Seq<u8>) -> bool {
    fourcc(c) != lit("EXIF") && fourcc(c) != lit("XMP ")
}

/// A chunk that is neither EXIF nor XMP brings no tag.
proof fn lemma_webp_passes(left: u64, c: Seq<u8>, x: Seq<u8>)
    requires
        is_chunk(c),
        plain_chunk(c),
    ensures
        passes(any_local(at_chunk(left), c + x), at_chunk(left_after(left, c.len() as int)), c.len() as int),
        left > 0 ==> (any_local(at_chunk(left), c + x) matches Local::Stop { demand, .. }
            && demand is Skip),
{
    lemma_any_webp(WebpMode::Chunks { left }, c + x);
    lemma_chunk_front(c, x);
}

/// Behind such a chunk reading goes on, unless the container ends before it.
proof fn lemma_webp_goes_on(f: Seq<u8>, pos: int, left: u64, c: Seq<u8>, x: Seq<u8>, col: CollectorView)
    requires
        is_chunk(c),
        plain_chunk(c),
        0 <= pos <= f.len(),
        tail(f, pos) == c + x,
    ensures
        tail(f, pos + c.len()) == x,
        pos + c.len() <= f.len(),
        left == 0 ==> same_tags(unit_run(f, at_chunk(left), pos, col), col),
        left > 0 ==> exists|d: CollectorView| #[trigger]
            same_tags(d, col) && unit_run(f, at_chunk(left), pos, col) == unit_run(
                f,
                at_chunk(left_after(left, c.len() as int)),
                pos + c.len(),
                d,
            ),
{
    lemma_webp_passes(left, c, x);
    lemma_any_webp(WebpMode::Chunks { left }, c + x);
    if left == 0 {
        lemma_ends(f, at_chunk(left), pos, col);
    }
    assert(tail(f, pos).len() == f.len() - pos);
    assert(tail(f, pos + c.len()) =~= tail(tail(f, pos), c.len() as int));
    assert(tail(c + x, c.len() as int) =~= x);
    match any_local(at_chunk(left), tail(f, pos)) {
        Local::Next { events, .. } => {
            lemma_tagless(col, events);
        },
        Local::Stop { events, .. } => {
            lemma_tagless(col, events);
            assert(same_tags(handled_all(col, events), col));
        },
    }
}

/// A rest that cannot be read as EXIF or XMP.
pub open spec fn unreadable(rest: Seq<u8>) -> bool {
    rest.len() >= 8 && data_end(rest) <= rest.len() ==> plain_chunk(rest)
}

proof fn lemma_webp_ends(left: u64, rest: Seq<u8>)
    requires
        is_remnant(rest),
        unreadable(rest),
    ensures
        ends(any_local(at_chunk(left), rest), rest.len() as int),
{
    lemma_any_webp(WebpMode::Chunks { left }, rest);
}

pub open spec fn all_plain(l: Seq<Seq<u8>>) -> bool {
    forall|i: int| 0 <= i < l.len() ==> plain_chunk(#[trigger] l[i])
}

proof fn lemma_rest_plain(l: Seq<Seq<u8>>)
    requires
        all_plain(l),
        l.len() > 0,
    ensures
        all_plain(l.drop_first()),
        plain_chunk(l[0]),
{
    assert forall|i: int| 0 <= i < l.drop_first().len() implies plain_chunk(
        #[trigger] l.drop_first()[i],
    ) by {
        assert(l.drop_first()[i] == l[i + 1]);
    }
}

/// In chunks that are neither EXIF nor XMP a reader finds no tags.
proof fn lemma_webp_bare(
    f: Seq<u8>,
    pos: int,
    left: u64,
    col: CollectorView,
    l: Seq<Seq<u8>>,
    rest: Seq<u8>,
)
    requires
        0 <= pos <= f.len(),
        all_chunks(l),
        all_plain(l),
        is_remnant(rest),
        unreadable(rest),
        tail(f, pos) == flat(l) + rest,
    ensures
        same_tags(unit_run(f, at_chunk(left), pos, col), col),
    decreases l.len(),
{
    assert(tail(f, pos).len() == f.len() - pos);
    if l.len() == 0 {
        assert(flat(l) + rest =~= rest);
        lemma_webp_ends(left, rest);
        lemma_ends(f, at_chunk(left), pos, col);
    } else {
        lemma_rest_chunks(l);
        lemma_rest_plain(l);
        let x = flat(l.drop_first()) + rest;
        assert(flat(l) + rest =~= l[0] + x);
        lemma_webp_goes_on(f, pos, left, l[0], x, col);
        if left > 0 {
            let left2 = left_after(left, l[0].len() as int);
            let d = choose|d: CollectorView| #[trigger]
                same_tags(d, col) && unit_run(f, at_chunk(left), pos, col) == unit_run(
                    f,
                    at_chunk(left2),
                    pos + l[0].len(),
                    d,
                );
            lemma_webp_bare(f, pos + l[0].len(), left2, d, l.drop_first(), rest);
        }
    }
}

/// The smallest EXIF data does not start with the marker of JPEG.
proof fn lemma_unmarked(v: u16)
    ensures
        unmarked(orientation_bytes(v)) == orientation_bytes(v),
{
    let d = orientation_bytes(v);
    lemma_exif_marker();
    lemma_orientation_bytes(v);
    assert(d[0] == 0x49);
    assert(d.subrange(0, 6)[0] == d[0]);
    assert(lit("Exif\0\0")[0] == 0x45);
    assert(!has_prefix(d, lit("Exif\0\0")));
}

/// A chunk `u` of 26 bytes of EXIF data is read as such.
proof fn lemma_exif_read(left: u64, u: Seq<u8>, d: Seq<u8>)
    requires
        left > 0,
        u.len() >= 34,
        u.subrange(0, 4) == lit("EXIF"),
        le32(u, 4) == 26,
        u.subrange(8, 34) == d,
        unmarked(d) == d,
    ensures
        webp_local(WebpMode::Chunks { left }, u) == (Local::Next {
            st: WebpMode::Chunks { left: left_after(left, 34) },
            len: 34,
            events: seq![EventView::Payload { kind: PayloadKind::Exif, data: d }],
        }),
{
    lemma_exif_no_dims();
}

/// The chunk that holds an orientation is read as EXIF data.
proof fn lemma_webp_oriented(left: u64, v: u16, x: Seq<u8>)
    requires
        left > 0,
    ensures
        any_local(at_chunk(left), exif_chunk(Some(v)) + x) == (Local::Next {
            st: at_chunk(left_after(left, 34)),
            len: 34,
            events: seq![
                EventView::Payload { kind: PayloadKind::Exif, data: orientation_bytes(v) },
            ],
        }),
{
    let c = exif_chunk(Some(v));
    let u = c + x;
    lemma_any_webp(WebpMode::Chunks { left }, u);
    assert(u.len() >= 34 && u.subrange(0, 4) == lit("EXIF") && le32(u, 4) == 26 && u.subrange(
        8,
        34,
    ) == orientation_bytes(v)) by {
        lemma_exif_chunk(v);
        lemma_chunk_front(c, x);
    }
    lemma_unmarked(v);
    lemma_exif_read(left, u, orientation_bytes(v));
}

proof fn lemma_exif_no_dims()
    ensures
        dims_len(lit("EXIF")) is None,
        lit("EXIF") != lit("XMP "),
{
    reveal_strlit("EXIF");
    reveal_strlit("VP8X");
    reveal_strlit("VP8 ");
    reveal_strlit("VP8L");
    reveal_strlit("XMP ");
    vstd::string::is_ascii_spec_bytes("EXIF");
    vstd::string::is_ascii_spec_bytes("VP8X");
    vstd::string::is_ascii_spec_bytes("VP8 ");
    vstd::string::is_ascii_spec_bytes("VP8L");
    vstd::string::is_ascii_spec_bytes("XMP ");
    assert(lit("EXIF")[0] == 0x45);
    assert(lit("VP8X")[0] == 0x56);
    assert(lit("VP8 ")[0] == 0x56);
    assert(lit("VP8L")[0] == 0x56);
    assert(lit("XMP ")[0] == 0x58);
}

/// Reading from the chunk with the orientation on.
proof fn lemma_webp_exif(
    f: Seq<u8>,
    pos: int,
    left: u64,
    col: CollectorView,
    v: u16,
    m: Seq<Seq<u8>>,
    rest: Seq<u8>,
)
    requires
        0 <= pos <= f.len(),
        all_chunks(m),
        all_plain(m),
        is_remnant(rest),
        unreadable(rest),
        tail(f, pos) == exif_chunk(Some(v)) + (flat(m) + rest),
        only_oriented(col, None, col.limits),
    ensures
        left == 0 ==> only_oriented(unit_run(f, at_chunk(left), pos, col), None, col.limits),
        left > 0 ==> only_oriented(unit_run(f, at_chunk(left), pos, col), Some(v), col.limits),
{
    let x = flat(m) + rest;
    let c = exif_chunk(Some(v));
    lemma_exif_chunk(v);
    assert(tail(f, pos).len() == f.len() - pos);
    assert(tail(f, pos + 34) =~= tail(tail(f, pos), 34));
    assert(tail(c + x, 34) =~= x);
    if left == 0 {
        lemma_any_webp(WebpMode::Chunks { left }, c + x);
        lemma_ends(f, at_chunk(left), pos, col);
    } else {
        lemma_webp_oriented(left, v, x);
        let left2 = left_after(left, 34);
        lemma_step_oriented(f, at_chunk(left), pos, 34, at_chunk(left2), v, col);
        lemma_oriented(col, v);
        lemma_webp_bare(f, pos + 34, left2, oriented(col, v), m, rest);
    }
}

/// What is found: the orientation `o`, or nothing where the container does not reach
/// that far.
pub open spec fn found_within(c: CollectorView, o: Option<u16>, l: Limits, whole: bool) -> bool {
    only_oriented(c, o, l) || (!whole && only_oriented(c, None, l))
}

/// In chunks with an orientation put in a reader finds that orientation.
proof fn lemma_webp_found(
    f: Seq<u8>,
    pos: int,
    left: u64,
    col: CollectorView,
    l: Seq<Seq<u8>>,
    o: Option<u16>,
    rest: Seq<u8>,
)
    requires
        0 <= pos <= f.len(),
        all_chunks(l),
        all_plain(l),
        is_remnant(rest),
        unreadable(rest),
        tail(f, pos) == flat(placed(l, o)) + rest,
        only_oriented(col, None, col.limits),
    ensures
        found_within(
            unit_run(f, at_chunk(left), pos, col),
            o,
            col.limits,
            left >= flat(placed(l, o)).len(),
        ),
    decreases l.len(),
{
    match o {
        None => {
            lemma_webp_bare(f, pos, left, col, l, rest);
        },
        Some(v) => {
            lemma_exif_chunk(v);
            let e = exif_chunk(o);
            let p = placed(l, o);
            if l.len() == 0 {
                assert(p.drop_first() =~= seq![]);
                assert(flat(p) == e + flat(p.drop_first()));
                assert(flat(p) + rest =~= e + (flat(seq![]) + rest));
                lemma_webp_exif(f, pos, left, col, v, seq![], rest);
            } else {
                lemma_rest_chunks(l);
                lemma_rest_plain(l);
                let c = l[0];
                let m = l.drop_first();
                let q = p.drop_first();
                assert(p[0] == c);
                assert(flat(p) == c + flat(q));
                assert(flat(p) + rest =~= c + (flat(q) + rest));
                lemma_webp_goes_on(f, pos, left, c, flat(q) + rest, col);
                if left > 0 {
                    let left2 = left_after(left, c.len() as int);
                    let d = choose|d: CollectorView| #[trigger]
                        same_tags(d, col) && unit_run(f, at_chunk(left), pos, col) == unit_run(
                            f,
                            at_chunk(left2),
                            pos + c.len(),
                            d,
                        );
                    if fourcc(c) == lit("VP8X") {
                        assert(q =~= seq![e] + m);
                        assert(q[0] == e);
                        assert(q.drop_first() =~= m);
                        assert(flat(q) == e + flat(m));
                        assert(flat(q) + rest =~= e + (flat(m) + rest));
                        lemma_webp_exif(f, pos + c.len(), left2, d, v, m, rest);
                    } else {
                        assert(q =~= placed(m, o));
                        lemma_webp_found(f, pos + c.len(), left2, d, m, o, rest);
                    }
                }
            }
        },
    }
}

proof fn lemma_webp_start(f: Seq<u8>, col: CollectorView)
    requires
        riff_webp(f),
    ensures
        unit_run(f, AnyMode::Webp(WebpMode::Start), 0, col) == unit_run(
            f,
            at_chunk(left_after(le32(f, 4) as u64, 4)),
            12,
            col,
        ),
{
    lemma_any_webp(WebpMode::Start, f);
    assert(tail(f, 0) =~= f);
    assert(handled_all(col, seq![]) == col);
}

/// Of the chunks that stay, none is EXIF or XMP.
proof fn lemma_stays_plain(l: Seq<Seq<u8>>, opts: StripOptions)
    requires
        none_goes(l, opts),
    ensures
        all_plain(l),
{
    assert forall|i: int| 0 <= i < l.len() implies plain_chunk(#[trigger] l[i]) by {
        assert(riff_kind(fourcc(l[i]), opts) is None);
    }
}

/// The stripped file in its parts.
proof fn lemma_webp_parts(b: Seq<u8>, opts: StripOptions) -> (k: Seq<Seq<u8>>)
    ensures
        all_chunks(k),
        all_plain(k),
        ({
            let f = webp_clean(b, opts);
            let p = placed(k, webp_orientation(b, opts));
            &&& riff_webp(f)
            &&& tail(f, 12) == flat(p) + riff_rest(tail(b, 12))
            &&& f.len() == 12 + flat(p).len() + riff_rest(tail(b, 12)).len()
            &&& le32(f, 4) == (f.len() - 8) % 0x1_0000_0000
        }),
{
    let t = tail(b, 12);
    let o = webp_orientation(b, opts);
    let x = settled(b, opts);
    lemma_pieces(t);
    lemma_kept(riff_chunks(t), opts);
    let k0 = kept(riff_chunks(t), opts);
    let k = reflagged(k0, x);
    lemma_reflagged(k0, x);
    lemma_reflagged_stays(k0, x, opts);
    lemma_stays_plain(k, opts);
    lemma_commute(k0, o, x);
    lemma_flagged_chunks(b, opts);
    let rest = riff_rest(t);
    let body = webp_flagged(b, opts) + rest;
    let n = (body.len() % 0x1_0000_0000) as u32;
    lemma_frame(flat(placed(k, o)), rest, n);
    lemma_webp_word();
    let f = webp_clean(b, opts);
    assert(f.subrange(4, 8) =~= le32_bytes(n));
    lemma_le32(f, n);
    k
}

proof fn lemma_le32(f: Seq<u8>, n: u32)
    requires
        f.len() >= 8,
        f.subrange(4, 8) == le32_bytes(n),
    ensures
        le32(f, 4) == n,
{
    let s = f.subrange(4, 8);
    assert(f[4] == s[0] && f[5] == s[1] && f[6] == s[2] && f[7] == s[3]);
    assert(n == (n / 0x100_0000) * 0x100_0000 + (n / 0x1_0000 % 0x100) * 0x1_0000 + (n / 0x100
        % 0x100) * 0x100 + n % 0x100);
}

/// What is found in a stripped WebP file.
#[verifier::spinoff_prover]
#[verifier::rlimit(50)]
proof fn lemma_webp_read(b: Seq<u8>, opts: StripOptions, l: Limits)
    requires
        unreadable(riff_rest(tail(b, 12))),
    ensures
        probed(webp_clean(b, opts)) == FileFormat::Webp,
        found_within(
            unit_run(webp_clean(b, opts), AnyMode::Webp(WebpMode::Start), 0, nothing(l)),
            webp_orientation(b, opts),
            l,
            webp_clean(b, opts).len() - 8 <= u32::MAX,
        ),
{
    let f = webp_clean(b, opts);
    let o = webp_orientation(b, opts);
    let rest = riff_rest(tail(b, 12));
    let k = lemma_webp_parts(b, opts);
    lemma_pieces(tail(b, 12));
    let left = left_after(le32(f, 4) as u64, 4);
    lemma_webp_start(f, nothing(l));
    lemma_once_is_webp(f);
    lemma_webp_found(f, 12, left, nothing(l), k, o, rest);
}

/// In a stripped WebP file a reader finds the orientation that was kept, and no other tag,
/// unless the file ends in a whole EXIF or XMP chunk that lacks its padding. In a file that
/// is longer than its header can say, the orientation may lie behind the end that the header
/// gives.
pub proof fn webp_stripped_reads_clean(b: Seq<u8>, opts: StripOptions, l: Limits)
    requires
        probed(b) == FileFormat::Webp,
        webp_clean(b, opts).len() <= isize::MAX,
        unreadable(riff_rest(tail(b, 12))),
    ensures
        stripped(b, opts) matches Ok(s) && metadata_of(s.out, l) matches Some(m) && {
            ||| reads_oriented(m, webp_orientation(b, opts), l)
            ||| s.out.len() - 8 > u32::MAX && reads_oriented(m, None, l)
        },
{
    webp_stripped_is_clean(b, opts);
    let f = webp_clean(b, opts);
    let o = webp_orientation(b, opts);
    lemma_webp_read(b, opts, l);
    if only_oriented(unit_run(f, AnyMode::Webp(WebpMode::Start), 0, nothing(l)), o, l) {
        lemma_metadata(f, o, l);
    } else {
        lemma_metadata(f, None, l);
    }
}

} // verus!
