//! What stripping leaves behind, and that stripping twice is stripping once.
use vstd::prelude::*;

use crate::adapters::strip_slice::stripped;
use crate::bytes::{be16, be32, has_prefix, lit, tail};
use crate::codecs::exif::byte_order;
use crate::cursor::{u16_at, u32_at, Endian};
use crate::formats::jpeg::{fill_end, is_bare, lemma_exif_marker, lemma_fill_end};
use crate::formats::png::signature;
use crate::model::FileFormat;
use crate::probe::probed;
use crate::strip::exif_synth::{app1_bytes, chunk_bytes, orientation_bytes};
use crate::strip::jpeg::{
    entry_orientation, is_jpeg, jpeg_part, jpeg_walk, synthesized, tiff_orientation, Part,
};
use crate::strip::png::{
    cdata, chunk_cmd, chunk_kind, ctype, is_gate, next_orientation, png_walk,
    synthesized as png_synthesized, whole_chunk,
};
use crate::strip::{
    applied, applied_all, nothing_stripped, strip_run, AnyStrip, AnyStripper, CmdView, RemovedKind,
    StripOptions, Stripped,
};

verus! {

/// The bytes of the smallest EXIF data.
pub proof fn lemma_orientation_bytes(v: u16)
    ensures
        orientation_bytes(v).len() == 26,
        orientation_bytes(v) == seq![
            0x49u8, 0x49u8, 42u8, 0u8, 8u8, 0u8, 0u8, 0u8, 1u8, 0u8, 0x12u8, 0x01u8, 3u8, 0u8,
            1u8, 0u8, 0u8, 0u8, (v % 0x100) as u8, (v / 0x100) as u8, 0u8, 0u8, 0u8, 0u8, 0u8,
            0u8,
        ],
{
    reveal_strlit("II");
    vstd::string::is_ascii_spec_bytes("II");
    assert(lit("II") =~= seq![0x49u8, 0x49u8]);
    assert(orientation_bytes(v) =~= seq![
        0x49u8, 0x49u8, 42u8, 0u8, 8u8, 0u8, 0u8, 0u8, 1u8, 0u8, 0x12u8, 0x01u8, 3u8, 0u8, 1u8,
        0u8, 0u8, 0u8, (v % 0x100) as u8, (v / 0x100) as u8, 0u8, 0u8, 0u8, 0u8, 0u8, 0u8,
    ]);
}

/// The smallest EXIF data has 26 bytes.
pub proof fn lemma_orientation_len(v: u16)
    ensures
        orientation_bytes(v).len() == 26,
{
    lemma_orientation_bytes(v);
}

/// The smallest EXIF data gives back the orientation that was put in.
pub proof fn orientation_round_trips(v: u16)
    ensures
        tiff_orientation(orientation_bytes(v)) == Some(v),
{
    lemma_orientation_bytes(v);
    let t = orientation_bytes(v);
    let e = Endian::Little;
    assert(byte_order(t) == Some(e));
    assert(u32_at(e, t, 4) == 8);
    assert(u16_at(e, t, 8) == 1);
    assert(u16_at(e, t, 10) == 0x0112);
    assert(u16_at(e, t, 18) == v);
    assert(entry_orientation(e, t, 10, 1) == Some(v));
}

/// The bytes of `t` that stay.
pub open spec fn jpeg_kept(t: Seq<u8>, opts: StripOptions) -> Seq<u8>
    decreases t.len(),
{
    match jpeg_part(t, opts) {
        Part::Nothing => seq![],
        Part::Rest => t,
        Part::End(n) => t.subrange(0, n),
        Part::Keep(n) => if 0 < n <= t.len() {
            t.subrange(0, n) + jpeg_kept(tail(t, n), opts)
        } else {
            seq![]
        },
        Part::Drop { len, .. } => if 0 < len <= t.len() {
            jpeg_kept(tail(t, len), opts)
        } else {
            seq![]
        },
    }
}

/// How far a part reaches.
pub proof fn lemma_part(t: Seq<u8>, opts: StripOptions)
    ensures
        match jpeg_part(t, opts) {
            Part::Nothing => t.len() == 0,
            Part::Rest => t.len() > 0,
            Part::End(n) => 0 < n <= t.len(),
            Part::Keep(n) => 0 < n <= t.len(),
            Part::Drop { len, .. } => 0 < len <= t.len(),
        },
{
    if t.len() > 0 {
        lemma_fill_end(t, 1);
    }
}

/// Commands one after the other.
pub proof fn lemma_applied_split(w: Seq<u8>, a: Stripped, x: Seq<CmdView>, y: Seq<CmdView>)
    ensures
        applied_all(w, a, x + y) == applied_all(w, applied_all(w, a, x), y),
    decreases x.len(),
{
    if x.len() == 0 {
        assert(x + y =~= y);
    } else {
        assert((x + y).drop_first() =~= x.drop_first() + y);
        lemma_applied_split(w, applied(w, a, x[0]), x.drop_first(), y);
    }
}

proof fn lemma_applied_one(w: Seq<u8>, a: Stripped, c: CmdView)
    ensures
        applied_all(w, a, seq![c]) == applied(w, a, c),
{
    reveal_with_fuel(applied_all, 2);
    assert(seq![c].drop_first() =~= seq![]);
}

/// The commands of a walk put out the bytes that stay.
proof fn lemma_jpeg_out(w: Seq<u8>, p: int, a: Stripped, opts: StripOptions)
    requires
        0 <= p <= w.len(),
        a.cur == p,
    ensures
        applied_all(w, a, jpeg_walk(tail(w, p), opts).cmds).out == a.out + jpeg_kept(
            tail(w, p),
            opts,
        ),
    decreases w.len() - p,
{
    let t = tail(w, p);
    lemma_part(t, opts);
    let cmds = jpeg_walk(t, opts).cmds;
    match jpeg_part(t, opts) {
        Part::Nothing => {
            assert(a.out + seq![] =~= a.out);
        },
        Part::Rest => {
            let c = CmdView::Emit(t.len() as int);
            assert(cmds =~= seq![c]);
            lemma_applied_one(w, a, c);
            assert(w.subrange(p, w.len() as int) =~= t);
        },
        Part::End(n) => {
            let c = CmdView::Emit(n);
            assert(cmds =~= seq![c]);
            lemma_applied_one(w, a, c);
            assert(w.subrange(p, p + n) =~= t.subrange(0, n));
        },
        Part::Keep(n) => {
            let c = CmdView::Emit(n);
            let rest = tail(t, n);
            assert(rest =~= tail(w, p + n));
            assert(cmds =~= seq![c] + jpeg_walk(rest, opts).cmds);
            lemma_applied_split(w, a, seq![c], jpeg_walk(rest, opts).cmds);
            lemma_applied_one(w, a, c);
            let b = applied(w, a, c);
            lemma_jpeg_out(w, p + n, b, opts);
            assert(w.subrange(p, p + n) =~= t.subrange(0, n));
            assert(b.out + jpeg_kept(rest, opts) =~= a.out + (t.subrange(0, n) + jpeg_kept(
                rest,
                opts,
            )));
        },
        Part::Drop { len, kind, orientation } => {
            let c = CmdView::Drop { len, kind };
            let rest = tail(t, len);
            assert(rest =~= tail(w, p + len));
            assert(cmds =~= seq![c] + jpeg_walk(rest, opts).cmds);
            lemma_applied_split(w, a, seq![c], jpeg_walk(rest, opts).cmds);
            lemma_applied_one(w, a, c);
            lemma_jpeg_out(w, p + len, applied(w, a, c), opts);
        },
    }
}

/// The segment that holds an orientation.
pub open spec fn jpeg_synth(o: Option<u16>) -> Seq<u8> {
    match o {
        Some(v) => app1_bytes(orientation_bytes(v)),
        None => seq![],
    }
}

/// The stripped JPEG file.
pub open spec fn jpeg_clean(b: Seq<u8>, opts: StripOptions) -> Seq<u8> {
    b.subrange(0, 2) + jpeg_synth(jpeg_walk(tail(b, 2), opts).orientation) + jpeg_kept(
        tail(b, 2),
        opts,
    )
}

/// Stripping a JPEG file gives the start marker, the orientation and the parts that stay.
pub proof fn jpeg_stripped_is_clean(b: Seq<u8>, opts: StripOptions)
    requires
        probed(b) == FileFormat::Jpeg,
    ensures
        stripped(b, opts) matches Ok(s) && s.out == jpeg_clean(b, opts),
{
    assert(is_jpeg(b));
    let st = AnyStrip::Jpeg(opts);
    assert(tail(b, 0) =~= b);
    let a = nothing_stripped();
    let walked = jpeg_walk(tail(b, 2), opts);
    let first = seq![CmdView::Emit(2)];
    let synth = synthesized(walked.orientation);
    lemma_applied_split(b, a, first + synth, walked.cmds);
    lemma_applied_split(b, a, first, synth);
    lemma_applied_one(b, a, CmdView::Emit(2));
    let a1 = applied(b, a, CmdView::Emit(2));
    assert(a1.out =~= b.subrange(0, 2));
    let a2 = applied_all(b, a1, synth);
    match walked.orientation {
        Some(v) => {
            lemma_applied_one(b, a1, CmdView::Insert(app1_bytes(orientation_bytes(v))));
        },
        None => {
            assert(a1.out + seq![] =~= a1.out);
        },
    }
    assert(a2.out =~= b.subrange(0, 2) + jpeg_synth(walked.orientation));
    lemma_jpeg_out(b, 2, a2, opts);
    assert(strip_run::<AnyStripper>(b, st, 0, a).out =~= jpeg_clean(b, opts));
}

/// A part that stays is told from its own bytes.
proof fn lemma_part_prefix(t: Seq<u8>, n: int, x: Seq<u8>, opts: StripOptions)
    requires
        jpeg_part(t, opts) == Part::Keep(n) || jpeg_part(t, opts) == Part::End(n),
    ensures
        jpeg_part(t.subrange(0, n) + x, opts) == jpeg_part(t, opts),
{
    lemma_part(t, opts);
    let u = t.subrange(0, n) + x;
    lemma_fill_end(t, 1);
    let i = fill_end(t, 1);
    lemma_same_fill(t, u, 1, i);
    if !(t[i] == 0xD9 || is_bare(t[i])) {
        let end = i + 1 + be16(t, i + 1);
        assert(u.subrange(i + 3, end) =~= t.subrange(i + 3, end));
    }
}

pub proof fn lemma_same_fill(t: Seq<u8>, u: Seq<u8>, k: int, i: int)
    requires
        0 <= k <= i,
        i < t.len(),
        i < u.len(),
        fill_end(t, k) == i,
        forall|j: int| k <= j <= i ==> t[j] == u[j],
    ensures
        fill_end(u, k) == i,
    decreases i - k,
{
    lemma_fill_end(t, k);
    if k < i {
        lemma_same_fill(t, u, k + 1, i);
    }
}

/// What stays once stays again, and gives no orientation.
proof fn lemma_kept_again(t: Seq<u8>, opts: StripOptions)
    ensures
        jpeg_kept(jpeg_kept(t, opts), opts) == jpeg_kept(t, opts),
        jpeg_walk(jpeg_kept(t, opts), opts).orientation is None,
    decreases t.len(),
{
    lemma_part(t, opts);
    match jpeg_part(t, opts) {
        Part::Nothing => {},
        Part::Rest => {},
        Part::End(n) => {
            lemma_part_prefix(t, n, seq![], opts);
            assert(t.subrange(0, n) + seq![] =~= t.subrange(0, n));
            assert(t.subrange(0, n).subrange(0, n) =~= t.subrange(0, n));
        },
        Part::Keep(n) => {
            let rest = jpeg_kept(tail(t, n), opts);
            lemma_kept_again(tail(t, n), opts);
            lemma_part_prefix(t, n, rest, opts);
            let u = t.subrange(0, n) + rest;
            assert(tail(u, n) =~= rest);
            assert(u.subrange(0, n) =~= t.subrange(0, n));
        },
        Part::Drop { len, .. } => {
            lemma_kept_again(tail(t, len), opts);
        },
    }
}

/// An orientation is only found where it is kept.
pub proof fn lemma_orientation_needs_option(t: Seq<u8>, opts: StripOptions)
    ensures
        jpeg_walk(t, opts).orientation is Some ==> opts.keep_orientation,
    decreases t.len(),
{
    lemma_part(t, opts);
    match jpeg_part(t, opts) {
        Part::Keep(n) => lemma_orientation_needs_option(tail(t, n), opts),
        Part::Drop { len, .. } => lemma_orientation_needs_option(tail(t, len), opts),
        _ => {},
    }
}

/// The segment that holds an orientation goes, and gives that orientation.
pub proof fn lemma_synth_part(v: u16, x: Seq<u8>, opts: StripOptions)
    ensures
        app1_bytes(orientation_bytes(v)).len() == 36,
        jpeg_part(app1_bytes(orientation_bytes(v)) + x, opts) == (Part::Drop {
            len: 36,
            kind: RemovedKind::Exif,
            orientation: if opts.keep_orientation {
                Some(v)
            } else {
                None
            },
        }),
{
    lemma_exif_marker();
    lemma_orientation_bytes(v);
    orientation_round_trips(v);
    let s = app1_bytes(orientation_bytes(v));
    let u = s + x;
    assert(u[0] == 0xFF && u[1] == 0xE1 && u[2] == 0 && u[3] == 34);
    assert(fill_end(u, 1) == 1);
    assert(be16(u, 2) == 34);
    let body = u.subrange(4, 36);
    assert(body.subrange(0, 6) =~= lit("Exif\0\0"));
    assert(has_prefix(body, lit("Exif\0\0")));
    assert(tail(body, 6) =~= orientation_bytes(v));
}

/// Stripping a JPEG file twice is stripping it once.
#[verifier::spinoff_prover]
#[verifier::rlimit(50)]
pub proof fn jpeg_strip_is_idempotent(b: Seq<u8>, opts: StripOptions)
    requires
        probed(b) == FileFormat::Jpeg,
    ensures
        ({
            let once = jpeg_clean(b, opts);
            &&& stripped(b, opts) matches Ok(s) && s.out == once
            &&& stripped(once, opts) matches Ok(s) && s.out == once
        }),
{
    jpeg_stripped_is_clean(b, opts);
    let once = jpeg_clean(b, opts);
    let o = jpeg_walk(tail(b, 2), opts).orientation;
    let kept = jpeg_kept(tail(b, 2), opts);
    assert(once[0] == 0xFF && once[1] == 0xD8);
    assert(probed(once) == FileFormat::Jpeg);
    jpeg_stripped_is_clean(once, opts);
    assert(once.subrange(0, 2) =~= b.subrange(0, 2));
    let t = tail(once, 2);
    assert(t =~= jpeg_synth(o) + kept);
    lemma_kept_again(tail(b, 2), opts);
    lemma_orientation_needs_option(tail(b, 2), opts);
    match o {
        Some(v) => {
            lemma_synth_part(v, kept, opts);
            assert(tail(t, 36) =~= kept);
        },
        None => {
            assert(t =~= kept);
        },
    }
}

/// The bytes that the PNG chunks of `t` leave, with the orientation put in.
pub open spec fn png_kept(t: Seq<u8>, found: Option<u16>, open: bool, opts: StripOptions) -> Seq<u8>
    decreases t.len(),
{
    if !whole_chunk(t) {
        t
    } else {
        let n = 12 + be32(t, 0);
        let gate = is_gate(ctype(t));
        let synth = if open && gate {
            png_synth(found)
        } else {
            seq![]
        };
        let own = match chunk_kind(ctype(t), cdata(t), opts) {
            Some(_) => seq![],
            None => t.subrange(0, n),
        };
        if ctype(t) == lit("IEND") {
            synth + own
        } else {
            synth + own + png_kept(
                tail(t, n),
                next_orientation(t, found, opts),
                open && !gate,
                opts,
            )
        }
    }
}

/// The chunk that holds an orientation.
pub open spec fn png_synth(o: Option<u16>) -> Seq<u8> {
    match o {
        Some(v) => chunk_bytes(lit("eXIf"), orientation_bytes(v)),
        None => seq![],
    }
}

/// The stripped PNG file.
pub open spec fn png_clean(b: Seq<u8>, opts: StripOptions) -> Seq<u8> {
    b.subrange(0, 8) + png_kept(tail(b, 8), None, true, opts)
}

/// The commands for the chunk at the front of `t`, and the bytes that they put out.
spec fn png_head(t: Seq<u8>, found: Option<u16>, open: bool, opts: StripOptions) -> (
    Seq<CmdView>,
    Seq<u8>,
) {
    let gate = is_gate(ctype(t));
    (
        (if open && gate {
            png_synthesized(found)
        } else {
            seq![]
        }).push(chunk_cmd(t, opts)),
        (if open && gate {
            png_synth(found)
        } else {
            seq![]
        }) + (match chunk_kind(ctype(t), cdata(t), opts) {
            Some(_) => seq![],
            None => t.subrange(0, 12 + be32(t, 0)),
        }),
    )
}

proof fn lemma_png_head(
    w: Seq<u8>,
    p: int,
    a: Stripped,
    found: Option<u16>,
    open: bool,
    opts: StripOptions,
)
    requires
        0 <= p <= w.len(),
        a.cur == p,
        whole_chunk(tail(w, p)),
    ensures
        ({
            let t = tail(w, p);
            let (cmds, bytes) = png_head(t, found, open, opts);
            let d = applied_all(w, a, cmds);
            &&& d.out == a.out + bytes
            &&& d.cur == p + 12 + be32(t, 0)
        }),
{
    let t = tail(w, p);
    let n = 12 + be32(t, 0);
    let gate = is_gate(ctype(t));
    let pre = if open && gate {
        png_synthesized(found)
    } else {
        seq![]
    };
    let synth = if open && gate {
        png_synth(found)
    } else {
        seq![]
    };
    let c = chunk_cmd(t, opts);
    let b = applied_all(w, a, pre);
    match found {
        Some(v) => {
            lemma_applied_one(
                w,
                a,
                CmdView::Insert(chunk_bytes(lit("eXIf"), orientation_bytes(v))),
            );
        },
        None => {},
    }
    assert(b.out =~= a.out + synth);
    assert(b.cur == p);
    assert(pre.push(c) =~= pre + seq![c]);
    lemma_applied_split(w, a, pre, seq![c]);
    lemma_applied_one(w, b, c);
    assert(w.subrange(p, p + n) =~= t.subrange(0, n));
    assert(applied(w, b, c).out =~= a.out + png_head(t, found, open, opts).1);
}

proof fn lemma_png_out(
    w: Seq<u8>,
    p: int,
    a: Stripped,
    found: Option<u16>,
    open: bool,
    opts: StripOptions,
)
    requires
        0 <= p <= w.len(),
        a.cur == p,
    ensures
        applied_all(w, a, png_walk(tail(w, p), found, open, opts).cmds).out == a.out + png_kept(
            tail(w, p),
            found,
            open,
            opts,
        ),
    decreases w.len() - p,
{
    let t = tail(w, p);
    if !whole_chunk(t) {
        if t.len() == 0 {
            assert(a.out + t =~= a.out);
        } else {
            lemma_applied_one(w, a, CmdView::Emit(t.len() as int));
            assert(w.subrange(p, w.len() as int) =~= t);
        }
    } else {
        let n = 12 + be32(t, 0);
        let (cmds, bytes) = png_head(t, found, open, opts);
        lemma_png_head(w, p, a, found, open, opts);
        let d = applied_all(w, a, cmds);
        if ctype(t) == lit("IEND") {
            assert(png_kept(t, found, open, opts) =~= bytes);
        } else {
            let next = next_orientation(t, found, opts);
            let still = open && !is_gate(ctype(t));
            let rest = png_walk(tail(t, n), next, still, opts);
            let kept = png_kept(tail(t, n), next, still, opts);
            assert(tail(t, n) =~= tail(w, p + n));
            lemma_applied_split(w, a, cmds, rest.cmds);
            lemma_png_out(w, p + n, d, next, still, opts);
            assert(png_kept(t, found, open, opts) =~= bytes + kept);
            assert(d.out + kept =~= a.out + (bytes + kept));
        }
    }
}

/// Stripping a PNG file gives the signature and the chunks that stay, with the orientation
/// before the image data.
pub proof fn png_stripped_is_clean(b: Seq<u8>, opts: StripOptions)
    requires
        probed(b) == FileFormat::Png,
    ensures
        stripped(b, opts) matches Ok(s) && s.out == png_clean(b, opts),
{
    lemma_only_png(b);
    let st = AnyStrip::Png(opts);
    assert(tail(b, 0) =~= b);
    let a = nothing_stripped();
    let walked = png_walk(tail(b, 8), None, true, opts);
    let first = seq![CmdView::Emit(8)];
    lemma_applied_split(b, a, first, walked.cmds);
    lemma_applied_one(b, a, CmdView::Emit(8));
    let a1 = applied(b, a, CmdView::Emit(8));
    assert(a1.out =~= b.subrange(0, 8));
    lemma_png_out(b, 8, a1, None, true, opts);
    assert(strip_run::<AnyStripper>(b, st, 0, a).out =~= png_clean(b, opts));
}

pub proof fn lemma_only_png(b: Seq<u8>)
    requires
        probed(b) == FileFormat::Png,
    ensures
        signature(b),
{
}

/// The types of chunks are four letters, and differ.
pub proof fn lemma_chunk_types()
    ensures
        lit("IDAT").len() == 4,
        lit("IEND").len() == 4,
        lit("eXIf").len() == 4,
        lit("IDAT") != lit("eXIf"),
        lit("IEND") != lit("eXIf"),
        lit("IDAT") != lit("iTXt"),
        lit("IDAT") != lit("tEXt"),
        lit("IDAT") != lit("zTXt"),
        lit("IDAT") != lit("iCCP"),
        lit("IEND") != lit("iTXt"),
        lit("IEND") != lit("tEXt"),
        lit("IEND") != lit("zTXt"),
        lit("IEND") != lit("iCCP"),
{
    reveal_strlit("IDAT");
    reveal_strlit("IEND");
    reveal_strlit("eXIf");
    reveal_strlit("iTXt");
    reveal_strlit("tEXt");
    reveal_strlit("zTXt");
    reveal_strlit("iCCP");
    vstd::string::is_ascii_spec_bytes("IDAT");
    vstd::string::is_ascii_spec_bytes("IEND");
    vstd::string::is_ascii_spec_bytes("eXIf");
    vstd::string::is_ascii_spec_bytes("iTXt");
    vstd::string::is_ascii_spec_bytes("tEXt");
    vstd::string::is_ascii_spec_bytes("zTXt");
    vstd::string::is_ascii_spec_bytes("iCCP");
    assert(lit("IDAT")[0] == 0x49);
    assert(lit("IDAT")[1] == 0x44);
    assert(lit("IEND")[0] == 0x49);
    assert(lit("IEND")[1] == 0x45);
    assert(lit("eXIf")[0] == 0x65);
    assert(lit("iTXt")[0] == 0x69);
    assert(lit("tEXt")[0] == 0x74);
    assert(lit("zTXt")[0] == 0x7A);
    assert(lit("iCCP")[0] == 0x69);
}

/// The chunk that holds an orientation goes, and gives that orientation.
pub proof fn lemma_png_synth(v: u16, x: Seq<u8>)
    ensures
        ({
            let u = png_synth(Some(v)) + x;
            &&& png_synth(Some(v)).len() == 38
            &&& whole_chunk(u)
            &&& be32(u, 0) == 26
            &&& ctype(u) == lit("eXIf")
            &&& cdata(u) == orientation_bytes(v)
            &&& tail(u, 38) == x
        }),
{
    lemma_chunk_types();
    lemma_orientation_bytes(v);
    let s = png_synth(Some(v));
    let u = s + x;
    assert(s.len() == 38);
    assert(u[0] == 0 && u[1] == 0 && u[2] == 0 && u[3] == 26);
    assert(ctype(u) =~= lit("eXIf"));
    assert(cdata(u) =~= orientation_bytes(v));
    assert(tail(u, 38) =~= x);
}

/// A chunk is told from its own bytes.
pub proof fn lemma_chunk_prefix(t: Seq<u8>, x: Seq<u8>)
    requires
        whole_chunk(t),
    ensures
        ({
            let n = 12 + be32(t, 0);
            let u = t.subrange(0, n) + x;
            &&& whole_chunk(u)
            &&& be32(u, 0) == be32(t, 0)
            &&& ctype(u) == ctype(t)
            &&& cdata(u) == cdata(t)
            &&& u.subrange(0, n) == t.subrange(0, n)
            &&& tail(u, n) == x
        }),
{
    let n = 12 + be32(t, 0);
    let u = t.subrange(0, n) + x;
    assert(ctype(u) =~= ctype(t));
    assert(cdata(u) =~= cdata(t));
    assert(u.subrange(0, n) =~= t.subrange(0, n));
    assert(tail(u, n) =~= x);
}

/// Behind the image data, what stays once stays again.
proof fn lemma_png_closed_again(t: Seq<u8>, found: Option<u16>, g: Option<u16>, opts: StripOptions)
    ensures
        png_kept(png_kept(t, found, false, opts), g, false, opts) == png_kept(
            t,
            found,
            false,
            opts,
        ),
    decreases t.len(),
{
    if whole_chunk(t) {
        lemma_chunk_types();
        let n = 12 + be32(t, 0);
        let own = t.subrange(0, n);
        let none = Seq::<u8>::empty();
        match chunk_kind(ctype(t), cdata(t), opts) {
            Some(_) => {
                let rest = png_kept(tail(t, n), next_orientation(t, found, opts), false, opts);
                assert(png_kept(t, found, false, opts) =~= rest);
                lemma_png_closed_again(tail(t, n), next_orientation(t, found, opts), g, opts);
            },
            None => {
                if ctype(t) == lit("IEND") {
                    assert(png_kept(t, found, false, opts) =~= own + none);
                    lemma_chunk_prefix(t, none);
                    assert(png_kept(own + none, g, false, opts) =~= own + none);
                } else {
                    let rest = png_kept(tail(t, n), next_orientation(t, found, opts), false, opts);
                    let u = own + rest;
                    assert(png_kept(t, found, false, opts) =~= u);
                    lemma_chunk_prefix(t, rest);
                    lemma_png_closed_again(
                        tail(t, n),
                        next_orientation(t, found, opts),
                        next_orientation(u, g, opts),
                        opts,
                    );
                    assert(png_kept(u, g, false, opts) =~= u);
                }
            },
        }
    }
}

/// Before the image data, what stays once stays again: the orientation that was put in is
/// found and put in anew.
proof fn lemma_png_open_again(t: Seq<u8>, found: Option<u16>, opts: StripOptions)
    requires
        found is Some ==> opts.keep_orientation,
    ensures
        png_kept(png_kept(t, found, true, opts), None, true, opts) == png_kept(
            t,
            found,
            true,
            opts,
        ),
    decreases t.len(),
{
    if whole_chunk(t) {
        lemma_chunk_types();
        let n = 12 + be32(t, 0);
        let own = t.subrange(0, n);
        let none = Seq::<u8>::empty();
        let next = next_orientation(t, found, opts);
        if is_gate(ctype(t)) {
            let rest = if ctype(t) == lit("IEND") {
                none
            } else {
                png_kept(tail(t, n), next, false, opts)
            };
            let u = own + rest;
            assert(png_kept(t, found, true, opts) =~= png_synth(found) + u);
            lemma_chunk_prefix(t, rest);
            assert(next_orientation(u, found, opts) == found);
            if ctype(t) != lit("IEND") {
                lemma_png_closed_again(tail(t, n), next, found, opts);
            }
            assert(png_kept(u, found, true, opts) =~= png_synth(found) + u);
            match found {
                Some(v) => {
                    let w = png_synth(found) + u;
                    lemma_png_synth(v, u);
                    orientation_round_trips(v);
                    assert(next_orientation(w, None, opts) == found);
                    assert(png_kept(w, None, true, opts) =~= png_kept(u, found, true, opts));
                },
                None => {
                    assert(png_synth(found) + u =~= u);
                },
            }
        } else {
            let rest = png_kept(tail(t, n), next, true, opts);
            lemma_png_open_again(tail(t, n), next, opts);
            match chunk_kind(ctype(t), cdata(t), opts) {
                Some(_) => {
                    assert(png_kept(t, found, true, opts) =~= rest);
                },
                None => {
                    let u = own + rest;
                    assert(png_kept(t, found, true, opts) =~= u);
                    lemma_chunk_prefix(t, rest);
                    assert(next_orientation(u, None, opts) is None);
                    assert(png_kept(u, None, true, opts) =~= u);
                },
            }
        }
    }
}

/// Stripping a PNG file twice is stripping it once.
pub proof fn png_strip_is_idempotent(b: Seq<u8>, opts: StripOptions)
    requires
        probed(b) == FileFormat::Png,
    ensures
        ({
            let once = png_clean(b, opts);
            &&& stripped(b, opts) matches Ok(s) && s.out == once
            &&& stripped(once, opts) matches Ok(s) && s.out == once
        }),
{
    png_stripped_is_clean(b, opts);
    lemma_only_png(b);
    let once = png_clean(b, opts);
    assert(signature(once));
    assert(probed(once) == FileFormat::Png);
    png_stripped_is_clean(once, opts);
    assert(once.subrange(0, 8) =~= b.subrange(0, 8));
    assert(tail(once, 8) =~= png_kept(tail(b, 8), None, true, opts));
    lemma_png_open_again(tail(b, 8), None, opts);
}

} // verus!
