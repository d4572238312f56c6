//! What a strip reports is what it did.
use vstd::prelude::*;

use crate::adapters::strip_slice::stripped;
use crate::bytes::{be32, le32_bytes, lit, tail};
use crate::formats::webp::riff_webp;
use crate::laws::stripping::{lemma_only_png, lemma_part};
use crate::laws::webp_stripping::webp_orientation;
use crate::model::FileFormat;
use crate::probe::probed;
use crate::strip::jpeg::{is_jpeg, jpeg_part, jpeg_plan, jpeg_walk, Part};
use crate::strip::png::{chunk_cmd, ctype, is_gate, next_orientation, png_walk, whole_chunk};
use crate::strip::webp::{
    chunk_end, exif_chunk, rebuild, rebuild_step, riff_kind, webp_body, webp_plan, Rebuilt,
};
use crate::strip::{
    any_plan, applied, applied_all, jpeg, nothing_stripped, png, strip_run, AnyStrip, AnyStripper,
    CmdView, StripDemand, StripOptions, Stripped,
};

verus! {

/// How many bytes of the input the command is about.
pub open spec fn covers(c: CmdView) -> int {
    match c {
        CmdView::Emit(n) => n,
        CmdView::Drop { len, .. } => len,
        CmdView::Replace { consume, .. } => consume,
        _ => 0,
    }
}

/// How many bytes the command reports as removed.
pub open spec fn reports(c: CmdView) -> int {
    match c {
        CmdView::Drop { len, .. } => len,
        CmdView::Account { len, .. } => len as int,
        _ => 0,
    }
}

/// How many bytes the command puts out.
pub open spec fn puts(c: CmdView) -> int {
    match c {
        CmdView::Emit(n) => n,
        CmdView::Replace { with, .. } => with.len() as int,
        CmdView::Insert(with) => with.len() as int,
        _ => 0,
    }
}

/// The sum of `f` over the commands.
pub open spec fn total(cs: Seq<CmdView>, f: spec_fn(CmdView) -> int) -> int
    decreases cs.len(),
{
    if cs.len() == 0 {
        0
    } else {
        f(cs[0]) + total(cs.drop_first(), f)
    }
}

pub open spec fn covered(cs: Seq<CmdView>) -> int {
    total(cs, |c: CmdView| covers(c))
}

pub open spec fn reported(cs: Seq<CmdView>) -> int {
    total(cs, |c: CmdView| reports(c))
}

pub open spec fn put_out(cs: Seq<CmdView>) -> int {
    total(cs, |c: CmdView| puts(c))
}

/// No command is about less than nothing.
pub open spec fn sound(cs: Seq<CmdView>) -> bool {
    forall|i: int| 0 <= i < cs.len() ==> covers(#[trigger] cs[i]) >= 0
}

proof fn lemma_total_split(x: Seq<CmdView>, y: Seq<CmdView>, f: spec_fn(CmdView) -> int)
    ensures
        total(x + y, f) == total(x, f) + total(y, f),
    decreases x.len(),
{
    if x.len() == 0 {
        assert(x + y =~= y);
    } else {
        assert((x + y).drop_first() =~= x.drop_first() + y);
        lemma_total_split(x.drop_first(), y, f);
    }
}

proof fn lemma_total_one(c: CmdView, f: spec_fn(CmdView) -> int)
    ensures
        total(seq![c], f) == f(c),
{
    reveal_with_fuel(total, 2);
    assert(seq![c].drop_first() =~= seq![]);
}

proof fn lemma_total_grows(cs: Seq<CmdView>)
    requires
        sound(cs),
    ensures
        covered(cs) >= 0,
        reported(cs) >= 0,
        put_out(cs) >= 0,
    decreases cs.len(),
{
    if cs.len() > 0 {
        assert(covers(cs[0]) >= 0);
        assert forall|i: int| 0 <= i < cs.drop_first().len() implies covers(
            #[trigger] cs.drop_first()[i],
        ) >= 0 by {
            assert(cs.drop_first()[i] == cs[i + 1]);
        }
        lemma_total_grows(cs.drop_first());
    }
}

/// On a window that they do not overrun, commands move on by what they are about, put out
/// what they say, and report what they say.
pub proof fn commands_do_what_they_say(w: Seq<u8>, a: Stripped, cs: Seq<CmdView>)
    requires
        sound(cs),
        0 <= a.cur,
        a.cur + covered(cs) <= w.len(),
        a.bytes + reported(cs) <= u64::MAX,
    ensures
        ({
            let r = applied_all(w, a, cs);
            &&& r.cur == a.cur + covered(cs)
            &&& r.out.len() == a.out.len() + put_out(cs)
            &&& r.bytes == a.bytes + reported(cs)
        }),
    decreases cs.len(),
{
    if cs.len() > 0 {
        let c = cs[0];
        let rest = cs.drop_first();
        assert(covers(c) >= 0);
        assert forall|i: int| 0 <= i < rest.len() implies covers(#[trigger] rest[i]) >= 0 by {
            assert(rest[i] == cs[i + 1]);
        }
        lemma_total_grows(rest);
        assert(covered(cs) == covers(c) + covered(rest));
        assert(reported(cs) == reports(c) + reported(rest));
        assert(put_out(cs) == puts(c) + put_out(rest));
        let b = applied(w, a, c);
        assert(b.cur == a.cur + covers(c));
        assert(b.out.len() == a.out.len() + puts(c));
        assert(b.bytes == a.bytes + reports(c));
        commands_do_what_they_say(w, b, rest);
    }
}

/// The commands copy or leave out what they are about, and do nothing else.
spec fn plain(cs: Seq<CmdView>) -> bool {
    &&& sound(cs)
    &&& covered(cs) == put_out(cs) + reported(cs)
}

proof fn lemma_joined(x: Seq<CmdView>, y: Seq<CmdView>)
    requires
        sound(x),
        sound(y),
    ensures
        sound(x + y),
        covered(x + y) == covered(x) + covered(y),
        reported(x + y) == reported(x) + reported(y),
        put_out(x + y) == put_out(x) + put_out(y),
{
    lemma_total_split(x, y, |c: CmdView| covers(c));
    lemma_total_split(x, y, |c: CmdView| reports(c));
    lemma_total_split(x, y, |c: CmdView| puts(c));
    assert forall|i: int| 0 <= i < (x + y).len() implies covers(#[trigger] (x + y)[i]) >= 0 by {
        if i < x.len() {
            assert((x + y)[i] == x[i]);
        } else {
            assert((x + y)[i] == y[i - x.len()]);
        }
    }
}

proof fn lemma_single(c: CmdView)
    requires
        covers(c) >= 0,
    ensures
        sound(seq![c]),
        covered(seq![c]) == covers(c),
        reported(seq![c]) == reports(c),
        put_out(seq![c]) == puts(c),
{
    lemma_total_one(c, |c: CmdView| covers(c));
    lemma_total_one(c, |c: CmdView| reports(c));
    lemma_total_one(c, |c: CmdView| puts(c));
}

proof fn lemma_jpeg_walk(t: Seq<u8>, opts: StripOptions)
    ensures
        plain(jpeg_walk(t, opts).cmds),
        covered(jpeg_walk(t, opts).cmds) == jpeg_walk(t, opts).len,
        0 <= jpeg_walk(t, opts).len <= t.len(),
    decreases t.len(),
{
    lemma_part(t, opts);
    let w = jpeg_walk(t, opts);
    match jpeg_part(t, opts) {
        Part::Nothing => {},
        Part::Rest => {
            let c = CmdView::Emit(t.len() as int);
            lemma_single(c);
            assert(w.cmds =~= seq![c]);
        },
        Part::End(n) => {
            let c = CmdView::Emit(n);
            lemma_single(c);
            assert(w.cmds =~= seq![c]);
        },
        Part::Keep(n) => {
            let c = CmdView::Emit(n);
            let rest = jpeg_walk(tail(t, n), opts);
            lemma_jpeg_walk(tail(t, n), opts);
            lemma_single(c);
            lemma_joined(seq![c], rest.cmds);
            assert(w.cmds == seq![c] + rest.cmds);
        },
        Part::Drop { len, kind, orientation } => {
            let c = CmdView::Drop { len, kind };
            let rest = jpeg_walk(tail(t, len), opts);
            lemma_jpeg_walk(tail(t, len), opts);
            lemma_single(c);
            lemma_joined(seq![c], rest.cmds);
            assert(w.cmds == seq![c] + rest.cmds);
        },
    }
}

/// The bytes that a strip puts into a JPEG file.
pub open spec fn jpeg_added(b: Seq<u8>, opts: StripOptions) -> int {
    put_out(jpeg::synthesized(jpeg_walk(tail(b, 2), opts).orientation))
}

/// Stripping a JPEG file keeps, but for what it reports as removed, every byte of what it
/// went over, which is all but what follows the end marker; and it adds the orientation.
pub proof fn jpeg_strip_accounts(b: Seq<u8>, opts: StripOptions)
    requires
        b.len() <= u64::MAX,
        probed(b) == FileFormat::Jpeg,
    ensures
        ({
            let p = any_plan(AnyStrip::Jpeg(opts), b);
            &&& p.consumed == covered(p.cmds) <= b.len()
            &&& stripped(b, opts) matches Ok(s) && s.out.len() + s.bytes == p.consumed
                + jpeg_added(b, opts)
        }),
{
    lemma_only_jpeg(b);
    lemma_jpeg_plan(b, opts);
    lemma_run(b, AnyStrip::Jpeg(opts));
    commands_do_what_they_say(b, nothing_stripped(), jpeg_plan(opts, b).cmds);
}

proof fn lemma_only_jpeg(b: Seq<u8>)
    requires
        probed(b) == FileFormat::Jpeg,
    ensures
        is_jpeg(b),
{
}

proof fn lemma_jpeg_plan(b: Seq<u8>, opts: StripOptions)
    requires
        is_jpeg(b),
    ensures
        ({
            let p = jpeg_plan(opts, b);
            &&& p.demand == StripDemand::Done
            &&& sound(p.cmds)
            &&& p.consumed == covered(p.cmds) <= b.len()
            &&& 0 <= reported(p.cmds) <= b.len()
            &&& put_out(p.cmds) + reported(p.cmds) == p.consumed + jpeg_added(b, opts)
        }),
{
    let walked = jpeg_walk(tail(b, 2), opts);
    let first = seq![CmdView::Emit(2)];
    let synth = jpeg::synthesized(walked.orientation);
    lemma_jpeg_walk(tail(b, 2), opts);
    lemma_single(CmdView::Emit(2));
    if walked.orientation is Some {
        lemma_single(synth[0]);
        assert(synth =~= seq![synth[0]]);
    }
    lemma_joined(first, synth);
    lemma_joined(first + synth, walked.cmds);
    lemma_total_grows(walked.cmds);
}

proof fn lemma_run(b: Seq<u8>, st: AnyStrip)
    requires
        any_plan(st, b).demand == StripDemand::Done,
    ensures
        strip_run::<AnyStripper>(b, st, 0, nothing_stripped()) == applied_all(
            b,
            nothing_stripped(),
            any_plan(st, b).cmds,
        ),
{
    assert(tail(b, 0) =~= b);
}

/// How many bytes a strip puts into a PNG file from the chunk at the front of `t` on.
pub open spec fn png_added(
    t: Seq<u8>,
    found: Option<u16>,
    open: bool,
    opts: StripOptions,
) -> int
    decreases t.len(),
{
    if !whole_chunk(t) {
        0
    } else {
        let gate = is_gate(ctype(t));
        let here = if open && gate {
            put_out(png::synthesized(found))
        } else {
            0
        };
        if ctype(t) == lit("IEND") {
            here
        } else {
            here + png_added(
                tail(t, 12 + be32(t, 0)),
                next_orientation(t, found, opts),
                open && !gate,
                opts,
            )
        }
    }
}

proof fn lemma_png_walk(t: Seq<u8>, found: Option<u16>, open: bool, opts: StripOptions)
    ensures
        ({
            let w = png_walk(t, found, open, opts);
            &&& sound(w.cmds)
            &&& covered(w.cmds) == w.len
            &&& 0 <= w.len <= t.len()
            &&& put_out(w.cmds) + reported(w.cmds) == w.len + png_added(t, found, open, opts)
        }),
    decreases t.len(),
{
    let w = png_walk(t, found, open, opts);
    if !whole_chunk(t) {
        if t.len() > 0 {
            let c = CmdView::Emit(t.len() as int);
            lemma_single(c);
            assert(w.cmds =~= seq![c]);
        }
    } else {
        let n = 12 + be32(t, 0);
        let gate = is_gate(ctype(t));
        let synth = if open && gate {
            png::synthesized(found)
        } else {
            seq![]
        };
        if synth.len() > 0 {
            lemma_single(synth[0]);
            assert(synth =~= seq![synth[0]]);
        }
        let c = chunk_cmd(t, opts);
        lemma_single(c);
        lemma_joined(synth, seq![c]);
        let head = synth.push(c);
        assert(head =~= synth + seq![c]);
        if ctype(t) != lit("IEND") {
            let next = next_orientation(t, found, opts);
            let rest = png_walk(tail(t, n), next, open && !gate, opts);
            lemma_png_walk(tail(t, n), next, open && !gate, opts);
            lemma_joined(head, rest.cmds);
            assert(w.cmds == head + rest.cmds);
        } else {
            assert(w.cmds == head);
        }
    }
}

/// Stripping a PNG file keeps, but for what it reports as removed, every byte of what it
/// went over, which is all but what follows the last chunk; and it adds the orientation.
pub proof fn png_strip_accounts(b: Seq<u8>, opts: StripOptions)
    requires
        b.len() <= u64::MAX,
        probed(b) == FileFormat::Png,
    ensures
        ({
            let p = any_plan(AnyStrip::Png(opts), b);
            &&& p.consumed == covered(p.cmds) <= b.len()
            &&& stripped(b, opts) matches Ok(s) && s.out.len() + s.bytes == p.consumed
                + png_added(tail(b, 8), None, true, opts)
        }),
{
    lemma_only_png(b);
    let p = any_plan(AnyStrip::Png(opts), b);
    let walked = png_walk(tail(b, 8), None, true, opts);
    let first = seq![CmdView::Emit(8)];
    lemma_png_walk(tail(b, 8), None, true, opts);
    lemma_single(CmdView::Emit(8));
    lemma_joined(first, walked.cmds);
    lemma_png_reports(tail(b, 8), None, true, opts);
    lemma_run(b, AnyStrip::Png(opts));
    commands_do_what_they_say(b, nothing_stripped(), p.cmds);
}

proof fn lemma_png_reports(t: Seq<u8>, found: Option<u16>, open: bool, opts: StripOptions)
    ensures
        reported(png_walk(t, found, open, opts).cmds) <= png_walk(t, found, open, opts).len,
    decreases t.len(),
{
    let w = png_walk(t, found, open, opts);
    if !whole_chunk(t) {
        if t.len() > 0 {
            let c = CmdView::Emit(t.len() as int);
            lemma_single(c);
            assert(w.cmds =~= seq![c]);
        }
    } else {
        let n = 12 + be32(t, 0);
        let gate = is_gate(ctype(t));
        let synth = if open && gate {
            png::synthesized(found)
        } else {
            seq![]
        };
        if synth.len() > 0 {
            lemma_single(synth[0]);
            assert(synth =~= seq![synth[0]]);
        }
        let c = chunk_cmd(t, opts);
        lemma_single(c);
        lemma_joined(synth, seq![c]);
        let head = synth.push(c);
        assert(head =~= synth + seq![c]);
        if ctype(t) != lit("IEND") {
            let next = next_orientation(t, found, opts);
            let rest = png_walk(tail(t, n), next, open && !gate, opts);
            lemma_png_walk(tail(t, n), next, open && !gate, opts);
            lemma_png_reports(tail(t, n), next, open && !gate, opts);
            lemma_joined(head, rest.cmds);
            assert(w.cmds == head + rest.cmds);
        } else {
            assert(w.cmds == head);
        }
    }
}

/// How many bytes behind the last chunk of `t` are too few for another.
pub open spec fn riff_scraps(t: Seq<u8>) -> int
    decreases t.len(),
{
    if t.len() < 8 {
        t.len() as int
    } else if chunk_end(t) > t.len() {
        0
    } else {
        riff_scraps(tail(t, chunk_end(t)))
    }
}

/// The length of a container with the orientation put in, and what was removed from it.
spec fn weight(r: Rebuilt) -> int {
    r.body.len() + exif_chunk(r.orientation).len() + reported(r.removed)
}

proof fn lemma_rebuild_weight(t: Seq<u8>, r: Rebuilt, opts: StripOptions)
    requires
        sound(r.removed),
        covered(r.removed) == 0,
        put_out(r.removed) == 0,
    ensures
        ({
            let (q, rest) = rebuild(t, r, opts);
            &&& sound(q.removed)
            &&& covered(q.removed) == 0
            &&& put_out(q.removed) == 0
            &&& 0 <= riff_scraps(t)
            &&& weight(q) + rest.len() + riff_scraps(t) == weight(r) + t.len()
            &&& reported(q.removed) <= reported(r.removed) + t.len()
        }),
    decreases t.len(),
{
    if t.len() >= 8 && chunk_end(t) <= t.len() {
        let n = chunk_end(t);
        let s = rebuild_step(t, r, opts);
        match riff_kind(t.subrange(0, 4), opts) {
            Some(kind) => {
                let c = CmdView::Account { len: n as u64, kind };
                lemma_single(c);
                lemma_joined(r.removed, seq![c]);
                assert(r.removed.push(c) =~= r.removed + seq![c]);
            },
            None => {},
        }
        assert(weight(s) == weight(r) + n);
        lemma_rebuild_weight(tail(t, n), s, opts);
    }
}

/// Stripping a WebP file keeps, but for what it reports as removed and for less than a
/// chunk's header at its end, every byte; and it adds the orientation.
pub proof fn webp_strip_accounts(b: Seq<u8>, opts: StripOptions)
    requires
        b.len() <= u64::MAX,
        probed(b) == FileFormat::Webp,
    ensures
        ({
            let p = any_plan(AnyStrip::Webp(opts), b);
            &&& p.consumed == covered(p.cmds) == b.len()
            &&& stripped(b, opts) matches Ok(s) && s.out.len() + s.bytes + riff_scraps(tail(b, 12))
                == b.len() + exif_chunk(webp_orientation(b, opts)).len()
        }),
{
    lemma_only_webp(b);
    lemma_webp_plan(b, opts);
    lemma_run(b, AnyStrip::Webp(opts));
    commands_do_what_they_say(b, nothing_stripped(), webp_plan(opts, b).cmds);
}

proof fn lemma_only_webp(b: Seq<u8>)
    requires
        probed(b) == FileFormat::Webp,
    ensures
        riff_webp(b),
{
}

proof fn lemma_webp_plan(b: Seq<u8>, opts: StripOptions)
    requires
        riff_webp(b),
    ensures
        ({
            let p = webp_plan(opts, b);
            &&& p.demand == StripDemand::Done
            &&& sound(p.cmds)
            &&& p.consumed == covered(p.cmds) == b.len()
            &&& reported(p.cmds) <= b.len()
            &&& put_out(p.cmds) + reported(p.cmds) + riff_scraps(tail(b, 12)) == b.len()
                + exif_chunk(webp_orientation(b, opts)).len()
        }),
{
    reveal_strlit("RIFF");
    reveal_strlit("WEBP");
    vstd::string::is_ascii_spec_bytes("RIFF");
    vstd::string::is_ascii_spec_bytes("WEBP");
    let start = Rebuilt {
        body: lit("WEBP"),
        orientation: webp_orientation(b, opts),
        flags: None,
        icc: false,
        removed: seq![],
    };
    let t = tail(b, 12);
    lemma_rebuild_weight(t, start, opts);
    let (r, rest) = rebuild(t, start, opts);
    let (body, removed) = webp_body(b, opts);
    assert(removed == r.removed);
    assert(body.len() == r.body.len() + exif_chunk(r.orientation).len() + rest.len());
    let with = lit("RIFF") + le32_bytes((body.len() % 0x1_0000_0000) as u32) + body;
    assert(with.len() == 8 + body.len());
    let c = CmdView::Replace { consume: b.len() as int, with };
    lemma_single(c);
    lemma_joined(seq![c], removed);
}

} // verus!
