//! Stripping JPEG: segments with metadata go, all others stay, and everything from the
//! first scan on is left alone.
use vstd::prelude::*;

use crate::bytes::{be16, contains_str, has_prefix, has_window, lit, part, read_be16, rest_of, starts_with, tail};
use crate::codecs::exif::byte_order;
use crate::cursor::{read_u16, read_u32, u16_at, u32_at, Endian};
use crate::formats::jpeg::{fill_end, is_bare};
use crate::normalize::or;
use crate::strip::exif_synth::{app1_bytes, jpeg_app1_exif, orientation_bytes, orientation_tiff};
use crate::strip::{
    cmd_views, cmd_views_push, CmdView, Plan, RemovedKind, StripCmd, StripDemand, StripOptions,
    StripPlanner, StripResult,
};

verus! {

pub struct JpegStripper {
    opts: StripOptions,
}

/// The orientation among the `n` directory entries at `at`.
pub open spec fn entry_orientation(e: Endian, t: Seq<u8>, at: int, n: int) -> Option<u16>
    decreases n,
{
    if n <= 0 || at + 12 > t.len() {
        None
    } else if u16_at(e, t, at) == 0x0112 {
        Some(u16_at(e, t, at + 8))
    } else {
        entry_orientation(e, t, at + 12, n - 1)
    }
}

/// The orientation that the first directory of TIFF data gives, as it stands there.
pub open spec fn tiff_orientation(t: Seq<u8>) -> Option<u16> {
    match byte_order(t) {
        Some(e) if t.len() >= 8 && u32_at(e, t, 4) + 2 <= t.len() => entry_orientation(
            e,
            t,
            u32_at(e, t, 4) + 2,
            u16_at(e, t, u32_at(e, t, 4) as int) as int,
        ),
        _ => None,
    }
}

/// Finds the orientation in TIFF data.
pub fn find_orientation(tiff: &[u8]) -> (r: Option<u16>)
    ensures
        r == tiff_orientation(tiff@),
{
    if tiff.len() < 8 {
        return None;
    }
    let e = if tiff[0] == 0x49 && tiff[1] == 0x49 {
        Endian::Little
    } else if tiff[0] == 0x4D && tiff[1] == 0x4D {
        Endian::Big
    } else {
        return None;
    };
    let ifd0: u32 = read_u32(e, tiff, 4);
    if ifd0 as u64 + 2 > tiff.len() as u64 {
        return None;
    }
    let mut left: u16 = read_u16(e, tiff, ifd0 as usize);
    let mut at: usize = ifd0 as usize + 2;
    while left > 0
        invariant
            at <= tiff.len(),
            entry_orientation(e, tiff@, at as int, left as int) == tiff_orientation(tiff@),
        decreases left,
    {
        if tiff.len() - at < 12 {
            return None;
        }
        if read_u16(e, tiff, at) == 0x0112 {
            return Some(read_u16(e, tiff, at + 8));
        }
        at += 12;
        left -= 1;
    }
    None
}

/// The kind of metadata that a segment holds, where it is to go.
pub open spec fn segment_kind(m: u8, body: Seq<u8>, opts: StripOptions) -> Option<RemovedKind> {
    if m == 0xE1 && has_prefix(body, lit("Exif\0\0")) {
        Some(RemovedKind::Exif)
    } else if m == 0xE1 && has_prefix(body, lit("http://ns.adobe.com/xap/1.0/\0")) {
        Some(RemovedKind::Xmp)
    } else if m == 0xED && has_window(body, lit("8BIM")) {
        Some(RemovedKind::Iptc)
    } else if m == 0xE2 && has_prefix(body, lit("ICC_PROFILE\0")) && !opts.keep_icc {
        Some(RemovedKind::Icc)
    } else {
        None
    }
}

fn classify(marker: u8, body: &[u8], opts: &StripOptions) -> (r: Option<RemovedKind>)
    ensures
        r == segment_kind(marker, body@, *opts),
{
    if marker == 0xE1 && starts_with(body, "Exif\0\0") {
        Some(RemovedKind::Exif)
    } else if marker == 0xE1 && starts_with(body, "http://ns.adobe.com/xap/1.0/\0") {
        Some(RemovedKind::Xmp)
    } else if marker == 0xED && contains_str(body, "8BIM") {
        Some(RemovedKind::Iptc)
    } else if marker == 0xE2 && starts_with(body, "ICC_PROFILE\0") && !opts.keep_icc {
        Some(RemovedKind::Icc)
    } else {
        None
    }
}

/// What stands at the front of the rest of a file, and what becomes of it.
pub enum Part {
    /// Nothing.
    Nothing,
    /// Something that is no segment, or the first scan: all of it stays.
    Rest,
    /// The end marker; what follows goes.
    End(int),
    /// A part that stays.
    Keep(int),
    /// A part that goes.
    Drop { len: int, kind: RemovedKind, orientation: Option<u16> },
}

/// The orientation that the body of an EXIF segment gives.
pub open spec fn body_orientation(body: Seq<u8>, kind: RemovedKind, opts: StripOptions) -> Option<
    u16,
> {
    if kind == RemovedKind::Exif && opts.keep_orientation && body.len() > 6 {
        tiff_orientation(tail(body, 6))
    } else {
        None
    }
}

/// The segment at the front of `t`.
pub open spec fn jpeg_part(t: Seq<u8>, opts: StripOptions) -> Part {
    let i = fill_end(t, 1);
    if t.len() == 0 {
        Part::Nothing
    } else if t[0] != 0xFF || i >= t.len() || t[i] == 0xDA {
        Part::Rest
    } else if t[i] == 0xD9 {
        Part::End(i + 1)
    } else if is_bare(t[i]) {
        Part::Keep(i + 1)
    } else if i + 3 > t.len() || be16(t, i + 1) < 2 || i + 1 + be16(t, i + 1) > t.len() {
        Part::Rest
    } else {
        let end = i + 1 + be16(t, i + 1);
        let body = t.subrange(i + 3, end);
        match segment_kind(t[i], body, opts) {
            Some(kind) => Part::Drop {
                len: end,
                kind,
                orientation: body_orientation(body, kind, opts),
            },
            None => Part::Keep(end),
        }
    }
}

/// What becomes of `t`: the commands, the first orientation found, and how much of it is
/// covered.
#[verifier::ext_equal]
pub struct Walked {
    pub cmds: Seq<CmdView>,
    pub orientation: Option<u16>,
    pub len: int,
}

pub open spec fn then_walked(c: CmdView, orientation: Option<u16>, n: int, w: Walked) -> Walked {
    Walked { cmds: seq![c] + w.cmds, orientation: or(orientation, w.orientation), len: n + w.len }
}

pub open spec fn jpeg_walk(t: Seq<u8>, opts: StripOptions) -> Walked
    decreases t.len(),
{
    let nothing = Walked { cmds: seq![], orientation: None, len: 0 };
    match jpeg_part(t, opts) {
        Part::Nothing => nothing,
        Part::Rest => then_walked(CmdView::Emit(t.len() as int), None, t.len() as int, nothing),
        Part::End(n) => then_walked(CmdView::Emit(n), None, n, nothing),
        Part::Keep(n) => if 0 < n <= t.len() {
            then_walked(CmdView::Emit(n), None, n, jpeg_walk(tail(t, n), opts))
        } else {
            nothing
        },
        Part::Drop { len, kind, orientation } => if 0 < len <= t.len() {
            then_walked(
                CmdView::Drop { len, kind },
                orientation,
                len,
                jpeg_walk(tail(t, len), opts),
            )
        } else {
            nothing
        },
    }
}

/// The commands that put in an orientation.
pub open spec fn synthesized(o: Option<u16>) -> Seq<CmdView> {
    match o {
        Some(v) => seq![CmdView::Insert(app1_bytes(orientation_bytes(v)))],
        None => seq![],
    }
}

pub open spec fn is_jpeg(b: Seq<u8>) -> bool {
    b.len() >= 2 && b[0] == 0xFF && b[1] == 0xD8
}

/// A plan that keeps all of `b`.
pub open spec fn keep_all(b: Seq<u8>) -> Plan {
    Plan {
        demand: StripDemand::Done,
        consumed: b.len() as int,
        cmds: if b.len() == 0 {
            seq![]
        } else {
            seq![CmdView::Emit(b.len() as int)]
        },
    }
}

/// The plan for the JPEG file `b`. The orientation, where it is kept, goes behind the
/// start marker.
pub open spec fn jpeg_plan(opts: StripOptions, b: Seq<u8>) -> Plan {
    if !is_jpeg(b) {
        keep_all(b)
    } else {
        let w = jpeg_walk(tail(b, 2), opts);
        Plan {
            demand: StripDemand::Done,
            consumed: 2 + w.len,
            cmds: seq![CmdView::Emit(2)] + synthesized(w.orientation) + w.cmds,
        }
    }
}

/// Plans to keep all of the input.
pub fn keep_input(input: &[u8]) -> (r: StripResult)
    ensures
        r@ == keep_all(input@),
{
    broadcast use cmd_views_push;

    let mut cmds: Vec<StripCmd> = Vec::new();
    assert(cmd_views(cmds@) =~= seq![]);
    if input.len() > 0 {
        cmds.push(StripCmd::Emit(input.len()));
    }
    let r = StripResult { demand: StripDemand::Done, consumed: input.len(), cmds };
    assert(r@ =~= keep_all(input@));
    r
}

/// What the executable walk sees at the front of `t`.
enum Seen {
    Nothing,
    Rest,
    End(usize),
    Keep(usize),
    Drop(usize, RemovedKind, Option<u16>),
}

fn see(t: &[u8], opts: &StripOptions) -> (r: Seen)
    ensures
        match r {
            Seen::Nothing => jpeg_part(t@, *opts) is Nothing,
            Seen::Rest => jpeg_part(t@, *opts) is Rest,
            Seen::End(n) => jpeg_part(t@, *opts) == Part::End(n as int) && n <= t@.len(),
            Seen::Keep(n) => jpeg_part(t@, *opts) == Part::Keep(n as int) && 0 < n <= t@.len(),
            Seen::Drop(n, kind, orientation) => jpeg_part(t@, *opts) == (Part::Drop {
                len: n as int,
                kind,
                orientation,
            }) && 0 < n <= t@.len(),
        },
{
    if t.len() == 0 {
        return Seen::Nothing;
    }
    if t[0] != 0xFF {
        return Seen::Rest;
    }
    let mut i: usize = 1;
    while i < t.len() && t[i] == 0xFF
        invariant
            1 <= i <= t@.len(),
            fill_end(t@, i as int) == fill_end(t@, 1),
        decreases t@.len() - i,
    {
        i += 1;
    }
    if i >= t.len() {
        return Seen::Rest;
    }
    let marker: u8 = t[i];
    if marker == 0xDA {
        return Seen::Rest;
    }
    if marker == 0xD9 {
        return Seen::End(i + 1);
    }
    if marker == 0x01 || (0xD0 <= marker && marker <= 0xD7) {
        return Seen::Keep(i + 1);
    }
    if t.len() - i < 3 {
        return Seen::Rest;
    }
    let seg_len: usize = read_be16(t, i + 1) as usize;
    if seg_len < 2 || seg_len > t.len() - i - 1 {
        return Seen::Rest;
    }
    let end: usize = i + 1 + seg_len;
    let body = part(t, i + 3, end);
    match classify(marker, body, opts) {
        Some(kind) => {
            let orientation = if kind == RemovedKind::Exif && opts.keep_orientation && body.len()
                > 6 {
                find_orientation(rest_of(body, 6))
            } else {
                None
            };
            Seen::Drop(end, kind, orientation)
        },
        None => Seen::Keep(end),
    }
}

impl JpegStripper {
    pub fn new(opts: StripOptions) -> (r: Self)
        ensures
            r.state() == opts,
    {
        JpegStripper { opts }
    }
}

impl StripPlanner for JpegStripper {
    type State = StripOptions;

    closed spec fn state(&self) -> StripOptions {
        self.opts
    }

    open spec fn plan(st: StripOptions, input: Seq<u8>) -> (StripOptions, Plan) {
        (st, jpeg_plan(st, input))
    }

    fn pull(&mut self, input: &[u8]) -> (r: StripResult) {
        broadcast use cmd_views_push;

        if input.len() < 2 || input[0] != 0xFF || input[1] != 0xD8 {
            return keep_input(input);
        }
        let mut cmds: Vec<StripCmd> = Vec::new();
        let mut orientation: Option<u16> = None;
        let mut pos: usize = 2;
        let ghost opts = self.opts;
        let ghost goal = jpeg_walk(tail(input@, 2), opts);
        assert(cmd_views(cmds@) =~= seq![]);
        assert(goal =~= Walked {
            cmds: cmd_views(cmds@) + goal.cmds,
            orientation: or(orientation, goal.orientation),
            len: 0 + goal.len,
        });
        loop
            invariant_except_break
                ({
                    let w = jpeg_walk(tail(input@, pos as int), opts);
                    goal == (Walked {
                        cmds: cmd_views(cmds@) + w.cmds,
                        orientation: or(orientation, w.orientation),
                        len: pos - 2 + w.len,
                    })
                }),
            invariant
                2 <= pos <= input.len(),
                opts == self.opts,
                self.opts == old(self).opts,
            ensures
                goal == (Walked { cmds: cmd_views(cmds@), orientation, len: pos - 2 }),
            decreases input@.len() - pos,
        {
            let ghost w = jpeg_walk(tail(input@, pos as int), opts);
            let ghost so_far = cmd_views(cmds@);
            match see(rest_of(input, pos), &self.opts) {
                Seen::Nothing => {
                    assert(so_far + seq![] =~= so_far);
                    break;
                },
                Seen::Rest => {
                    cmds.push(StripCmd::Emit(input.len() - pos));
                    pos = input.len();
                    assert(goal.cmds =~= cmd_views(cmds@));
                    break;
                },
                Seen::End(n) => {
                    cmds.push(StripCmd::Emit(n));
                    pos += n;
                    assert(goal.cmds =~= cmd_views(cmds@));
                    break;
                },
                Seen::Keep(n) => {
                    cmds.push(StripCmd::Emit(n));
                    assert(tail(tail(input@, pos as int), n as int) =~= tail(input@, pos + n));
                    assert(goal.cmds =~= cmd_views(cmds@) + jpeg_walk(
                        tail(input@, pos + n),
                        opts,
                    ).cmds);
                    pos += n;
                },
                Seen::Drop(n, kind, found) => {
                    cmds.push(StripCmd::Drop { len: n, kind });
                    assert(tail(tail(input@, pos as int), n as int) =~= tail(input@, pos + n));
                    assert(goal.cmds =~= cmd_views(cmds@) + jpeg_walk(
                        tail(input@, pos + n),
                        opts,
                    ).cmds);
                    if orientation.is_none() {
                        orientation = found;
                    }
                    pos += n;
                },
            }
        }
        let mut all: Vec<StripCmd> = Vec::new();
        let ghost front = cmd_views(all@);
        all.push(StripCmd::Emit(2));
        match orientation {
            Some(v) => {
                let seg = jpeg_app1_exif(orientation_tiff(v).as_slice());
                all.push(StripCmd::Insert(seg));
            },
            None => {},
        }
        let ghost head = cmd_views(all@);
        assert(head =~= seq![CmdView::Emit(2)] + synthesized(orientation));
        let ghost rest = cmd_views(cmds@);
        let ghost (a, b) = (all@, cmds@);
        all.append(&mut cmds);
        assert(cmd_views(all@) =~= head + rest);
        StripResult { demand: StripDemand::Done, consumed: pos, cmds: all }
    }
}

} // verus!
