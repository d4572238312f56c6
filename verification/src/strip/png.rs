//! Stripping PNG: chunks with metadata go, all others stay.
use vstd::prelude::*;

use crate::bytes::{be32, has_prefix, is_str, lit, part, read_be32, rest_of, starts_with, tail};
use crate::formats::png::{is_png, signature};
use crate::strip::exif_synth::{chunk_bytes, orientation_bytes, orientation_tiff, png_exif_chunk};
use crate::strip::jpeg::{find_orientation, keep_all, keep_input, tiff_orientation};
use crate::strip::{
    cmd_views, cmd_views_push, CmdView, Plan, RemovedKind, StripCmd, StripDemand, StripOptions,
    StripPlanner, StripResult,
};

verus! {

pub struct PngStripper {
    opts: StripOptions,
}

/// The kind of metadata that a chunk holds, where it is to go.
pub open spec fn chunk_kind(ctype: Seq<u8>, data: Seq<u8>, opts: StripOptions) -> Option<
    RemovedKind,
> {
    if ctype == lit("eXIf") {
        Some(RemovedKind::Exif)
    } else if ctype == lit("iTXt") || ctype == lit("tEXt") || ctype == lit("zTXt") {
        if has_prefix(data, lit("XML:com.adobe.xmp")) {
            Some(RemovedKind::Xmp)
        } else {
            Some(RemovedKind::Other)
        }
    } else if ctype == lit("iCCP") && !opts.keep_icc {
        Some(RemovedKind::Icc)
    } else {
        None
    }
}

fn classify(ctype: &[u8], data: &[u8], opts: &StripOptions) -> (r: Option<RemovedKind>)
    ensures
        r == chunk_kind(ctype@, data@, *opts),
{
    if is_str(ctype, "eXIf") {
        Some(RemovedKind::Exif)
    } else if is_str(ctype, "iTXt") || is_str(ctype, "tEXt") || is_str(ctype, "zTXt") {
        if starts_with(data, "XML:com.adobe.xmp") {
            Some(RemovedKind::Xmp)
        } else {
            Some(RemovedKind::Other)
        }
    } else if is_str(ctype, "iCCP") && !opts.keep_icc {
        Some(RemovedKind::Icc)
    } else {
        None
    }
}

/// Whether the chunk at the front of `t` is all there.
pub open spec fn whole_chunk(t: Seq<u8>) -> bool {
    t.len() >= 8 && 12 + be32(t, 0) <= t.len()
}

/// The type of the chunk at the front of `t`.
pub open spec fn ctype(t: Seq<u8>) -> Seq<u8> {
    t.subrange(4, 8)
}

/// The data of the chunk at the front of `t`.
pub open spec fn cdata(t: Seq<u8>) -> Seq<u8> {
    t.subrange(8, 8 + be32(t, 0))
}

/// Whether the orientation has to be put in before this chunk.
pub open spec fn is_gate(c: Seq<u8>) -> bool {
    c == lit("IDAT") || c == lit("IEND")
}

/// The orientation to put in, as far as it is known behind the chunk at the front of `t`.
pub open spec fn next_orientation(t: Seq<u8>, found: Option<u16>, opts: StripOptions) -> Option<
    u16,
> {
    if ctype(t) == lit("eXIf") && opts.keep_orientation && found is None {
        tiff_orientation(cdata(t))
    } else {
        found
    }
}

/// The commands that put in an orientation.
pub open spec fn synthesized(o: Option<u16>) -> Seq<CmdView> {
    match o {
        Some(v) => seq![CmdView::Insert(chunk_bytes(lit("eXIf"), orientation_bytes(v)))],
        None => seq![],
    }
}

/// What becomes of the chunk at the front of `t`.
pub open spec fn chunk_cmd(t: Seq<u8>, opts: StripOptions) -> CmdView {
    let n = 12 + be32(t, 0);
    match chunk_kind(ctype(t), cdata(t), opts) {
        Some(kind) => CmdView::Drop { len: n, kind },
        None => CmdView::Emit(n),
    }
}

/// What becomes of `t`: the commands and how much of it is covered. `found` is the
/// orientation found so far, `open` whether it may still be put in.
#[verifier::ext_equal]
pub struct Covered {
    pub cmds: Seq<CmdView>,
    pub len: int,
}

pub open spec fn png_walk(
    t: Seq<u8>,
    found: Option<u16>,
    open: bool,
    opts: StripOptions,
) -> Covered
    decreases t.len(),
{
    if !whole_chunk(t) {
        Covered {
            cmds: if t.len() == 0 {
                seq![]
            } else {
                seq![CmdView::Emit(t.len() as int)]
            },
            len: t.len() as int,
        }
    } else {
        let n = 12 + be32(t, 0);
        let gate = is_gate(ctype(t));
        let head = (if open && gate {
            synthesized(found)
        } else {
            seq![]
        }).push(chunk_cmd(t, opts));
        if ctype(t) == lit("IEND") {
            Covered { cmds: head, len: n }
        } else {
            let w = png_walk(
                tail(t, n),
                next_orientation(t, found, opts),
                open && !gate,
                opts,
            );
            Covered { cmds: head + w.cmds, len: n + w.len }
        }
    }
}

/// The plan for the PNG file `b`. The orientation, where it is kept, goes before the
/// image data.
pub open spec fn png_plan(opts: StripOptions, b: Seq<u8>) -> Plan {
    if !signature(b) {
        keep_all(b)
    } else {
        let w = png_walk(tail(b, 8), None, true, opts);
        Plan {
            demand: StripDemand::Done,
            consumed: 8 + w.len,
            cmds: seq![CmdView::Emit(8)] + w.cmds,
        }
    }
}

impl PngStripper {
    pub fn new(opts: StripOptions) -> (r: Self)
        ensures
            r.state() == opts,
    {
        PngStripper { opts }
    }
}

impl StripPlanner for PngStripper {
    type State = StripOptions;

    closed spec fn state(&self) -> StripOptions {
        self.opts
    }

    open spec fn plan(st: StripOptions, input: Seq<u8>) -> (StripOptions, Plan) {
        (st, png_plan(st, input))
    }

    fn pull(&mut self, input: &[u8]) -> (r: StripResult) {
        broadcast use cmd_views_push;

        if !is_png(input) {
            return keep_input(input);
        }
        let mut cmds: Vec<StripCmd> = Vec::new();
        assert(cmd_views(cmds@) =~= seq![]);
        cmds.push(StripCmd::Emit(8));
        let mut found: Option<u16> = None;
        let mut open: bool = true;
        let mut pos: usize = 8;
        let ghost opts = self.opts;
        let ghost goal = png_plan(opts, input@);
        loop
            invariant_except_break
                ({
                    let w = png_walk(tail(input@, pos as int), found, open, opts);
                    &&& goal.cmds == cmd_views(cmds@) + w.cmds
                    &&& goal.consumed == pos + w.len
                }),
            invariant
                8 <= pos <= input.len(),
                opts == self.opts,
                self.opts == old(self).opts,
            ensures
                goal.cmds == cmd_views(cmds@),
                goal.consumed == pos,
            decreases input@.len() - pos,
        {
            let t = rest_of(input, pos);
            let ghost so_far = cmd_views(cmds@);
            if t.len() < 8 || (read_be32(t, 0) as u64) + 12 > t.len() as u64 {
                if t.len() > 0 {
                    cmds.push(StripCmd::Emit(t.len()));
                }
                pos = input.len();
                assert(goal.cmds =~= cmd_views(cmds@));
                break;
            }
            let len: usize = read_be32(t, 0) as usize;
            let total: usize = len + 12;
            let kind = part(t, 4, 8);
            let data = part(t, 8, 8 + len);
            let is_end: bool = is_str(kind, "IEND");
            let gate: bool = is_end || is_str(kind, "IDAT");
            if open && gate {
                match found {
                    Some(v) => {
                        cmds.push(
                            StripCmd::Insert(png_exif_chunk(orientation_tiff(v).as_slice())),
                        );
                    },
                    None => {},
                }
            }
            let ghost w = png_walk(t@, found, open, opts);
            match classify(kind, data, &self.opts) {
                Some(k) => {
                    cmds.push(StripCmd::Drop { len: total, kind: k });
                },
                None => {
                    cmds.push(StripCmd::Emit(total));
                },
            }
            let ghost head = (if open && gate {
                synthesized(found)
            } else {
                seq![]
            }).push(chunk_cmd(t@, opts));
            assert(cmd_views(cmds@) =~= so_far + head);
            if is_end {
                pos += total;
                break;
            }
            let ghost rest = png_walk(
                tail(t@, total as int),
                next_orientation(t@, found, opts),
                open && !gate,
                opts,
            );
            assert(tail(t@, total as int) =~= tail(input@, pos + total));
            assert(so_far + (head + rest.cmds) =~= cmd_views(cmds@) + rest.cmds);
            if is_str(kind, "eXIf") && self.opts.keep_orientation && found.is_none() {
                found = find_orientation(data);
            }
            open = open && !gate;
            pos += total;
        }
        StripResult { demand: StripDemand::Done, consumed: pos, cmds }
    }
}

} // verus!
