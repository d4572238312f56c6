//! Stripping WebP: chunks with metadata go, the size of the container and the flags of
//! the VP8X chunk follow.
use vstd::prelude::*;

use crate::bytes::{
    is_str, le32, le32_bytes, lit, part, put, put_le32, put_str,
    read_le32, rest_of, tail,
};
use crate::formats::webp::{is_webp, riff_webp};
use crate::strip::exif_synth::{orientation_bytes, orientation_tiff, riff_bytes, webp_exif_chunk};
use crate::strip::jpeg::{find_orientation, keep_all, keep_input, tiff_orientation};
use crate::strip::{
    cmd_views, cmd_views_push, CmdView, Plan, RemovedKind, StripCmd, StripDemand, StripOptions,
    StripPlanner, StripResult,
};

verus! {

pub struct WebpStripper {
    opts: StripOptions,
}

/// Where the data of the chunk at the front of `t` ends.
pub open spec fn data_end(t: Seq<u8>) -> int {
    8 + le32(t, 4)
}

/// Where the chunk at the front of `t` ends, with its padding.
pub open spec fn chunk_end(t: Seq<u8>) -> int {
    data_end(t) + le32(t, 4) % 2
}

/// The orientation that the last EXIF chunk gives. A chunk at the end may lack its
/// padding.
pub open spec fn last_orientation(t: Seq<u8>, found: Option<u16>) -> Option<u16>
    decreases t.len(),
{
    if t.len() < 8 || data_end(t) > t.len() {
        found
    } else {
        let next = if t.subrange(0, 4) == lit("EXIF") {
            tiff_orientation(t.subrange(8, data_end(t)))
        } else {
            found
        };
        if chunk_end(t) > t.len() {
            next
        } else {
            last_orientation(tail(t, chunk_end(t)), next)
        }
    }
}

/// The kind of metadata that a chunk holds, where it is to go.
pub open spec fn riff_kind(fourcc: Seq<u8>, opts: StripOptions) -> Option<RemovedKind> {
    if fourcc == lit("EXIF") {
        Some(RemovedKind::Exif)
    } else if fourcc == lit("XMP ") {
        Some(RemovedKind::Xmp)
    } else if fourcc == lit("ICCP") && !opts.keep_icc {
        Some(RemovedKind::Icc)
    } else {
        None
    }
}

/// The container as it is put together anew.
#[verifier::ext_equal]
pub struct Rebuilt {
    pub body: Seq<u8>,
    /// The orientation that is still to be put in.
    pub orientation: Option<u16>,
    /// Where the flags stand in the body.
    pub flags: Option<int>,
    /// Whether a colour profile stays.
    pub icc: bool,
    pub removed: Seq<CmdView>,
}

pub open spec fn exif_chunk(o: Option<u16>) -> Seq<u8> {
    match o {
        Some(v) => riff_bytes(lit("EXIF"), orientation_bytes(v)),
        None => seq![],
    }
}

/// What the chunk at the front of `t` adds. The orientation goes behind the first VP8X
/// chunk.
pub open spec fn rebuild_step(t: Seq<u8>, r: Rebuilt, opts: StripOptions) -> Rebuilt {
    let fourcc = t.subrange(0, 4);
    match riff_kind(fourcc, opts) {
        Some(kind) => Rebuilt {
            removed: r.removed.push(CmdView::Account { len: chunk_end(t) as u64, kind }),
            ..r
        },
        None => if fourcc == lit("VP8X") {
            Rebuilt {
                body: r.body + t.subrange(0, chunk_end(t)) + exif_chunk(r.orientation),
                orientation: None,
                flags: if le32(t, 4) >= 1 {
                    Some(r.body.len() as int + 8)
                } else {
                    r.flags
                },
                ..r
            }
        } else {
            Rebuilt {
                body: r.body + t.subrange(0, chunk_end(t)),
                icc: r.icc || fourcc == lit("ICCP"),
                ..r
            }
        },
    }
}

/// The container after the chunks of `t`, and what is left of `t`: a chunk that is not all
/// there. Less than a header is not worth keeping.
pub open spec fn rebuild(t: Seq<u8>, r: Rebuilt, opts: StripOptions) -> (Rebuilt, Seq<u8>)
    decreases t.len(),
{
    if t.len() < 8 {
        (r, seq![])
    } else if chunk_end(t) > t.len() {
        (r, t)
    } else {
        rebuild(tail(t, chunk_end(t)), rebuild_step(t, r, opts), opts)
    }
}

/// The flags byte `x` without the XMP bit, and with the bits for EXIF and ICC set as
/// told.
pub open spec fn new_flags(x: u8, exif: bool, icc: bool) -> u8 {
    let a = x & 0xD3u8;
    let b = if exif {
        a | 0x08u8
    } else {
        a
    };
    if icc {
        b | 0x20u8
    } else {
        b
    }
}

/// The body with its flags brought up to date: `exif` and `icc` tell which chunks it has.
pub open spec fn with_flags(body: Seq<u8>, flags: Option<int>, exif: bool, icc: bool) -> Seq<u8> {
    match flags {
        Some(i) if 0 <= i < body.len() => body.update(i, new_flags(body[i], exif, icc)),
        _ => body,
    }
}

/// The body of the stripped file, behind its size, and the report. The only EXIF chunk is
/// the one that holds the orientation.
pub open spec fn webp_body(b: Seq<u8>, opts: StripOptions) -> (Seq<u8>, Seq<CmdView>) {
    let t = tail(b, 12);
    let orientation = if opts.keep_orientation {
        last_orientation(t, None)
    } else {
        None
    };
    let (r, rest) = rebuild(
        t,
        Rebuilt { body: lit("WEBP"), orientation, flags: None, icc: false, removed: seq![] },
        opts,
    );
    let body = r.body + exif_chunk(r.orientation);
    (with_flags(body, r.flags, orientation is Some, r.icc) + rest, r.removed)
}

/// The plan for the WebP file `b`.
pub open spec fn webp_plan(opts: StripOptions, b: Seq<u8>) -> Plan {
    if !riff_webp(b) {
        keep_all(b)
    } else {
        let (body, removed) = webp_body(b, opts);
        Plan {
            demand: StripDemand::Done,
            consumed: b.len() as int,
            cmds: seq![
                CmdView::Replace {
                    consume: b.len() as int,
                    with: lit("RIFF") + le32_bytes((body.len() % 0x1_0000_0000) as u32) + body,
                },
            ] + removed,
        }
    }
}

impl WebpStripper {
    pub fn new(opts: StripOptions) -> (r: Self)
        ensures
            r.state() == opts,
    {
        WebpStripper { opts }
    }
}

fn find_last_orientation(t: &[u8]) -> (r: Option<u16>)
    ensures
        r == last_orientation(t@, None),
{
    let mut found: Option<u16> = None;
    let mut p: usize = 0;
    assert(tail(t@, 0) =~= t@);
    while t.len() - p >= 8
        invariant_except_break
            last_orientation(tail(t@, p as int), found) == last_orientation(t@, None),
        invariant
            p <= t.len(),
        ensures
            found == last_orientation(t@, None),
        decreases t@.len() - p,
    {
        let c = rest_of(t, p);
        let size: u32 = read_le32(c, 4);
        if size as u64 > (c.len() - 8) as u64 {
            break;
        }
        let end: usize = 8 + size as usize;
        if is_str(part(c, 0, 4), "EXIF") {
            found = find_orientation(part(c, 8, end));
        }
        let pad: usize = (size % 2) as usize;
        if pad > c.len() - end {
            break;
        }
        assert(tail(c@, end + pad) =~= tail(t@, p + end + pad));
        p += end + pad;
    }
    found
}

fn classify(fourcc: &[u8], opts: &StripOptions) -> (r: Option<RemovedKind>)
    ensures
        r == riff_kind(fourcc@, *opts),
{
    if is_str(fourcc, "EXIF") {
        Some(RemovedKind::Exif)
    } else if is_str(fourcc, "XMP ") {
        Some(RemovedKind::Xmp)
    } else if is_str(fourcc, "ICCP") && !opts.keep_icc {
        Some(RemovedKind::Icc)
    } else {
        None
    }
}

fn put_exif(body: &mut Vec<u8>, o: Option<u16>)
    ensures
        final(body)@ == old(body)@ + exif_chunk(o),
{
    match o {
        Some(v) => {
            let c = webp_exif_chunk(orientation_tiff(v).as_slice());
            put(body, c.as_slice());
        },
        None => {
            assert(body@ + seq![] =~= body@);
        },
    }
}

fn update_flags(body: &mut Vec<u8>, flags: Option<usize>, exif: bool, icc: bool)
    requires
        flags matches Some(i) ==> i < old(body)@.len(),
    ensures
        final(body)@ == with_flags(
            old(body)@,
            match flags {
                Some(i) => Some(i as int),
                None => None,
            },
            exif,
            icc,
        ),
{
    match flags {
        Some(i) => {
            let mut x: u8 = body[i] & 0xD3u8;
            if exif {
                x = x | 0x08u8;
            }
            if icc {
                x = x | 0x20u8;
            }
            body.set(i, x);
        },
        None => {},
    }
}

impl StripPlanner for WebpStripper {
    type State = StripOptions;

    closed spec fn state(&self) -> StripOptions {
        self.opts
    }

    open spec fn plan(st: StripOptions, input: Seq<u8>) -> (StripOptions, Plan) {
        (st, webp_plan(st, input))
    }

    fn pull(&mut self, input: &[u8]) -> (r: StripResult) {
        broadcast use cmd_views_push;

        if !is_webp(input) {
            return keep_input(input);
        }
        let chunks = rest_of(input, 12);
        let ghost opts = self.opts;
        let mut orientation: Option<u16> = if self.opts.keep_orientation {
            find_last_orientation(chunks)
        } else {
            None
        };
        let mut body: Vec<u8> = Vec::new();
        put_str(&mut body, "WEBP");
        let exif: bool = orientation.is_some();
        let mut icc: bool = false;
        let mut flags: Option<usize> = None;
        let mut removed: Vec<StripCmd> = Vec::new();
        let ghost begin = Rebuilt {
            body: lit("WEBP"),
            orientation,
            flags: None,
            icc: false,
            removed: seq![],
        };
        let ghost goal = rebuild(chunks@, begin, opts);
        let mut p: usize = 0;
        assert(tail(chunks@, 0) =~= chunks@);
        assert(body@ =~= begin.body);
        assert(cmd_views(removed@) =~= seq![]);
        loop
            invariant_except_break
                rebuild(
                    tail(chunks@, p as int),
                    (Rebuilt {
                        body: body@,
                        orientation,
                        flags: match flags {
                            Some(i) => Some(i as int),
                            None => None,
                        },
                        icc,
                        removed: cmd_views(removed@),
                    }),
                    opts,
                ) == goal,
            invariant
                p <= chunks.len(),
                flags matches Some(i) ==> i < body@.len(),
                opts == self.opts,
                self.opts == old(self).opts,
            ensures
                goal == (
                    (Rebuilt {
                        body: body@,
                        orientation,
                        flags: match flags {
                            Some(i) => Some(i as int),
                            None => None,
                        },
                        icc,
                        removed: cmd_views(removed@),
                    }),
                    tail(chunks@, p as int),
                ),
            decreases chunks@.len() - p,
        {
            let c = rest_of(chunks, p);
            if c.len() < 8 {
                p = chunks.len();
                assert(tail(chunks@, p as int) =~= seq![]);
                break;
            }
            let size: u32 = read_le32(c, 4);
            let total: u64 = 8 + size as u64 + (size % 2) as u64;
            assert(total == chunk_end(c@));
            if total > c.len() as u64 {
                break;
            }
            let end: usize = total as usize;
            let fourcc = part(c, 0, 4);
            let ghost r = Rebuilt {
                body: body@,
                orientation,
                flags: match flags {
                    Some(i) => Some(i as int),
                    None => None,
                },
                icc,
                removed: cmd_views(removed@),
            };
            match classify(fourcc, &self.opts) {
                Some(kind) => {
                    removed.push(StripCmd::Account { len: total, kind });
                },
                None => {
                    let vp8x: bool = is_str(fourcc, "VP8X");
                    put(&mut body, part(c, 0, end));
                    if vp8x {
                        if size >= 1 {
                            flags = Some(body.len() - end + 8);
                        }
                        put_exif(&mut body, orientation);
                        orientation = None;
                    } else if is_str(fourcc, "ICCP") {
                        icc = true;
                    }
                },
            }
            assert((Rebuilt {
                body: body@,
                orientation,
                flags: match flags {
                    Some(i) => Some(i as int),
                    None => None,
                },
                icc,
                removed: cmd_views(removed@),
            }) =~= rebuild_step(c@, r, opts));
            assert(tail(c@, end as int) =~= tail(chunks@, p + end));
            p += end;
        }
        put_exif(&mut body, orientation);
        update_flags(&mut body, flags, exif, icc);
        put(&mut body, rest_of(chunks, p));
        let mut with: Vec<u8> = Vec::new();
        put_str(&mut with, "RIFF");
        put_le32(&mut with, (body.len() as u64 % 0x1_0000_0000) as u32);
        put(&mut with, body.as_slice());
        let ghost ghost_with = with@;
        assert(ghost_with =~= lit("RIFF") + le32_bytes((body@.len() % 0x1_0000_0000) as u32)
            + body@);
        let mut cmds: Vec<StripCmd> = Vec::new();
        cmds.push(StripCmd::Replace { consume: input.len(), with });
        let ghost first = cmd_views(cmds@);
        let ghost rest = cmd_views(removed@);
        cmds.append(&mut removed);
        assert(cmd_views(cmds@) =~= first + rest);
        StripResult { demand: StripDemand::Done, consumed: input.len(), cmds }
    }
}

} // verus!
