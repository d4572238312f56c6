//! Removing metadata. A planner for each format turns the input into commands, and the
//! engine puts the output and the report together.
use vstd::prelude::*;

use crate::bytes::{part, put, rest_of, sat64, tail};
use crate::error::Error;
use crate::limits::{default_limits, Limits};
use crate::model::{FileFormat, Warning};
use crate::strip::jpeg::{jpeg_plan, JpegStripper};
use crate::strip::png::{png_plan, PngStripper};
use crate::strip::webp::{webp_plan, WebpStripper};

pub mod crc32;
pub mod exif_synth;
pub mod jpeg;
pub mod png;
pub mod webp;

verus! {

/// A kind of metadata that was removed.
#[derive(Debug, Clone, Copy, PartialEq, Eq, Structural)]
pub enum RemovedKind {
    Exif,
    Xmp,
    Iptc,
    Icc,
    Other,
}

/// A set of kinds.
#[derive(Debug, Clone, Copy, PartialEq, Eq, Structural)]
pub struct RemovedKinds {
    exif: bool,
    xmp: bool,
    iptc: bool,
    icc: bool,
    other: bool,
}

impl RemovedKinds {
    pub closed spec fn has(self, kind: RemovedKind) -> bool {
        match kind {
            RemovedKind::Exif => self.exif,
            RemovedKind::Xmp => self.xmp,
            RemovedKind::Iptc => self.iptc,
            RemovedKind::Icc => self.icc,
            RemovedKind::Other => self.other,
        }
    }

    pub open spec fn view(&self) -> Set<RemovedKind> {
        Set::new(|k: RemovedKind| self.has(k))
    }

    pub fn insert(&mut self, kind: RemovedKind)
        ensures
            final(self)@ == old(self)@.insert(kind),
    {
        match kind {
            RemovedKind::Exif => self.exif = true,
            RemovedKind::Xmp => self.xmp = true,
            RemovedKind::Iptc => self.iptc = true,
            RemovedKind::Icc => self.icc = true,
            RemovedKind::Other => self.other = true,
        }
        assert(self@ =~= old(self)@.insert(kind));
    }

    pub fn contains(&self, kind: RemovedKind) -> (r: bool)
        ensures
            r == self@.contains(kind),
    {
        match kind {
            RemovedKind::Exif => self.exif,
            RemovedKind::Xmp => self.xmp,
            RemovedKind::Iptc => self.iptc,
            RemovedKind::Icc => self.icc,
            RemovedKind::Other => self.other,
        }
    }

    pub fn is_empty(&self) -> (r: bool)
        ensures
            r == (self@ == Set::<RemovedKind>::empty()),
    {
        let r = !(self.exif || self.xmp || self.iptc || self.icc || self.other);
        proof {
            if r {
                assert(self@ =~= Set::<RemovedKind>::empty());
            } else {
                assert(self@.contains(RemovedKind::Exif) || self@.contains(RemovedKind::Xmp)
                    || self@.contains(RemovedKind::Iptc) || self@.contains(RemovedKind::Icc)
                    || self@.contains(RemovedKind::Other));
            }
        }
        r
    }
}

impl Default for RemovedKinds {
    fn default() -> (r: Self)
        ensures
            r@ == Set::<RemovedKind>::empty(),
    {
        let r = RemovedKinds { exif: false, xmp: false, iptc: false, icc: false, other: false };
        assert(r@ =~= Set::<RemovedKind>::empty());
        r
    }
}

/// What to remove. By default colour profiles and the orientation stay.
#[derive(Clone, Copy, Debug, PartialEq, Eq, Structural)]
pub struct StripOptions {
    pub limits: Limits,
    pub keep_icc: bool,
    pub keep_orientation: bool,
}

impl Default for StripOptions {
    fn default() -> (r: Self)
        ensures
            r.limits == default_limits(),
            r.keep_icc,
            r.keep_orientation,
    {
        StripOptions { limits: Limits::default(), keep_icc: true, keep_orientation: true }
    }
}

impl StripOptions {
    /// Removes colour profiles and the orientation too.
    pub fn aggressive() -> (r: Self)
        ensures
            r.limits == default_limits(),
            !r.keep_icc,
            !r.keep_orientation,
    {
        StripOptions { limits: Limits::default(), keep_icc: false, keep_orientation: false }
    }
}

/// What was removed.
#[derive(Debug, Clone)]
pub struct StripReport {
    pub format: FileFormat,
    pub bytes_removed: u64,
    pub removed: RemovedKinds,
    pub warnings: Vec<Warning>,
}

/// Whether a planner has more to say.
#[derive(Debug, Clone, Copy, PartialEq, Eq, Structural)]
pub enum StripDemand {
    /// It goes on behind what it consumed.
    More,
    Done,
}

/// A command to the engine.
#[derive(Debug, Clone, PartialEq, Eq)]
pub enum StripCmd {
    /// Copy the next bytes.
    Emit(usize),
    /// Leave the next bytes out.
    Drop { len: usize, kind: RemovedKind },
    /// Put other bytes in place of the next ones.
    Replace { consume: usize, with: Vec<u8> },
    /// Put bytes in.
    Insert(Vec<u8>),
    /// Report bytes as removed; the output does not change.
    Account { len: u64, kind: RemovedKind },
}

pub enum CmdView {
    Emit(int),
    Drop { len: int, kind: RemovedKind },
    Replace { consume: int, with: Seq<u8> },
    Insert(Seq<u8>),
    Account { len: u64, kind: RemovedKind },
}

impl View for StripCmd {
    type V = CmdView;

    open spec fn view(&self) -> CmdView {
        match *self {
            StripCmd::Emit(n) => CmdView::Emit(n as int),
            StripCmd::Drop { len, kind } => CmdView::Drop { len: len as int, kind },
            StripCmd::Replace { consume, with } => CmdView::Replace {
                consume: consume as int,
                with: with@,
            },
            StripCmd::Insert(with) => CmdView::Insert(with@),
            StripCmd::Account { len, kind } => CmdView::Account { len, kind },
        }
    }
}

pub open spec fn cmd_views(s: Seq<StripCmd>) -> Seq<CmdView> {
    Seq::new(s.len(), |i: int| s[i]@)
}

pub broadcast proof fn cmd_views_push(s: Seq<StripCmd>, c: StripCmd)
    ensures
        #[trigger] cmd_views(s.push(c)) == cmd_views(s).push(c@),
{
    assert(cmd_views(s.push(c)) =~= cmd_views(s).push(c@));
}

/// The outcome of one pull of a planner.
pub struct StripResult {
    pub demand: StripDemand,
    pub consumed: usize,
    pub cmds: Vec<StripCmd>,
}

#[verifier::ext_equal]
pub struct Plan {
    pub demand: StripDemand,
    pub consumed: int,
    pub cmds: Seq<CmdView>,
}

impl View for StripResult {
    type V = Plan;

    open spec fn view(&self) -> Plan {
        Plan {
            demand: self.demand,
            consumed: self.consumed as int,
            cmds: cmd_views(self.cmds@),
        }
    }
}

/// A planner of one format.
pub trait StripPlanner: Sized {
    /// What a planner remembers between pulls.
    type State;

    open spec fn state(&self) -> Self::State {
        arbitrary()
    }

    /// The state after a pull on `input`, and the outcome of that pull.
    open spec fn plan(st: Self::State, input: Seq<u8>) -> (Self::State, Plan) {
        arbitrary()
    }

    /// Plans what becomes of `input`. A planner that wants more has consumed something.
    fn pull(&mut self, input: &[u8]) -> (r: StripResult)
        ensures
            (final(self).state(), r@) == Self::plan(old(self).state(), input@),
            r.demand == StripDemand::More ==> r.consumed > 0,
    ;
}

/// The output and the report so far, and how much of the window is done with.
#[verifier::ext_equal]
pub struct Stripped {
    pub out: Seq<u8>,
    pub cur: int,
    pub bytes: u64,
    pub kinds: Set<RemovedKind>,
}

/// `a + n`, but no more than `len`.
pub open spec fn within(a: int, n: int, len: int) -> int {
    if a + n < len {
        a + n
    } else {
        len
    }
}

/// What the command `c` does on the window `w`.
pub open spec fn applied(w: Seq<u8>, a: Stripped, c: CmdView) -> Stripped {
    match c {
        CmdView::Emit(n) => {
            let end = within(a.cur, n, w.len() as int);
            Stripped { out: a.out + w.subrange(a.cur, end), cur: end, ..a }
        },
        CmdView::Drop { len, kind } => {
            let end = within(a.cur, len, w.len() as int);
            Stripped {
                cur: end,
                bytes: sat64(a.bytes + (end - a.cur)),
                kinds: a.kinds.insert(kind),
                ..a
            }
        },
        CmdView::Replace { consume, with } => Stripped {
            out: a.out + with,
            cur: within(a.cur, consume, w.len() as int),
            ..a
        },
        CmdView::Insert(with) => Stripped { out: a.out + with, ..a },
        CmdView::Account { len, kind } => Stripped {
            bytes: sat64(a.bytes + len),
            kinds: a.kinds.insert(kind),
            ..a
        },
    }
}

/// What all of `cs` do, in their order.
pub open spec fn applied_all(w: Seq<u8>, a: Stripped, cs: Seq<CmdView>) -> Stripped
    decreases cs.len(),
{
    if cs.len() == 0 {
        a
    } else {
        applied_all(w, applied(w, a, cs[0]), cs.drop_first())
    }
}

/// What the engine makes of `buf` from `pos` on.
pub open spec fn strip_run<P: StripPlanner>(
    buf: Seq<u8>,
    st: P::State,
    pos: int,
    a: Stripped,
) -> Stripped
    decreases buf.len() - pos,
{
    let w = tail(buf, pos);
    let (next, p) = P::plan(st, w);
    let b = applied_all(w, Stripped { cur: 0, ..a }, p.cmds);
    let end = within(pos, p.consumed, buf.len() as int);
    if p.demand == StripDemand::More && pos < end < buf.len() {
        strip_run::<P>(buf, next, end, b)
    } else {
        b
    }
}

/// The state that the pulls of the engine leave the planner in.
pub open spec fn strip_end<P: StripPlanner>(buf: Seq<u8>, st: P::State, pos: int) -> P::State
    decreases buf.len() - pos,
{
    let (next, p) = P::plan(st, tail(buf, pos));
    let end = within(pos, p.consumed, buf.len() as int);
    if p.demand == StripDemand::More && pos < end < buf.len() {
        strip_end::<P>(buf, next, end)
    } else {
        next
    }
}

pub open spec fn nothing_stripped() -> Stripped {
    Stripped { out: seq![], cur: 0, bytes: 0, kinds: Set::empty() }
}

/// Carries out a command on the window.
fn apply(
    window: &[u8],
    cmd: &StripCmd,
    cur: usize,
    out: &mut Vec<u8>,
    report: &mut StripReport,
) -> (r: usize)
    requires
        cur <= window.len(),
    ensures
        r <= window.len(),
        final(report).format == old(report).format,
        final(report).warnings == old(report).warnings,
        (Stripped {
            out: final(out)@,
            cur: r as int,
            bytes: final(report).bytes_removed,
            kinds: final(report).removed@,
        }) == applied(
            window@,
            Stripped {
                out: old(out)@,
                cur: cur as int,
                bytes: old(report).bytes_removed,
                kinds: old(report).removed@,
            },
            cmd@,
        ),
{
    match cmd {
        StripCmd::Emit(n) => {
            let end: usize = if *n < window.len() - cur {
                cur + *n
            } else {
                window.len()
            };
            put(out, part(window, cur, end));
            end
        },
        StripCmd::Drop { len, kind } => {
            let end: usize = if *len < window.len() - cur {
                cur + *len
            } else {
                window.len()
            };
            report.bytes_removed = report.bytes_removed.saturating_add((end - cur) as u64);
            report.removed.insert(*kind);
            end
        },
        StripCmd::Replace { consume, with } => {
            put(out, with.as_slice());
            if *consume < window.len() - cur {
                cur + *consume
            } else {
                window.len()
            }
        },
        StripCmd::Insert(with) => {
            put(out, with.as_slice());
            cur
        },
        StripCmd::Account { len, kind } => {
            report.bytes_removed = report.bytes_removed.saturating_add(*len);
            report.removed.insert(*kind);
            cur
        },
    }
}

/// Runs a planner over a whole buffer.
pub fn drive_strip_slice<P: StripPlanner>(buf: &[u8], planner: &mut P, format: FileFormat) -> (r: (
    Vec<u8>,
    StripReport,
))
    ensures
        final(planner).state() == strip_end::<P>(buf@, old(planner).state(), 0),
        ({
            let s = strip_run::<P>(buf@, old(planner).state(), 0, nothing_stripped());
            &&& r.0@ == s.out
            &&& r.1.bytes_removed == s.bytes
            &&& r.1.removed@ == s.kinds
            &&& r.1.format == format
            &&& r.1.warnings@.len() == 0
        }),
{
    let mut out: Vec<u8> = Vec::new();
    let mut report = StripReport {
        format,
        bytes_removed: 0,
        removed: RemovedKinds::default(),
        warnings: Vec::new(),
    };
    let ghost goal = strip_run::<P>(buf@, planner.state(), 0, nothing_stripped());
    let ghost mut acc = nothing_stripped();
    let mut pos: usize = 0;
    assert(out@ =~= acc.out);
    loop
        invariant
            pos <= buf.len(),
            strip_end::<P>(buf@, planner.state(), pos as int) == strip_end::<P>(
                buf@,
                old(planner).state(),
                0,
            ),
            goal == strip_run::<P>(buf@, old(planner).state(), 0, nothing_stripped()),
            strip_run::<P>(buf@, planner.state(), pos as int, acc) == goal,
            out@ == acc.out,
            report.bytes_removed == acc.bytes,
            report.removed@ == acc.kinds,
            report.format == format,
            report.warnings@.len() == 0,
        decreases buf@.len() - pos,
    {
        let window = rest_of(buf, pos);
        let res = planner.pull(window);
        let ghost cmds = cmd_views(res.cmds@);
        let ghost begin = Stripped { cur: 0, ..acc };
        let mut cur: usize = 0;
        let mut i: usize = 0;
        assert(cmds.subrange(0, cmds.len() as int) =~= cmds);
        while i < res.cmds.len()
            invariant
                i <= res.cmds@.len(),
                cmds == cmd_views(res.cmds@),
                cur <= window.len(),
                applied_all(
                    window@,
                    (Stripped {
                        out: out@,
                        cur: cur as int,
                        bytes: report.bytes_removed,
                        kinds: report.removed@,
                    }),
                    cmds.subrange(i as int, cmds.len() as int),
                ) == applied_all(window@, begin, cmds),
                report.format == format,
                report.warnings@.len() == 0,
            decreases res.cmds@.len() - i,
        {
            assert(cmds.subrange(i as int, cmds.len() as int).drop_first() =~= cmds.subrange(
                i + 1,
                cmds.len() as int,
            ));
            assert(cmds[i as int] == res.cmds@[i as int]@);
            cur = apply(window, &res.cmds[i], cur, &mut out, &mut report);
            i += 1;
        }
        proof {
            acc = applied_all(window@, begin, cmds);
        }
        let end: usize = if res.consumed < buf.len() - pos {
            pos + res.consumed
        } else {
            buf.len()
        };
        if matches!(res.demand, StripDemand::More) && end < buf.len() {
            pos = end;
        } else {
            return (out, report);
        }
    }
}

/// The planner of any format that can be stripped.
pub enum AnyStripper {
    Jpeg(JpegStripper),
    Png(PngStripper),
    Webp(WebpStripper),
}

pub enum AnyStrip {
    Jpeg(StripOptions),
    Png(StripOptions),
    Webp(StripOptions),
}

pub open spec fn any_plan(st: AnyStrip, input: Seq<u8>) -> Plan {
    match st {
        AnyStrip::Jpeg(o) => jpeg_plan(o, input),
        AnyStrip::Png(o) => png_plan(o, input),
        AnyStrip::Webp(o) => webp_plan(o, input),
    }
}

impl StripPlanner for AnyStripper {
    type State = AnyStrip;

    open spec fn state(&self) -> AnyStrip {
        match self {
            AnyStripper::Jpeg(p) => AnyStrip::Jpeg(p.state()),
            AnyStripper::Png(p) => AnyStrip::Png(p.state()),
            AnyStripper::Webp(p) => AnyStrip::Webp(p.state()),
        }
    }

    open spec fn plan(st: AnyStrip, input: Seq<u8>) -> (AnyStrip, Plan) {
        (st, any_plan(st, input))
    }

    fn pull(&mut self, input: &[u8]) -> (r: StripResult) {
        match self {
            AnyStripper::Jpeg(p) => p.pull(input),
            AnyStripper::Png(p) => p.pull(input),
            AnyStripper::Webp(p) => p.pull(input),
        }
    }
}

/// The planner for a format: only JPEG, PNG and WebP have one.
pub open spec fn strip_mode(fmt: FileFormat, opts: StripOptions) -> Result<AnyStrip, Error> {
    match fmt {
        FileFormat::Jpeg => Ok(AnyStrip::Jpeg(opts)),
        FileFormat::Png => Ok(AnyStrip::Png(opts)),
        FileFormat::Webp => Ok(AnyStrip::Webp(opts)),
        FileFormat::Unknown => Err(Error::UnrecognizedFormat),
        _ => Err(Error::Unsupported),
    }
}

/// Chooses the planner for a format.
pub fn planner_for(fmt: &FileFormat, opts: StripOptions) -> (r: Result<AnyStripper, Error>)
    ensures
        match r {
            Ok(p) => strip_mode(*fmt, opts) == Ok::<AnyStrip, Error>(p.state()),
            Err(e) => strip_mode(*fmt, opts) == Err::<AnyStrip, Error>(e),
        },
{
    match fmt {
        FileFormat::Jpeg => Ok(AnyStripper::Jpeg(JpegStripper::new(opts))),
        FileFormat::Png => Ok(AnyStripper::Png(PngStripper::new(opts))),
        FileFormat::Webp => Ok(AnyStripper::Webp(WebpStripper::new(opts))),
        FileFormat::Unknown => Err(Error::UnrecognizedFormat),
        _ => Err(Error::Unsupported),
    }
}

} // verus!
