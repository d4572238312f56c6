//! Drivers: they hand windows of a source to a parser, follow its demands and collect what
//! it finds. One runs over a whole buffer, one over a stream that arrives in pieces.
use vstd::prelude::*;

use crate::bytes::{put, rest_of, sat64, tail};
use crate::codecs::exif::decoded as exif_decoded;
use crate::codecs::xmp::decoded as xmp_decoded;
use crate::demand::{event_views, Demand, Event, EventView, MetaParser, PayloadKind, PullView};
use crate::limits::Limits;
use crate::model::{
    container_views, exif_views, group_views, no_structural, opt_text, text_views, xmp_views,
    ContainerTag, ContainerTagView, DateTimeParts, ExifTag, ExifTagView, Field, FieldView,
    FileFormat, Gps, Metadata, MetadataView, RawTags, RawView, StructuralFields, StructuralView,
    TextTag, TextTagView, WarnKind, Warning, XmpProperty, XmpView,
};
use crate::normalize::{normalize, or, unified, value_warnings};

verus! {

/// What has been found so far. Of each field the first value counts.
#[derive(Debug)]
pub struct Collector {
    pub exif: Vec<ExifTag>,
    pub xmp: Vec<XmpProperty>,
    pub warnings: Vec<Warning>,
    pub width: Option<u32>,
    pub height: Option<u32>,
    pub duration_ms: Option<u64>,
    pub created: Option<DateTimeParts>,
    pub gps: Option<Gps>,
    pub camera_make: Option<String>,
    pub camera_model: Option<String>,
    pub container: Vec<ContainerTag>,
    pub text: Vec<TextTag>,
    pub limits: Limits,
}

#[verifier::ext_equal]
pub struct CollectorView {
    pub exif: Seq<ExifTagView>,
    pub xmp: Seq<XmpView>,
    pub warnings: Seq<Warning>,
    pub structural: StructuralView,
    pub container: Seq<ContainerTagView>,
    pub text: Seq<TextTagView>,
    pub limits: Limits,
}

impl View for Collector {
    type V = CollectorView;

    open spec fn view(&self) -> CollectorView {
        CollectorView {
            exif: exif_views(self.exif@),
            xmp: xmp_views(self.xmp@),
            warnings: self.warnings@,
            structural: StructuralView {
                width: self.width,
                height: self.height,
                duration_ms: self.duration_ms,
                created: self.created,
                gps: self.gps,
                camera_make: opt_text(self.camera_make),
                camera_model: opt_text(self.camera_model),
            },
            container: container_views(self.container@),
            text: text_views(self.text@),
            limits: self.limits,
        }
    }
}

/// Nothing found yet.
pub open spec fn nothing(limits: Limits) -> CollectorView {
    CollectorView {
        exif: seq![],
        xmp: seq![],
        warnings: seq![],
        structural: no_structural(),
        container: seq![],
        text: seq![],
        limits,
    }
}

/// The structural fields with `f` filled in where it is still open.
pub open spec fn with_field(s: StructuralView, f: FieldView) -> StructuralView {
    match f {
        FieldView::Width(w) => StructuralView { width: or(s.width, Some(w)), ..s },
        FieldView::Height(h) => StructuralView { height: or(s.height, Some(h)), ..s },
        FieldView::Duration(d) => StructuralView { duration_ms: or(s.duration_ms, Some(d)), ..s },
        FieldView::Created(t) => StructuralView { created: or(s.created, Some(t)), ..s },
        FieldView::Gps(g) => StructuralView { gps: or(s.gps, Some(g)), ..s },
        FieldView::CameraMake(m) => StructuralView { camera_make: or(s.camera_make, Some(m)), ..s },
        FieldView::CameraModel(m) => StructuralView {
            camera_model: or(s.camera_model, Some(m)),
            ..s
        },
    }
}

/// `s` with `x` behind it, where that stays within `max`.
pub open spec fn capped<T>(s: Seq<T>, x: T, max: usize) -> Seq<T> {
    if s.len() < max {
        s.push(x)
    } else {
        s
    }
}

/// What is found after the event `e`.
#[verifier::opaque]
pub open spec fn handled(c: CollectorView, e: EventView) -> CollectorView {
    match e {
        EventView::Payload { kind: PayloadKind::Exif, data } => {
            let (exif, warnings) = exif_decoded(data, c.exif, c.warnings, c.limits);
            CollectorView { exif, warnings, ..c }
        },
        EventView::Payload { kind: PayloadKind::Xmp, data } => {
            let (xmp, warnings) = xmp_decoded(data, c.xmp, c.warnings, c.limits);
            CollectorView { xmp, warnings, ..c }
        },
        EventView::Field(f) => CollectorView { structural: with_field(c.structural, f), ..c },
        EventView::Warning(w) => CollectorView { warnings: c.warnings.push(w), ..c },
        EventView::ContainerTag(t) => CollectorView {
            container: capped(c.container, t, c.limits.max_tags),
            ..c
        },
        EventView::Text(t) => CollectorView { text: capped(c.text, t, c.limits.max_tags), ..c },
    }
}

/// What is found after all of `es`.
pub open spec fn handled_all(c: CollectorView, es: Seq<EventView>) -> CollectorView
    decreases es.len(),
{
    if es.len() == 0 {
        c
    } else {
        handled(handled_all(c, es.drop_last()), es.last())
    }
}

pub open spec fn warned(c: CollectorView, offset: u64, kind: WarnKind) -> CollectorView {
    CollectorView { warnings: c.warnings.push(Warning { offset, kind }), ..c }
}

impl Collector {
    pub fn new(limits: Limits) -> (r: Self)
        ensures
            r@ == nothing(limits),
    {
        let r = Collector {
            exif: Vec::new(),
            xmp: Vec::new(),
            warnings: Vec::new(),
            width: None,
            height: None,
            duration_ms: None,
            created: None,
            gps: None,
            camera_make: None,
            camera_model: None,
            container: Vec::new(),
            text: Vec::new(),
            limits,
        };
        assert(r@ =~= nothing(limits));
        r
    }

    /// Takes in one event.
    pub fn handle(&mut self, ev: Event<'_>)
        ensures
            final(self)@ == handled(old(self)@, ev@),
    {
        broadcast use group_views;

        reveal(handled);
        match ev {
            Event::Payload { kind, data } => match kind {
                PayloadKind::Exif => {
                    crate::codecs::exif::decode(
                        data,
                        &mut self.exif,
                        &mut self.warnings,
                        &self.limits,
                    );
                },
                PayloadKind::Xmp => {
                    crate::codecs::xmp::decode(
                        data,
                        &mut self.xmp,
                        &mut self.warnings,
                        &self.limits,
                    );
                },
            },
            Event::Warning(w) => {
                self.warnings.push(w);
            },
            Event::ContainerTag(t) => {
                if self.container.len() < self.limits.max_tags {
                    self.container.push(t);
                }
            },
            Event::Text(t) => {
                if self.text.len() < self.limits.max_tags {
                    self.text.push(t);
                }
            },
            Event::Field(f) => {
                self.fill(f);
            },
        }
        assert(self@ =~= handled(old(self)@, ev@));
    }

    fn fill(&mut self, f: Field)
        ensures
            final(self)@ == (CollectorView {
                structural: with_field(old(self)@.structural, f@),
                ..old(self)@
            }),
    {
        match f {
            Field::Width(w) => {
                if self.width.is_none() {
                    self.width = Some(w);
                }
            },
            Field::Height(h) => {
                if self.height.is_none() {
                    self.height = Some(h);
                }
            },
            Field::Duration(d) => {
                if self.duration_ms.is_none() {
                    self.duration_ms = Some(d);
                }
            },
            Field::Created(t) => {
                if self.created.is_none() {
                    self.created = Some(t);
                }
            },
            Field::Gps(g) => {
                if self.gps.is_none() {
                    self.gps = Some(g);
                }
            },
            Field::CameraMake(s) => {
                if self.camera_make.is_none() {
                    self.camera_make = Some(s);
                }
            },
            Field::CameraModel(s) => {
                if self.camera_model.is_none() {
                    self.camera_model = Some(s);
                }
            },
        }
    }

    fn handle_all(&mut self, events: Vec<Event<'_>>)
        ensures
            final(self)@ == handled_all(old(self)@, event_views(events@)),
    {
        let ghost start = self@;
        let ghost all = event_views(events@);
        for ev in it: events
            invariant
                it.seq() == events@,
                start == old(self)@,
                all == event_views(events@),
                self@ == handled_all(start, all.take(it.index() as int)),
        {
            let ghost i = it.index() as int;
            assert(ev@ == all[i]);
            assert(all.take(i + 1).drop_last() =~= all.take(i));
            self.handle(ev);
        }
        assert(all.take(all.len() as int) =~= all);
    }

    fn warn(&mut self, offset: u64, kind: WarnKind)
        ensures
            final(self)@ == warned(old(self)@, offset, kind),
    {
        self.warnings.push(Warning { offset, kind });
    }
}

/// The raw tags of what was found.
pub open spec fn raw_of(c: CollectorView) -> RawView {
    RawView {
        exif: c.exif,
        xmp: c.xmp,
        xmp_sidecar: seq![],
        container: c.container,
        text: c.text,
    }
}

/// The metadata of what was found in a file of the given format.
pub open spec fn finalized(c: CollectorView, format: FileFormat) -> MetadataView {
    MetadataView {
        unified: unified(raw_of(c), c.structural),
        raw: raw_of(c),
        warnings: c.warnings + value_warnings(raw_of(c)),
        format,
        structural: c.structural,
    }
}

/// Derives the unified fields and puts the metadata together.
pub fn finalize(col: Collector, format: FileFormat) -> (r: Metadata)
    ensures
        r@ == finalized(col@, format),
{
    let ghost c = col@;
    let raw = RawTags {
        exif: col.exif,
        xmp: col.xmp,
        xmp_sidecar: Vec::new(),
        container: col.container,
        text: col.text,
    };
    let structural = StructuralFields {
        width: col.width,
        height: col.height,
        duration_ms: col.duration_ms,
        created: col.created,
        gps: col.gps,
        camera_make: col.camera_make,
        camera_model: col.camera_model,
    };
    assert(raw@.xmp_sidecar =~= seq![]);
    assert(raw@ == raw_of(c));
    let mut warnings = col.warnings;
    let unified = normalize(&raw, &structural, &mut warnings);
    Metadata { unified, raw, warnings, format, structural }
}

/// How many pulls a buffer of `len` bytes is worth at most.
pub open spec fn pull_budget(len: int) -> nat {
    if len * 2 + 1024 > usize::MAX {
        usize::MAX as nat
    } else {
        (len * 2 + 1024) as nat
    }
}

/// How a driver over a whole buffer goes on after a pull: at another position, or not.
pub enum SliceMove {
    To(int),
    End(CollectorView),
}

/// The move to `target` from `pos`. The position it stands at and all behind the end are
/// out of reach.
pub open spec fn slice_jump(len: int, pos: int, target: u64, col: CollectorView) -> SliceMove {
    if target > len || target == pos {
        SliceMove::End(warned(col, target, WarnKind::Truncated))
    } else {
        SliceMove::To(target as int)
    }
}

/// The move after a pull at `pos` in a buffer of `len` bytes.
pub open spec fn slice_move(len: int, pos: int, r: PullView, col: CollectorView) -> SliceMove {
    let stuck = pos + r.consumed;
    match r.demand {
        Demand::Done => SliceMove::End(col),
        Demand::NeedBytes(n) => if len - stuck >= n && stuck > pos {
            SliceMove::To(stuck)
        } else {
            SliceMove::End(warned(col, sat64(stuck), WarnKind::Truncated))
        },
        Demand::Skip(n) => slice_jump(len, pos, sat64(stuck + n), col),
        Demand::SeekTo(p) => slice_jump(len, pos, p, col),
    }
}

/// What a driver over all of `buf` has found in the end, from the position `pos` on, with
/// `left` pulls left. A parser that does not get ahead is stopped.
pub open spec fn slice_run<P: MetaParser>(
    buf: Seq<u8>,
    st: P::State,
    pos: int,
    col: CollectorView,
    left: nat,
) -> CollectorView
    decreases left,
{
    if left == 0 {
        warned(col, sat64(pos), WarnKind::UnreachableSection)
    } else {
        let (next, r) = P::step(st, tail(buf, pos));
        let found = handled_all(col, r.events);
        match slice_move(buf.len() as int, pos, r, found) {
            SliceMove::End(c) => c,
            SliceMove::To(p) => slice_run::<P>(buf, next, p, found, (left - 1) as nat),
        }
    }
}

/// The state that the pulls of such a driver leave the parser in: after the pull that ends
/// the run there is no other.
pub open spec fn slice_end<P: MetaParser>(
    buf: Seq<u8>,
    st: P::State,
    pos: int,
    col: CollectorView,
    left: nat,
) -> P::State
    decreases left,
{
    if left == 0 {
        st
    } else {
        let (next, r) = P::step(st, tail(buf, pos));
        let found = handled_all(col, r.events);
        match slice_move(buf.len() as int, pos, r, found) {
            SliceMove::End(_) => next,
            SliceMove::To(p) => slice_end::<P>(buf, next, p, found, (left - 1) as nat),
        }
    }
}

/// Runs a parser over a whole buffer. It ends with any parser, whatever that demands.
pub fn drive_slice<P: MetaParser>(buf: &[u8], parser: &mut P, limits: Limits) -> (r: Collector)
    ensures
        final(parser).state() == slice_end::<P>(
            buf@,
            old(parser).state(),
            0,
            nothing(limits),
            pull_budget(buf@.len() as int),
        ),
        r@ == slice_run::<P>(
            buf@,
            old(parser).state(),
            0,
            nothing(limits),
            pull_budget(buf@.len() as int),
        ),
{
    let mut col = Collector::new(limits);
    let mut pos: usize = 0;
    let n: usize = buf.len();
    let mut left: usize = n.saturating_add(n).saturating_add(1024);
    assert(left == pull_budget(buf@.len() as int));
    let ghost goal = slice_run::<P>(
        buf@,
        parser.state(),
        0,
        nothing(limits),
        pull_budget(buf@.len() as int),
    );
    let ghost rest = slice_end::<P>(
        buf@,
        parser.state(),
        0,
        nothing(limits),
        pull_budget(buf@.len() as int),
    );
    loop
        invariant
            pos <= buf.len(),
            rest == slice_end::<P>(
                buf@,
                old(parser).state(),
                0,
                nothing(limits),
                pull_budget(buf@.len() as int),
            ),
            slice_end::<P>(buf@, parser.state(), pos as int, col@, left as nat) == rest,
            goal == slice_run::<P>(
                buf@,
                old(parser).state(),
                0,
                nothing(limits),
                pull_budget(buf@.len() as int),
            ),
            slice_run::<P>(buf@, parser.state(), pos as int, col@, left as nat) == goal,
        decreases left,
    {
        if left == 0 {
            col.warn(pos as u64, WarnKind::UnreachableSection);
            return col;
        }
        left -= 1;
        let res = parser.pull(rest_of(buf, pos));
        let ghost events = event_views(res.events@);
        let stuck: usize = pos + res.consumed;
        let demand = res.demand;
        col.handle_all(res.events);
        let target: u64 = match demand {
            Demand::Done => {
                return col;
            },
            Demand::NeedBytes(n) => {
                if buf.len() - stuck >= n && stuck > pos {
                    stuck as u64
                } else {
                    col.warn(stuck as u64, WarnKind::Truncated);
                    return col;
                }
            },
            Demand::Skip(n) => (stuck as u64).saturating_add(n),
            Demand::SeekTo(p) => p,
        };
        if target > buf.len() as u64 || target == pos as u64 {
            col.warn(target, WarnKind::Truncated);
            return col;
        }
        pos = target as usize;
    }
}

/// What a stream driver wants next.
#[derive(Debug, Clone, Copy, PartialEq, Eq, Structural)]
pub enum Outcome {
    /// At least so many more bytes.
    Need(usize),
    /// The next bytes, so many, are of no use: a source that can skip them may, and then
    /// says so; else they are fed as all others.
    SkipHint(u64),
    Done,
}

/// A driver over a stream. It holds back only what the parser may still ask for.
#[derive(Debug)]
pub struct StreamDriver<P: MetaParser> {
    buf: Vec<u8>,
    cursor: usize,
    parser: P,
    collector: Collector,
    skip_remaining: u64,
    pos_base: u64,
    done: bool,
    eof: bool,
    max_retained: usize,
}

pub struct StreamView<S> {
    /// The bytes held back.
    pub buf: Seq<u8>,
    /// How many of them the parser has done with.
    pub cursor: int,
    pub st: S,
    pub col: CollectorView,
    /// How many bytes are to be passed over.
    pub skip: u64,
    /// Where in the file the bytes held back start.
    pub base: u64,
    pub done: bool,
    pub eof: bool,
    pub max_retained: usize,
}

impl<S> StreamView<S> {
    /// Where in the file the parser stands.
    pub open spec fn at(self) -> u64 {
        sat64(self.base + self.cursor)
    }

    /// The bytes that the parser is shown.
    pub open spec fn window(self) -> Seq<u8> {
        tail(self.buf, self.cursor)
    }

    /// Lets go of what the parser has done with.
    pub open spec fn dropped(self) -> StreamView<S> {
        StreamView { buf: self.window(), base: self.at(), cursor: 0, ..self }
    }

    pub open spec fn ended(self) -> StreamView<S> {
        StreamView { done: true, ..self }
    }

    pub open spec fn warned(self, offset: u64, kind: WarnKind) -> StreamView<S> {
        StreamView { col: warned(self.col, offset, kind), ..self }
    }

    /// Passes over what is to be skipped, as far as it is there.
    pub open spec fn skipped(self) -> StreamView<S> {
        let avail = self.buf.len() - self.cursor;
        let take = if avail < self.skip {
            avail
        } else {
            self.skip as int
        };
        StreamView { cursor: self.cursor + take, skip: (self.skip - take) as u64, ..self }.dropped()
    }

    /// Takes in the outcome of a pull.
    pub open spec fn pulled(self, next: S, r: PullView) -> StreamView<S> {
        StreamView {
            st: next,
            col: handled_all(self.col, r.events),
            cursor: self.cursor + r.consumed,
            ..self
        }
    }
}

/// The driver at the start of a stream.
pub open spec fn stream_start<S>(st: S, limits: Limits) -> StreamView<S> {
    StreamView {
        buf: seq![],
        cursor: 0,
        st,
        col: nothing(limits),
        skip: 0,
        base: 0,
        done: false,
        eof: false,
        max_retained: limits.max_retained_bytes,
    }
}

/// What follows a pull: the driver ends or waits, or goes on where the outcome is none.
pub open spec fn followed<S>(s: StreamView<S>, r: PullView) -> (StreamView<S>, Option<Outcome>) {
    let d = s.dropped();
    match r.demand {
        Demand::Done => (d.ended(), Some(Outcome::Done)),
        Demand::NeedBytes(n) => {
            let avail = d.buf.len();
            if avail >= n && r.consumed > 0 {
                (d, None)
            } else if avail >= n || s.eof {
                (d.warned(d.at(), WarnKind::Truncated).ended(), Some(Outcome::Done))
            } else {
                (d, Some(Outcome::Need((n - avail) as usize)))
            }
        },
        Demand::Skip(k) => if k == 0 && r.consumed == 0 {
            (
                StreamView { skip: 0, ..d }.warned(d.at(), WarnKind::Truncated).ended(),
                Some(Outcome::Done),
            )
        } else {
            (StreamView { skip: k, ..d }, None)
        },
        Demand::SeekTo(p) => if p >= s.at() {
            let on = StreamView { skip: (p - s.at()) as u64, ..d };
            if p == s.at() && r.consumed == 0 {
                (on.warned(p, WarnKind::Truncated).ended(), Some(Outcome::Done))
            } else {
                (on, None)
            }
        } else if p >= s.base {
            (StreamView { cursor: p - s.base, ..s }, None)
        } else {
            (s.warned(p, WarnKind::UnreachableSection).ended(), Some(Outcome::Done))
        },
    }
}

/// What comes before a pull: the driver ends or waits, or pulls where the outcome is none.
pub open spec fn prepared<S>(s: StreamView<S>) -> (StreamView<S>, Option<Outcome>) {
    let t = if s.skip > 0 {
        s.skipped()
    } else {
        s
    };
    if t.skip > 0 {
        if t.eof {
            (
                t.warned(sat64(t.at() + t.skip), WarnKind::Truncated).ended(),
                Some(Outcome::Done),
            )
        } else {
            (t, Some(Outcome::SkipHint(t.skip)))
        }
    } else if t.buf.len() - t.cursor > t.max_retained {
        (t.warned(t.at(), WarnKind::UnreachableSection).ended(), Some(Outcome::Done))
    } else if t.buf.len() == t.cursor && !t.eof {
        (t, Some(Outcome::Need(1)))
    } else {
        (t, None)
    }
}

/// The driver after it went on as far as the bytes reach, with `left` rounds left.
pub open spec fn rounds<P: MetaParser>(s: StreamView<P::State>, left: nat) -> (
    StreamView<P::State>,
    Outcome,
)
    decreases left,
{
    if left == 0 {
        (s.warned(s.at(), WarnKind::UnreachableSection).ended(), Outcome::Done)
    } else {
        match prepared(s) {
            (t, Some(o)) => (t, o),
            (t, None) => {
                let (next, r) = P::step(t.st, t.window());
                match followed(t.pulled(next, r), r) {
                    (u, Some(o)) => (u, o),
                    (u, None) => rounds::<P>(u, (left - 1) as nat),
                }
            },
        }
    }
}

/// The driver after it went on as far as the bytes reach.
pub open spec fn driven<P: MetaParser>(s: StreamView<P::State>) -> (
    StreamView<P::State>,
    Outcome,
) {
    if s.done {
        (s, Outcome::Done)
    } else {
        rounds::<P>(s, pull_budget(s.buf.len() as int))
    }
}

/// The driver after it was fed `chunk`.
pub open spec fn fed<P: MetaParser>(s: StreamView<P::State>, chunk: Seq<u8>) -> (
    StreamView<P::State>,
    Outcome,
) {
    driven::<P>(StreamView { buf: s.buf + chunk, ..s })
}

/// The driver after the source passed over `n` bytes by itself.
pub open spec fn passed<S>(s: StreamView<S>, n: u64) -> StreamView<S> {
    let take = if n < s.skip {
        n
    } else {
        s.skip
    };
    StreamView { skip: (s.skip - take) as u64, base: sat64(s.base + take), ..s }
}

/// What the driver has found once the source has ended.
pub open spec fn finished<P: MetaParser>(s: StreamView<P::State>) -> CollectorView {
    driven::<P>(StreamView { eof: true, ..s }).0.col
}

impl<P: MetaParser> View for StreamDriver<P> {
    type V = StreamView<P::State>;

    closed spec fn view(&self) -> StreamView<P::State> {
        StreamView {
            buf: self.buf@,
            cursor: self.cursor as int,
            st: self.parser.state(),
            col: self.collector@,
            skip: self.skip_remaining,
            base: self.pos_base,
            done: self.done,
            eof: self.eof,
            max_retained: self.max_retained,
        }
    }
}

impl<P: MetaParser> StreamDriver<P> {
    /// The parser never gets ahead of the bytes.
    pub closed spec fn wf(&self) -> bool {
        self.cursor <= self.buf.len()
    }

    pub fn new(parser: P, limits: Limits) -> (r: Self)
        ensures
            r.wf(),
            r@ == stream_start(parser.state(), limits),
    {
        StreamDriver {
            buf: Vec::new(),
            cursor: 0,
            parser,
            collector: Collector::new(limits),
            skip_remaining: 0,
            pos_base: 0,
            done: false,
            eof: false,
            max_retained: limits.max_retained_bytes,
        }
    }

    /// Takes in a piece of the stream, which may be empty, and goes on.
    pub fn feed(&mut self, chunk: &[u8]) -> (o: Outcome)
        requires
            old(self).wf(),
        ensures
            final(self).wf(),
            (final(self)@, o) == fed::<P>(old(self)@, chunk@),
    {
        put(&mut self.buf, chunk);
        self.drive()
    }

    /// The source has passed over `n` bytes by itself.
    pub fn skip_external(&mut self, n: u64)
        requires
            old(self).wf(),
        ensures
            final(self).wf(),
            final(self)@ == passed(old(self)@, n),
    {
        let take: u64 = if n < self.skip_remaining {
            n
        } else {
            self.skip_remaining
        };
        self.skip_remaining -= take;
        self.pos_base = self.pos_base.saturating_add(take);
    }

    /// The source has ended: gives back what was found.
    pub fn finish(self) -> (r: Collector)
        requires
            self.wf(),
        ensures
            r@ == finished::<P>(self@),
    {
        let mut d = self;
        d.eof = true;
        let _ = d.drive();
        d.collector
    }

    /// Lets go of what the parser has done with.
    fn drop_consumed(&mut self)
        requires
            old(self).wf(),
        ensures
            final(self).wf(),
            final(self)@ == old(self)@.dropped(),
    {
        if self.cursor > 0 {
            let mut kept: Vec<u8> = Vec::new();
            put(&mut kept, rest_of(self.buf.as_slice(), self.cursor));
            assert(kept@ =~= tail(self.buf@, self.cursor as int));
            self.buf = kept;
            self.pos_base = self.pos_base.saturating_add(self.cursor as u64);
            self.cursor = 0;
        }
        assert(self.buf@ =~= old(self)@.window());
    }

    fn position(&self) -> (r: u64)
        requires
            self.wf(),
        ensures
            r == self@.at(),
    {
        self.pos_base.saturating_add(self.cursor as u64)
    }

    fn end(&mut self) -> (o: Outcome)
        requires
            old(self).wf(),
        ensures
            final(self).wf(),
            final(self)@ == old(self)@.ended(),
            o == Outcome::Done,
    {
        self.done = true;
        Outcome::Done
    }

    /// Gets ready for a pull.
    fn prepare(&mut self) -> (r: Option<Outcome>)
        requires
            old(self).wf(),
        ensures
            final(self).wf(),
            (final(self)@, r) == prepared(old(self)@),
    {
        if self.skip_remaining > 0 {
            let avail: usize = self.buf.len() - self.cursor;
            if (avail as u64) < self.skip_remaining {
                self.cursor = self.buf.len();
                self.skip_remaining -= avail as u64;
            } else {
                self.cursor += self.skip_remaining as usize;
                self.skip_remaining = 0;
            }
            self.drop_consumed();
            if self.skip_remaining > 0 {
                if self.eof {
                    let at: u64 = self.position().saturating_add(self.skip_remaining);
                    self.collector.warn(at, WarnKind::Truncated);
                    return Some(self.end());
                }
                return Some(Outcome::SkipHint(self.skip_remaining));
            }
        }
        if self.buf.len() - self.cursor > self.max_retained {
            let at: u64 = self.position();
            self.collector.warn(at, WarnKind::UnreachableSection);
            return Some(self.end());
        }
        if self.buf.len() == self.cursor && !self.eof {
            return Some(Outcome::Need(1));
        }
        None
    }

    /// Follows the demand of a pull that consumed `consumed` bytes.
    fn follow(&mut self, demand: Demand, consumed: usize) -> (r: Option<Outcome>)
        requires
            old(self).wf(),
        ensures
            final(self).wf(),
            forall|events: Seq<EventView>| #[trigger]
                followed(
                    old(self)@,
                    PullView { demand, consumed: consumed as int, events },
                ) == (final(self)@, r),
    {
        match demand {
            Demand::Done => {
                self.drop_consumed();
                Some(self.end())
            },
            Demand::NeedBytes(n) => {
                self.drop_consumed();
                let avail: usize = self.buf.len();
                if avail >= n && consumed > 0 {
                    return None;
                }
                if avail >= n || self.eof {
                    let at: u64 = self.position();
                    self.collector.warn(at, WarnKind::Truncated);
                    return Some(self.end());
                }
                Some(Outcome::Need(n - avail))
            },
            Demand::Skip(k) => {
                self.drop_consumed();
                self.skip_remaining = k;
                if k == 0 && consumed == 0 {
                    let at: u64 = self.position();
                    self.collector.warn(at, WarnKind::Truncated);
                    return Some(self.end());
                }
                None
            },
            Demand::SeekTo(p) => {
                let at: u64 = self.position();
                if p >= at {
                    self.skip_remaining = p - at;
                    self.drop_consumed();
                    if p == at && consumed == 0 {
                        self.collector.warn(at, WarnKind::Truncated);
                        return Some(self.end());
                    }
                    None
                } else if p >= self.pos_base {
                    self.cursor = (p - self.pos_base) as usize;
                    None
                } else {
                    self.collector.warn(p, WarnKind::UnreachableSection);
                    Some(self.end())
                }
            },
        }
    }

    /// Shows the parser the window.
    fn pull(&mut self) -> (r: (Demand, usize))
        requires
            old(self).wf(),
        ensures
            final(self).wf(),
            ({
                let (next, p) = P::step(old(self)@.st, old(self)@.window());
                &&& final(self)@ == old(self)@.pulled(next, p)
                &&& r.0 == p.demand
                &&& r.1 == p.consumed
            }),
    {
        let res = self.parser.pull(rest_of(self.buf.as_slice(), self.cursor));
        let demand = res.demand;
        let consumed: usize = res.consumed;
        self.collector.handle_all(res.events);
        self.cursor += consumed;
        (demand, consumed)
    }

    /// Goes on as far as the bytes reach.
    pub(crate) fn drive(&mut self) -> (o: Outcome)
        requires
            old(self).wf(),
        ensures
            final(self).wf(),
            (final(self)@, o) == driven::<P>(old(self)@),
    {
        if self.done {
            return Outcome::Done;
        }
        let n: usize = self.buf.len();
        let mut left: usize = n.saturating_add(n).saturating_add(1024);
        let ghost goal = driven::<P>(self@);
        assert(left == pull_budget(self.buf@.len() as int));
        loop
            invariant
                self.wf(),
                goal == driven::<P>(old(self)@),
                rounds::<P>(self@, left as nat) == goal,
            decreases left,
        {
            if left == 0 {
                let at: u64 = self.position();
                self.collector.warn(at, WarnKind::UnreachableSection);
                return self.end();
            }
            left -= 1;
            match self.prepare() {
                Some(o) => {
                    return o;
                },
                None => {},
            }
            let ghost before = self@;
            let (demand, consumed) = self.pull();
            let ghost p = P::step(before.st, before.window()).1;
            assert(p == PullView { demand, consumed: consumed as int, events: p.events });
            match self.follow(demand, consumed) {
                Some(o) => {
                    return o;
                },
                None => {},
            }
        }
    }
}

} // verus!
