//! The contract between parsers and drivers. A parser sees a window of bytes, tells
//! what it found and what it needs next, and never touches a source itself.
use vstd::prelude::*;

use crate::bytes::{rest_of, tail};
use crate::model::{
    ContainerTag, ContainerTagView, Field, FieldView, TextTag, TextTagView, Warning,
};

verus! {

#[derive(Debug, Clone, Copy, PartialEq, Eq, Structural)]
pub enum Demand {
    /// Goes on once the window holds this many bytes.
    NeedBytes(usize),
    /// Goes on this many bytes further.
    Skip(u64),
    /// Goes on at this offset in the file.
    SeekTo(u64),
    /// Nothing more is wanted.
    Done,
}

#[derive(Debug, Clone, Copy, PartialEq, Eq, Structural)]
pub enum PayloadKind {
    Exif,
    Xmp,
}

/// What a parser found. Payloads borrow from the window.
#[derive(Debug, Clone, PartialEq, Eq)]
pub enum Event<'a> {
    Payload { kind: PayloadKind, data: &'a [u8] },
    Field(Field),
    Warning(Warning),
    ContainerTag(ContainerTag),
    Text(TextTag),
}

pub enum EventView {
    Payload { kind: PayloadKind, data: Seq<u8> },
    Field(FieldView),
    Warning(Warning),
    ContainerTag(ContainerTagView),
    Text(TextTagView),
}

impl<'a> View for Event<'a> {
    type V = EventView;

    open spec fn view(&self) -> EventView {
        match *self {
            Event::Payload { kind, data } => EventView::Payload { kind, data: data@ },
            Event::Field(f) => EventView::Field(f@),
            Event::Warning(w) => EventView::Warning(w),
            Event::ContainerTag(t) => EventView::ContainerTag(t@),
            Event::Text(t) => EventView::Text(t@),
        }
    }
}

pub open spec fn event_views(s: Seq<Event>) -> Seq<EventView> {
    Seq::new(s.len(), |i: int| s[i]@)
}

pub broadcast proof fn event_views_push(s: Seq<Event>, e: Event)
    ensures
        #[trigger] event_views(s.push(e)) == event_views(s).push(e@),
{
    assert(event_views(s.push(e)) =~= event_views(s).push(e@));
}

/// The outcome of one pull: what is needed next, how much of the window is done with,
/// and what was found.
#[must_use]
pub struct PullResult<'a> {
    pub demand: Demand,
    pub consumed: usize,
    pub events: Vec<Event<'a>>,
}

pub struct PullView {
    pub demand: Demand,
    pub consumed: int,
    pub events: Seq<EventView>,
}

impl<'a> View for PullResult<'a> {
    type V = PullView;

    open spec fn view(&self) -> PullView {
        PullView {
            demand: self.demand,
            consumed: self.consumed as int,
            events: event_views(self.events@),
        }
    }
}

/// A parser of one format: a state machine over windows.
pub trait MetaParser: Sized {
    /// What a parser remembers between pulls.
    type State;

    open spec fn state(&self) -> Self::State {
        arbitrary()
    }

    /// The state after a pull on `input`, and the outcome of that pull.
    open spec fn step(st: Self::State, input: Seq<u8>) -> (Self::State, PullView) {
        arbitrary()
    }

    /// Advances on the window `input`. At most `input.len()` bytes are consumed.
    fn pull<'a>(&mut self, input: &'a [u8]) -> (r: PullResult<'a>)
        ensures
            (final(self).state(), r@) == Self::step(old(self).state(), input@),
            r.consumed <= input@.len(),
    ;
}

/// What the bytes at the front of a window make a parser do: go on behind `len` bytes,
/// or end the pull there.
pub enum Local<S> {
    Next { st: S, len: int, events: Seq<EventView> },
    Stop { st: S, len: int, events: Seq<EventView>, demand: Demand },
}

/// How a parser that reads one unit after the other moves on.
#[derive(Debug, Clone, Copy, PartialEq, Eq, Structural)]
pub enum Move {
    Next(usize),
    Stop(Demand, usize),
}

/// A parser that reads its window unit by unit, each unit by itself.
pub trait Walker: Sized {
    type Mode;

    spec fn mode(&self) -> Self::Mode;

    /// What the unit at the front of `rest` makes the parser do.
    spec fn local(st: Self::Mode, rest: Seq<u8>) -> Local<Self::Mode>;

    /// Reads the unit at the front of `rest`.
    fn advance<'a>(&mut self, rest: &'a [u8], events: &mut Vec<Event<'a>>) -> (m: Move)
        ensures
            match m {
                Move::Next(n) => 0 < n <= rest@.len(),
                Move::Stop(_, n) => n <= rest@.len(),
            },
            match Self::local(old(self).mode(), rest@) {
                Local::Next { st, len, events: found } => {
                    &&& m == Move::Next(len as usize)
                    &&& 0 <= len <= usize::MAX
                    &&& final(self).mode() == st
                    &&& event_views(final(events)@) == event_views(old(events)@) + found
                },
                Local::Stop { st, len, events: found, demand } => {
                    &&& m == Move::Stop(demand, len as usize)
                    &&& 0 <= len <= usize::MAX
                    &&& final(self).mode() == st
                    &&& event_views(final(events)@) == event_views(old(events)@) + found
                },
            },
    ;
}

/// The demand for a window of `n` bytes.
pub open spec fn need(n: int) -> Demand {
    Demand::NeedBytes(
        if n > usize::MAX {
            usize::MAX
        } else {
            n as usize
        },
    )
}

/// The demand for a window that holds `extra` bytes behind the first `n`.
pub fn need_bytes(n: usize, extra: usize) -> (r: Demand)
    ensures
        r == need(n + extra),
{
    Demand::NeedBytes(n.saturating_add(extra))
}

/// The events that give a width and a height.
pub open spec fn dims(w: u32, h: u32) -> Seq<EventView> {
    seq![EventView::Field(FieldView::Width(w)), EventView::Field(FieldView::Height(h))]
}

pub fn push_dims<'a>(events: &mut Vec<Event<'a>>, w: u32, h: u32)
    ensures
        event_views(final(events)@) == event_views(old(events)@) + dims(w, h),
{
    broadcast use event_views_push;

    let ghost before = event_views(events@);
    events.push(Event::Field(Field::Width(w)));
    events.push(Event::Field(Field::Height(h)));
    assert(event_views(events@) =~= before + dims(w, h));
}

/// Adds one event.
pub fn push_event<'a>(events: &mut Vec<Event<'a>>, e: Event<'a>)
    ensures
        event_views(final(events)@) == event_views(old(events)@) + seq![e@],
{
    broadcast use event_views_push;

    let ghost before = event_views(events@);
    events.push(e);
    assert(event_views(events@) =~= before + seq![e@]);
}

/// The outcome of reading units from `pos` on until one ends the pull.
pub open spec fn walk<W: Walker>(
    st: W::Mode,
    input: Seq<u8>,
    pos: int,
    events: Seq<EventView>,
) -> (W::Mode, PullView)
    decreases input.len() - pos,
{
    match W::local(st, tail(input, pos)) {
        Local::Next { st: next, len, events: found } => if 0 < len <= input.len() - pos {
            walk::<W>(next, input, pos + len, events + found)
        } else {
            (next, PullView { demand: Demand::Done, consumed: pos, events: events + found })
        },
        Local::Stop { st: next, len, events: found, demand } => (
            next,
            PullView { demand, consumed: pos + len, events: events + found },
        ),
    }
}

/// Pulls by reading unit after unit.
pub fn pull_units<'a, W: Walker>(w: &mut W, input: &'a [u8]) -> (r: PullResult<'a>)
    ensures
        (final(w).mode(), r@) == walk::<W>(old(w).mode(), input@, 0, seq![]),
        r.consumed <= input@.len(),
{
    let mut events: Vec<Event<'a>> = Vec::new();
    let mut pos: usize = 0;
    assert(event_views(events@) =~= seq![]);
    let ghost entry = w.mode();
    loop
        invariant
            pos <= input.len(),
            entry == old(w).mode(),
            walk::<W>(w.mode(), input@, pos as int, event_views(events@)) == walk::<W>(
                entry,
                input@,
                0,
                seq![],
            ),
        decreases input@.len() - pos,
    {
        match w.advance(rest_of(input, pos), &mut events) {
            Move::Next(n) => {
                pos += n;
            },
            Move::Stop(demand, n) => {
                return PullResult { demand, consumed: pos + n, events };
            },
        }
    }
}

} // verus!
