//! ISO base media files. The boxes at the top of the file are skipped up to the first
//! `meta` or `moov` box; payloads that lie elsewhere are then fetched one by one.
use vstd::prelude::*;

use crate::bytes::{be32, lit, part, read_be32, sat64};
use crate::containers::isobmff::{box_header, children, read_box_header};
use crate::demand::{
    dims, event_views, need, pull_units, push_dims, push_event, walk, Demand, Event, EventView,
    Local, MetaParser, Move, PayloadKind, PullResult, PullView, Walker,
};
use crate::formats::items::{
    inline_views, item_payload, meta, parse_meta, read_item_payload, PlanView, Target,
};
use crate::formats::movie::{moov, parse_moov, MoovInfo, MoovView};
use crate::limits::Limits;
use crate::model::{container_views, ContainerTag, ContainerTagView, Field, FieldView, Gps, Warning};

verus! {

/// What the parser is at.
pub enum BmffMode {
    /// At the box that stands at `at` in the file.
    Walk { at: u64, max_tags: usize },
    /// At the first of these payloads.
    Extract { targets: Seq<Target>, max_tags: usize },
    Done { max_tags: usize },
}

#[derive(Debug)]
enum Phase {
    Walk,
    Extract,
    Done,
}

#[derive(Debug)]
pub struct BmffParser {
    phase: Phase,
    at: u64,
    targets: Vec<Target>,
    max_tags: usize,
}

pub open spec fn finish(max_tags: usize, len: int, events: Seq<EventView>) -> Local<BmffMode> {
    Local::Stop { st: BmffMode::Done { max_tags }, len, events, demand: Demand::Done }
}

/// How many bytes the header at the front of `b` has at least.
pub open spec fn header_need(b: Seq<u8>) -> int {
    if b.len() >= 4 && be32(b, 0) == 1 {
        16
    } else {
        8
    }
}

pub open spec fn opt_dims(d: Option<(u32, u32)>) -> Seq<EventView> {
    match d {
        Some((w, h)) => dims(w, h),
        None => seq![],
    }
}

pub open spec fn opt_field(f: Option<FieldView>) -> Seq<EventView> {
    match f {
        Some(f) => seq![EventView::Field(f)],
        None => seq![],
    }
}

pub open spec fn warning_events(ws: Seq<Warning>) -> Seq<EventView> {
    Seq::new(ws.len(), |i: int| EventView::Warning(ws[i]))
}

/// The first `max` of the tags.
pub open spec fn tag_events(ts: Seq<ContainerTagView>, max: usize) -> Seq<EventView> {
    Seq::new(
        if ts.len() < max {
            ts.len()
        } else {
            max as nat
        },
        |i: int| EventView::ContainerTag(ts[i]),
    )
}

pub open spec fn payload_events(ps: Seq<(PayloadKind, Seq<u8>)>) -> Seq<EventView> {
    Seq::new(ps.len(), |i: int| EventView::Payload { kind: ps[i].0, data: ps[i].1 })
}

pub open spec fn moov_events(m: MoovView, max_tags: usize) -> Seq<EventView> {
    opt_dims(m.dims) + opt_field(
        match m.duration_ms {
            Some(d) => Some(FieldView::Duration(d)),
            None => None,
        },
    ) + opt_field(
        match m.created {
            Some(c) => Some(FieldView::Created(c)),
            None => None,
        },
    ) + opt_field(
        match m.gps() {
            Some(g) => Some(FieldView::Gps(g)),
            None => None,
        },
    ) + tag_events(m.tags, max_tags) + warning_events(m.warnings)
}

pub open spec fn meta_events(m: PlanView) -> Seq<EventView> {
    opt_dims(m.dims) + payload_events(m.inline) + warning_events(m.warnings)
}

/// The payloads still to go for, the first of them next.
pub open spec fn fetch(
    targets: Seq<Target>,
    max_tags: usize,
    len: int,
    events: Seq<EventView>,
) -> Local<BmffMode> {
    if targets.len() == 0 {
        finish(max_tags, len, events)
    } else {
        Local::Stop {
            st: BmffMode::Extract { targets, max_tags },
            len,
            events,
            demand: Demand::SeekTo(targets[0].offset),
        }
    }
}

/// What stands at the front of `b`. An empty window is the end of the file.
pub open spec fn bmff_local(st: BmffMode, b: Seq<u8>) -> Local<BmffMode> {
    match st {
        BmffMode::Done { max_tags } => finish(max_tags, 0, seq![]),
        BmffMode::Extract { targets, max_tags } => {
            let t = targets[0];
            if targets.len() == 0 || t.length > usize::MAX {
                finish(max_tags, 0, seq![])
            } else if b.len() < t.length {
                Local::Stop { st, len: 0, events: seq![], demand: need(t.length as int) }
            } else {
                fetch(
                    targets.drop_first(),
                    max_tags,
                    t.length as int,
                    seq![
                        EventView::Payload {
                            kind: t.kind,
                            data: item_payload(t.kind, b.subrange(0, t.length as int)),
                        },
                    ],
                )
            }
        },
        BmffMode::Walk { at, max_tags } => if b.len() == 0 {
            finish(max_tags, 0, seq![])
        } else {
            match box_header(b) {
                None => Local::Stop { st, len: 0, events: seq![], demand: need(header_need(b)) },
                Some(h) => match h.total_size {
                    None => finish(max_tags, 0, seq![]),
                    Some(total) => if total < h.header_len {
                        finish(max_tags, 0, seq![])
                    } else if h.kind == lit("meta") || h.kind == lit("moov") {
                        let p = b.subrange(h.header_len as int, total as int);
                        if total > usize::MAX {
                            finish(max_tags, 0, seq![])
                        } else if b.len() < total {
                            Local::Stop { st, len: 0, events: seq![], demand: need(total as int) }
                        } else if h.kind == lit("moov") {
                            finish(
                                max_tags,
                                total as int,
                                moov_events(moov(children(p), at), max_tags),
                            )
                        } else {
                            fetch(
                                meta(p, at).targets,
                                max_tags,
                                total as int,
                                meta_events(meta(p, at)),
                            )
                        }
                    } else {
                        Local::Stop {
                            st: BmffMode::Walk { at: sat64(at + total), max_tags },
                            len: h.header_len as int,
                            events: seq![],
                            demand: Demand::Skip((total - h.header_len) as u64),
                        }
                    },
                },
            }
        },
    }
}

fn needed_header_bytes(input: &[u8]) -> (r: usize)
    ensures
        r == header_need(input@),
{
    if input.len() >= 4 && read_be32(input, 0) == 1 {
        16
    } else {
        8
    }
}

fn push_opt_dims<'a>(events: &mut Vec<Event<'a>>, d: Option<(u32, u32)>)
    ensures
        event_views(final(events)@) == event_views(old(events)@) + opt_dims(d),
{
    assert(event_views(events@) + seq![] =~= event_views(events@));
    match d {
        Some((w, h)) => push_dims(events, w, h),
        None => {},
    }
}

fn push_opt_field<'a>(events: &mut Vec<Event<'a>>, f: Option<Field>)
    ensures
        event_views(final(events)@) == event_views(old(events)@) + opt_field(
            match f {
                Some(f) => Some(f@),
                None => None,
            },
        ),
{
    assert(event_views(events@) + seq![] =~= event_views(events@));
    match f {
        Some(f) => push_event(events, Event::Field(f)),
        None => {},
    }
}

fn push_warnings<'a>(events: &mut Vec<Event<'a>>, ws: &Vec<Warning>)
    ensures
        event_views(final(events)@) == event_views(old(events)@) + warning_events(ws@),
{
    let ghost before = event_views(events@);
    let mut i: usize = 0;
    assert(before + warning_events(ws@.take(0)) =~= before);
    while i < ws.len()
        invariant
            i <= ws@.len(),
            event_views(events@) == before + warning_events(ws@.take(i as int)),
        decreases ws@.len() - i,
    {
        let ghost prior = event_views(events@);
        push_event(events, Event::Warning(ws[i]));
        i += 1;
        assert(prior + seq![EventView::Warning(ws@[i - 1])] =~= before + warning_events(
            ws@.take(i as int),
        ));
    }
    assert(ws@.take(ws@.len() as int) =~= ws@);
}

fn push_payloads<'a>(events: &mut Vec<Event<'a>>, ps: &Vec<(PayloadKind, &'a [u8])>)
    ensures
        event_views(final(events)@) == event_views(old(events)@) + payload_events(
            inline_views(ps@),
        ),
{
    let ghost before = event_views(events@);
    let mut i: usize = 0;
    assert(before + payload_events(inline_views(ps@.take(0))) =~= before);
    while i < ps.len()
        invariant
            i <= ps@.len(),
            event_views(events@) == before + payload_events(inline_views(ps@.take(i as int))),
        decreases ps@.len() - i,
    {
        let ghost prior = event_views(events@);
        let (kind, data) = ps[i];
        push_event(events, Event::Payload { kind, data });
        i += 1;
        assert(prior + seq![EventView::Payload { kind, data: data@ }] =~= before
            + payload_events(inline_views(ps@.take(i as int))));
    }
    assert(ps@.take(ps@.len() as int) =~= ps@);
}

fn push_tags<'a>(events: &mut Vec<Event<'a>>, tags: Vec<ContainerTag>, max: usize)
    ensures
        event_views(final(events)@) == event_views(old(events)@) + tag_events(
            container_views(tags@),
            max,
        ),
{
    let ghost before = event_views(events@);
    let mut left: usize = max;
    assert(before + tag_events(container_views(tags@.take(0)), max) =~= before);
    for t in it: tags
        invariant
            it.seq() == tags@,
            left == (if it.index() < max {
                max - it.index()
            } else {
                0
            }),
            event_views(events@) == before + tag_events(
                container_views(tags@.take(it.index() as int)),
                max,
            ),
    {
        let ghost prior = event_views(events@);
        let ghost i = it.index() as int;
        let ghost tag = t@;
        if left > 0 {
            push_event(events, Event::ContainerTag(t));
            left -= 1;
            assert(prior + seq![EventView::ContainerTag(tag)] =~= before + tag_events(
                container_views(tags@.take(i + 1)),
                max,
            ));
        } else {
            assert(tag_events(container_views(tags@.take(i + 1)), max) =~= tag_events(
                container_views(tags@.take(i)),
                max,
            ));
        }
    }
    assert(tags@.take(tags@.len() as int) =~= tags@);
}

fn push_moov<'a>(events: &mut Vec<Event<'a>>, info: MoovInfo, max_tags: usize)
    ensures
        event_views(final(events)@) == event_views(old(events)@) + moov_events(info@, max_tags),
{
    let ghost before = event_views(events@);
    let ghost m = info@;
    push_opt_dims(events, info.dims);
    push_opt_field(
        events,
        match info.duration_ms {
            Some(d) => Some(Field::Duration(d)),
            None => None,
        },
    );
    push_opt_field(
        events,
        match info.created {
            Some(c) => Some(Field::Created(c)),
            None => None,
        },
    );
    push_opt_field(
        events,
        match info.gps() {
            Some(g) => Some(Field::Gps(g)),
            None => None,
        },
    );
    push_tags(events, info.tags, max_tags);
    push_warnings(events, &info.warnings);
    assert(event_views(events@) =~= before + moov_events(m, max_tags));
}

impl BmffParser {
    pub fn new() -> (r: Self)
        ensures
            r.mode() == (BmffMode::Walk { at: 0, max_tags: 8192 }),
    {
        Self::with_limits(Limits::default())
    }

    /// A parser that hands out no more container tags than the limits allow.
    pub fn with_limits(limits: Limits) -> (r: Self)
        ensures
            r.mode() == (BmffMode::Walk { at: 0, max_tags: limits.max_tags }),
    {
        BmffParser { phase: Phase::Walk, at: 0, targets: Vec::new(), max_tags: limits.max_tags }
    }

    fn finish(&mut self, consumed: usize) -> (m: Move)
        ensures
            m == Move::Stop(Demand::Done, consumed),
            final(self).mode() == (BmffMode::Done { max_tags: old(self).max_tags }),
    {
        self.phase = Phase::Done;
        Move::Stop(Demand::Done, consumed)
    }

    /// Goes on to the first of the targets, or ends where there is none.
    fn fetch(&mut self, consumed: usize) -> (m: Move)
        ensures
            match fetch(old(self).targets@, old(self).max_tags, consumed as int, seq![]) {
                Local::Stop { st, len, demand, .. } => m == Move::Stop(demand, consumed)
                    && final(self).mode() == st && len == consumed,
                Local::Next { .. } => false,
            },
    {
        if self.targets.len() == 0 {
            return self.finish(consumed);
        }
        self.phase = Phase::Extract;
        Move::Stop(Demand::SeekTo(self.targets[0].offset), consumed)
    }

    /// Reads the box at the front of the window.
    fn walk_box<'a>(&mut self, rest: &'a [u8], events: &mut Vec<Event<'a>>) -> (m: Move)
        requires
            old(self).phase is Walk,
        ensures
            m matches Move::Stop(_, n) && n <= rest@.len(),
            match bmff_local(old(self).mode(), rest@) {
                Local::Stop { st, len, events: found, demand } => {
                    &&& m == Move::Stop(demand, len as usize)
                    &&& 0 <= len <= usize::MAX
                    &&& final(self).mode() == st
                    &&& event_views(final(events)@) == event_views(old(events)@) + found
                },
                Local::Next { .. } => false,
            },
    {
        let ghost before = event_views(events@);
        assert(before + seq![] =~= before);
        if rest.len() == 0 {
            return self.finish(0);
        }
        let hdr = match read_box_header(rest) {
            Some(h) => h,
            None => {
                return Move::Stop(Demand::NeedBytes(needed_header_bytes(rest)), 0);
            },
        };
        let total: u64 = match hdr.total_size {
            Some(t) => t,
            None => return self.finish(0),
        };
        if total < hdr.header_len {
            return self.finish(0);
        }
        if hdr.is("meta") || hdr.is("moov") {
            if total > usize::MAX as u64 {
                return self.finish(0);
            }
            let need: usize = total as usize;
            if rest.len() < need {
                return Move::Stop(Demand::NeedBytes(need), 0);
            }
            let payload = part(rest, hdr.header_len as usize, need);
            if hdr.is("moov") {
                push_moov(events, parse_moov(payload, self.at), self.max_tags);
                return self.finish(need);
            }
            let plan = parse_meta(payload, self.at);
            push_opt_dims(events, plan.dims);
            push_payloads(events, &plan.inline);
            push_warnings(events, &plan.warnings);
            assert(event_views(events@) =~= before + meta_events(plan@));
            self.targets = plan.targets;
            return self.fetch(need);
        }
        self.at = self.at.saturating_add(total);
        Move::Stop(Demand::Skip(total - hdr.header_len), hdr.header_len as usize)
    }

    /// Reads the payload that the window starts with.
    fn extract<'a>(&mut self, rest: &'a [u8], events: &mut Vec<Event<'a>>) -> (m: Move)
        requires
            old(self).phase is Extract,
        ensures
            m matches Move::Stop(_, n) && n <= rest@.len(),
            match bmff_local(old(self).mode(), rest@) {
                Local::Stop { st, len, events: found, demand } => {
                    &&& m == Move::Stop(demand, len as usize)
                    &&& 0 <= len <= usize::MAX
                    &&& final(self).mode() == st
                    &&& event_views(final(events)@) == event_views(old(events)@) + found
                },
                Local::Next { .. } => false,
            },
    {
        assert(event_views(events@) + seq![] =~= event_views(events@));
        if self.targets.len() == 0 {
            return self.finish(0);
        }
        let t = self.targets[0];
        if t.length > usize::MAX as u64 {
            return self.finish(0);
        }
        let len: usize = t.length as usize;
        if rest.len() < len {
            return Move::Stop(Demand::NeedBytes(len), 0);
        }
        let data = read_item_payload(t.kind, part(rest, 0, len));
        push_event(events, Event::Payload { kind: t.kind, data });
        let ghost all = self.targets@;
        let _ = self.targets.remove(0);
        assert(self.targets@ =~= all.drop_first());
        self.fetch(len)
    }
}

impl Walker for BmffParser {
    type Mode = BmffMode;

    closed spec fn mode(&self) -> BmffMode {
        match self.phase {
            Phase::Walk => BmffMode::Walk { at: self.at, max_tags: self.max_tags },
            Phase::Extract => BmffMode::Extract {
                targets: self.targets@,
                max_tags: self.max_tags,
            },
            Phase::Done => BmffMode::Done { max_tags: self.max_tags },
        }
    }

    open spec fn local(st: BmffMode, rest: Seq<u8>) -> Local<BmffMode> {
        bmff_local(st, rest)
    }

    fn advance<'a>(&mut self, rest: &'a [u8], events: &mut Vec<Event<'a>>) -> (m: Move) {
        assert(event_views(events@) + seq![] =~= event_views(events@));
        match self.phase {
            Phase::Done => self.finish(0),
            Phase::Extract => self.extract(rest, events),
            Phase::Walk => self.walk_box(rest, events),
        }
    }
}

impl MetaParser for BmffParser {
    type State = BmffMode;

    open spec fn state(&self) -> BmffMode {
        self.mode()
    }

    open spec fn step(st: BmffMode, input: Seq<u8>) -> (BmffMode, PullView) {
        walk::<BmffParser>(st, input, 0, seq![])
    }

    fn pull<'a>(&mut self, input: &'a [u8]) -> (r: PullResult<'a>) {
        pull_units(self, input)
    }
}

} // verus!
