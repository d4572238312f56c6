//! Matroska and WebM. The elements at the top and those inside a Segment are read as one
//! chain: Info and Tracks are taken in whole, all others are skipped, and the first
//! element of unknown size that is no Segment ends the search.
use vstd::arithmetic::power2::pow2;
use vstd::prelude::*;

use crate::bytes::{be32, be64, part, read_be32, read_be64};
use crate::civil::{civil_from_days, date_of};
use crate::containers::ebml::{
    element_header, elements, find_element, first_element, iter_child_elements, number,
    read_element_header, read_number, vint_len, Element,
};
use crate::demand::{
    event_views, need, pull_units, push_dims, push_event, walk, Demand, Event, EventView, Local,
    MetaParser, Move, PullResult, PullView, Walker,
};
use crate::formats::bmff::{opt_dims, opt_field};
use crate::model::{DateTimeParts, Field, FieldView};

verus! {

#[derive(Debug, Clone, Copy, PartialEq, Eq, Structural)]
pub enum EbmlMode {
    Walk,
    Done,
}

#[derive(Debug)]
pub struct EbmlParser {
    mode: EbmlMode,
}

/// A finite number that is not negative: `m` times two to the `k`.
pub struct Binary {
    pub m: nat,
    pub k: int,
}

/// The IEEE 754 number of four or eight bytes.
pub open spec fn float(b: Seq<u8>) -> Option<Binary> {
    if b.len() == 4 {
        let e = be32(b, 0) as int / 0x80_0000;
        let m = be32(b, 0) as int % 0x80_0000;
        if e >= 0xFF {
            None
        } else if e == 0 {
            Some(Binary { m: m as nat, k: -149 })
        } else {
            Some(Binary { m: (0x80_0000 + m) as nat, k: e - 150 })
        }
    } else if b.len() == 8 {
        let e = be64(b, 0) as int / 0x10_0000_0000_0000;
        let m = be64(b, 0) as int % 0x10_0000_0000_0000;
        if e >= 0x7FF {
            None
        } else if e == 0 {
            Some(Binary { m: m as nat, k: -1074 })
        } else {
            Some(Binary { m: (0x10_0000_0000_0000 + m) as nat, k: e - 1075 })
        }
    } else {
        None
    }
}

/// The milliseconds in `d` units of `scale` nanoseconds, rounded down.
pub open spec fn millis(d: Binary, scale: u64) -> Option<u64> {
    let p = d.m as int * scale as int;
    let ms = if d.k >= 0 {
        p * pow2(d.k as nat) as int / 1_000_000
    } else {
        p / (1_000_000 * pow2((-d.k) as nat) as int)
    };
    if ms <= u64::MAX {
        Some(ms as u64)
    } else {
        None
    }
}

/// The unsigned number of up to eight bytes.
pub open spec fn unsigned(b: Option<Seq<u8>>) -> Option<u64> {
    match b {
        Some(b) if b.len() <= 8 => Some(number(b) as u64),
        _ => None,
    }
}

/// The length that an Info element gives. A unit is a millisecond where the element does
/// not say.
pub open spec fn info_duration(es: Seq<Element>) -> Option<u64> {
    let scale = match unsigned(first_element(es, 0x2A_D7B1)) {
        Some(s) => s,
        None => 1_000_000,
    };
    match first_element(es, 0x4489) {
        Some(b) => match float(b) {
            Some(d) => millis(d, scale),
            None => None,
        },
        None => None,
    }
}

/// The UTC time `ns` nanoseconds after the start of 2001.
pub open spec fn time_2001(ns: int) -> DateTimeParts {
    let secs = ns / 1_000_000_000;
    let date = date_of(secs / 86_400 + 11_323);
    let tod = secs % 86_400;
    DateTimeParts {
        year: (date.0 % 0x1_0000) as u16,
        month: date.1 as u8,
        day: date.2 as u8,
        hour: (tod / 3600) as u8,
        minute: (tod % 3600 / 60) as u8,
        second: (tod % 60) as u8,
        tz_offset_min: Some(0),
    }
}

/// The time of creation that an Info element gives.
pub open spec fn info_created(es: Seq<Element>) -> Option<DateTimeParts> {
    match first_element(es, 0x4461) {
        Some(b) if b.len() == 8 => Some(
            time_2001(
                if be64(b, 0) < 0x8000_0000_0000_0000 {
                    be64(b, 0) as int
                } else {
                    be64(b, 0) - 0x1_0000_0000_0000_0000
                },
            ),
        ),
        _ => None,
    }
}

/// The size that a TrackEntry gives, where it has a picture.
pub open spec fn entry_dims(es: Seq<Element>) -> Option<(u32, u32)> {
    match first_element(es, 0xE0) {
        None => None,
        Some(v) => {
            let video = elements(v);
            match (unsigned(first_element(video, 0xB0)), unsigned(first_element(video, 0xBA))) {
                (Some(w), Some(h)) => if 0 < w <= u32::MAX && 0 < h <= u32::MAX {
                    Some((w as u32, h as u32))
                } else {
                    None
                },
                _ => None,
            }
        },
    }
}

/// The first size that a TrackEntry among `es` gives.
pub open spec fn tracks_dims(es: Seq<Element>) -> Option<(u32, u32)>
    decreases es.len(),
{
    if es.len() == 0 {
        None
    } else if es[0].header.id == 0xAE && entry_dims(elements(es[0].payload)) is Some {
        entry_dims(elements(es[0].payload))
    } else {
        tracks_dims(es.drop_first())
    }
}

pub open spec fn info_events(p: Seq<u8>) -> Seq<EventView> {
    opt_field(
        match info_duration(elements(p)) {
            Some(d) => Some(FieldView::Duration(d)),
            None => None,
        },
    ) + opt_field(
        match info_created(elements(p)) {
            Some(c) => Some(FieldView::Created(c)),
            None => None,
        },
    )
}

pub open spec fn finish() -> Local<EbmlMode> {
    Local::Stop { st: EbmlMode::Done, len: 0, events: seq![], demand: Demand::Done }
}

/// How many bytes the header at the front of `b` needs, as far as `b` tells; none where
/// no header starts so.
pub open spec fn header_need(b: Seq<u8>) -> Option<int> {
    let n = vint_len(b[0]);
    if b.len() == 0 || n == 0 || n > 4 {
        None
    } else if b.len() <= n {
        Some(n + 1)
    } else if vint_len(b[n]) == 0 {
        None
    } else {
        Some(n + vint_len(b[n]))
    }
}

/// The element at the front of `b`. An empty window is the end of the file.
pub open spec fn ebml_local(st: EbmlMode, b: Seq<u8>) -> Local<EbmlMode> {
    match header_need(b) {
        Some(n) if st is Walk => if b.len() < n {
            Local::Stop { st, len: 0, events: seq![], demand: need(n) }
        } else {
            match element_header(b) {
                None => finish(),
                Some(h) => if h.id == 0x1853_8067 {
                    Local::Stop {
                        st,
                        len: h.header_len as int,
                        events: seq![],
                        demand: Demand::Skip(0),
                    }
                } else {
                    match h.size {
                        None => finish(),
                        Some(size) => if h.id == 0x1549_A966 || h.id == 0x1654_AE6B {
                            let total = h.header_len + size;
                            let p = b.subrange(h.header_len as int, total);
                            if total > usize::MAX {
                                finish()
                            } else if b.len() < total {
                                Local::Stop { st, len: 0, events: seq![], demand: need(total) }
                            } else {
                                Local::Stop {
                                    st,
                                    len: total,
                                    events: if h.id == 0x1549_A966 {
                                        info_events(p)
                                    } else {
                                        opt_dims(tracks_dims(elements(p)))
                                    },
                                    demand: Demand::Skip(0),
                                }
                            }
                        } else {
                            Local::Stop {
                                st,
                                len: h.header_len as int,
                                events: seq![],
                                demand: Demand::Skip(size),
                            }
                        },
                    }
                },
            }
        },
        _ => finish(),
    }
}

/// `q` divided by two to the `k`, rounded down.
fn halved(q: u128, k: u32) -> (r: u128)
    ensures
        r == q as int / pow2(k as nat) as int,
{
    let mut r: u128 = q;
    let mut i: u32 = 0;
    proof {
        vstd::arithmetic::power2::lemma2_to64();
    }
    while i < k && r > 0
        invariant
            i <= k,
            r == q as int / pow2(i as nat) as int,
        decreases k - i,
    {
        proof {
            vstd::arithmetic::power2::lemma_pow2_pos(i as nat);
            vstd::arithmetic::power2::lemma_pow2_unfold((i + 1) as nat);
            vstd::arithmetic::div_mod::lemma_div_denominator(
                q as int,
                pow2(i as nat) as int,
                2,
            );
            assert(pow2((i + 1) as nat) as int == pow2(i as nat) as int * 2);
        }
        r = r / 2;
        i += 1;
    }
    proof {
        if i < k {
            vstd::arithmetic::power2::lemma_pow2_pos(i as nat);
            vstd::arithmetic::power2::lemma_pow2_strictly_increases(i as nat, k as nat);
            vstd::arithmetic::div_mod::lemma_fundamental_div_mod(q as int, pow2(i as nat) as int);
            vstd::arithmetic::div_mod::lemma_mod_bound(q as int, pow2(i as nat) as int);
            assert(pow2(i as nat) as int * (q as int / pow2(i as nat) as int) == 0)
                by (nonlinear_arith)
                requires
                    q as int / pow2(i as nat) as int == 0,
            ;
            assert((q as int) < pow2(k as nat) as int);
            vstd::arithmetic::div_mod::lemma_basic_div(q as int, pow2(k as nat) as int);
        }
    }
    r
}

/// Scales up: `p` times two to the `k`, by a million, where that fits.
fn doubled(p: u128, k: u32) -> (r: Option<u64>)
    requires
        p < 0x40_0000_0000_0000_0000_0000_0000_0000,
    ensures
        r == (if p as int * pow2(k as nat) as int / 1_000_000 <= u64::MAX {
            Some((p as int * pow2(k as nat) as int / 1_000_000) as u64)
        } else {
            None
        }),
{
    let mut v: u128 = p;
    let mut i: u32 = 0;
    proof {
        vstd::arithmetic::power2::lemma2_to64();
        assert(p as int * 1 == p);
    }
    while i < k
        invariant
            i <= k,
            v < 0x40_0000_0000_0000_0000_0000_0000_0000,
            v as int == p as int * pow2(i as nat) as int,
        decreases k - i,
    {
        if v >= 0x10_0000_0000_0000_0000_0000 {
            proof {
                if i < k {
                    vstd::arithmetic::power2::lemma_pow2_strictly_increases(i as nat, k as nat);
                }
                assert(p as int * pow2(k as nat) as int >= v) by (nonlinear_arith)
                    requires
                        v as int == p as int * pow2(i as nat) as int,
                        pow2(k as nat) >= pow2(i as nat),
                        p >= 0,
                ;
            }
            return None;
        }
        proof {
            vstd::arithmetic::power2::lemma_pow2_unfold((i + 1) as nat);
            assert(p as int * pow2((i + 1) as nat) as int == v as int * 2) by (nonlinear_arith)
                requires
                    v as int == p as int * pow2(i as nat) as int,
                    pow2((i + 1) as nat) == 2 * pow2(i as nat),
            ;
        }
        v = v * 2;
        i += 1;
    }
    let ms: u128 = v / 1_000_000;
    if ms <= u64::MAX as u128 {
        Some(ms as u64)
    } else {
        None
    }
}

/// The length in milliseconds of `b`, a float that counts units of `scale` nanoseconds.
fn parse_duration(b: &[u8], scale: u64) -> (r: Option<u64>)
    ensures
        r == (match float(b@) {
            Some(d) => millis(d, scale),
            None => None,
        }),
{
    let (m, k): (u64, i32) = if b.len() == 4 {
        let bits: u32 = read_be32(b, 0);
        let e: u32 = bits / 0x80_0000;
        let m: u32 = bits % 0x80_0000;
        if e >= 0xFF {
            return None;
        }
        if e == 0 {
            (m as u64, -149)
        } else {
            (0x80_0000 + m as u64, e as i32 - 150)
        }
    } else if b.len() == 8 {
        let bits: u64 = read_be64(b, 0);
        let e: u64 = bits / 0x10_0000_0000_0000;
        let m: u64 = bits % 0x10_0000_0000_0000;
        if e >= 0x7FF {
            return None;
        }
        if e == 0 {
            (m, -1074)
        } else {
            (0x10_0000_0000_0000 + m, e as i32 - 1075)
        }
    } else {
        return None;
    };
    assert(m as int * scale as int <= 0x20_0000_0000_0000 * 0xFFFF_FFFF_FFFF_FFFF)
        by (nonlinear_arith)
        requires
            m <= 0x20_0000_0000_0000,
    ;
    assert(m as int * scale as int >= 0) by (nonlinear_arith);
    let p: u128 = m as u128 * scale as u128;
    if k >= 0 {
        return doubled(p, k as u32);
    }
    let ms: u128 = halved(p / 1_000_000, (-k) as u32);
    proof {
        vstd::arithmetic::power2::lemma_pow2_pos((-k) as nat);
        vstd::arithmetic::div_mod::lemma_div_denominator(
            p as int,
            1_000_000,
            pow2((-k) as nat) as int,
        );
    }
    if ms <= u64::MAX as u128 {
        Some(ms as u64)
    } else {
        None
    }
}

fn datetime_from_2001(ns: i64) -> (r: DateTimeParts)
    ensures
        r == time_2001(ns as int),
{
    let secs: i64 = floor_div(ns, 1_000_000_000);
    let day: i64 = floor_div(secs, 86_400);
    let tod: i64 = secs - day * 86_400;
    let (year, month, d) = civil_from_days(day + 11_323);
    DateTimeParts {
        year,
        month,
        day: d,
        hour: (tod / 3600) as u8,
        minute: ((tod % 3600) / 60) as u8,
        second: (tod % 60) as u8,
        tz_offset_min: Some(0),
    }
}

/// `a / b`, rounded down, for the two divisors that times need.
fn floor_div(a: i64, b: i64) -> (r: i64)
    requires
        b == 1_000_000_000 || b == 86_400,
    ensures
        r == a as int / b as int,
{
    if b == 86_400 {
        if a >= 0 {
            a / 86_400
        } else {
            let k: i64 = (-1 - a) / 86_400;
            assert(-1 - k == a as int / 86_400);
            -1 - k
        }
    } else {
        if a >= 0 {
            a / 1_000_000_000
        } else {
            let k: i64 = (-1 - a) / 1_000_000_000;
            assert(-1 - k == a as int / 1_000_000_000);
            -1 - k
        }
    }
}

fn find_unsigned(p: &[u8], id: u32) -> (r: Option<u64>)
    ensures
        r == unsigned(first_element(elements(p@), id)),
{
    match find_element(p, id) {
        Some(b) => if b.len() <= 8 {
            Some(read_number(b))
        } else {
            None
        },
        None => None,
    }
}

fn read_info<'a>(p: &[u8], events: &mut Vec<Event<'a>>)
    ensures
        event_views(final(events)@) == event_views(old(events)@) + info_events(p@),
{
    let ghost before = event_views(events@);
    let scale: u64 = match find_unsigned(p, 0x2A_D7B1) {
        Some(s) => s,
        None => 1_000_000,
    };
    let duration = match find_element(p, 0x4489) {
        Some(b) => parse_duration(b, scale),
        None => None,
    };
    match duration {
        Some(d) => push_event(events, Event::Field(Field::Duration(d))),
        None => {},
    }
    match find_element(p, 0x4461) {
        Some(b) => {
            if b.len() == 8 {
                let v: u64 = read_be64(b, 0);
                let ns: i64 = if v < 0x8000_0000_0000_0000 {
                    v as i64
                } else {
                    -((0xFFFF_FFFF_FFFF_FFFF - v) as i64) - 1
                };
                push_event(events, Event::Field(Field::Created(datetime_from_2001(ns))));
            }
        },
        None => {},
    }
    assert(event_views(events@) =~= before + info_events(p@));
}

fn parse_entry(p: &[u8]) -> (r: Option<(u32, u32)>)
    ensures
        r == entry_dims(elements(p@)),
{
    let v = match find_element(p, 0xE0) {
        Some(v) => v,
        None => return None,
    };
    match (find_unsigned(v, 0xB0), find_unsigned(v, 0xBA)) {
        (Some(w), Some(h)) => if 0 < w && w <= u32::MAX as u64 && 0 < h && h <= u32::MAX as u64 {
            Some((w as u32, h as u32))
        } else {
            None
        },
        _ => None,
    }
}

fn parse_tracks(p: &[u8]) -> (r: Option<(u32, u32)>)
    ensures
        r == tracks_dims(elements(p@)),
{
    let mut it = iter_child_elements(p);
    loop
        invariant
            tracks_dims(it.items()) == tracks_dims(elements(p@)),
        decreases it.left(),
    {
        match it.next() {
            Some((hdr, e)) => {
                if hdr.id == 0xAE {
                    match parse_entry(e) {
                        Some(d) => {
                            return Some(d);
                        },
                        None => {},
                    }
                }
            },
            None => {
                return None;
            },
        }
    }
}

impl EbmlParser {
    pub fn new() -> (r: Self)
        ensures
            r.mode() == EbmlMode::Walk,
    {
        EbmlParser { mode: EbmlMode::Walk }
    }

    fn finish(&mut self) -> (m: Move)
        ensures
            m == Move::Stop(Demand::Done, 0),
            final(self).mode() == EbmlMode::Done,
    {
        self.mode = EbmlMode::Done;
        Move::Stop(Demand::Done, 0)
    }
}

fn needed_header_bytes(b: &[u8]) -> (r: Option<usize>)
    ensures
        match r {
            Some(n) => header_need(b@) == Some(n as int) && n <= 12,
            None => header_need(b@) is None,
        },
{
    if b.len() == 0 {
        return None;
    }
    let n: usize = crate::containers::ebml::vint_width(b[0]);
    if n == 0 || n > 4 {
        return None;
    }
    if b.len() <= n {
        return Some(n + 1);
    }
    let m: usize = crate::containers::ebml::vint_width(b[n]);
    if m == 0 {
        return None;
    }
    Some(n + m)
}

impl Walker for EbmlParser {
    type Mode = EbmlMode;

    closed spec fn mode(&self) -> EbmlMode {
        self.mode
    }

    open spec fn local(st: EbmlMode, rest: Seq<u8>) -> Local<EbmlMode> {
        ebml_local(st, rest)
    }

    fn advance<'a>(&mut self, rest: &'a [u8], events: &mut Vec<Event<'a>>) -> (m: Move) {
        assert(event_views(events@) + seq![] =~= event_views(events@));
        if matches!(self.mode, EbmlMode::Done) {
            return self.finish();
        }
        let n: usize = match needed_header_bytes(rest) {
            Some(n) => n,
            None => return self.finish(),
        };
        if rest.len() < n {
            return Move::Stop(Demand::NeedBytes(n), 0);
        }
        let h = match read_element_header(rest) {
            Some(h) => h,
            None => return self.finish(),
        };
        let header_len: usize = h.header_len as usize;
        if h.id == 0x1853_8067 {
            return Move::Stop(Demand::Skip(0), header_len);
        }
        let size: u64 = match h.size {
            Some(s) => s,
            None => return self.finish(),
        };
        if h.id == 0x1549_A966 || h.id == 0x1654_AE6B {
            let total: u64 = h.header_len + size;
            if total > usize::MAX as u64 {
                return self.finish();
            }
            let total: usize = total as usize;
            if rest.len() < total {
                return Move::Stop(Demand::NeedBytes(total), 0);
            }
            let p = part(rest, header_len, total);
            if h.id == 0x1549_A966 {
                read_info(p, events);
            } else {
                match parse_tracks(p) {
                    Some((w, h)) => push_dims(events, w, h),
                    None => {},
                }
            }
            return Move::Stop(Demand::Skip(0), total);
        }
        Move::Stop(Demand::Skip(size), header_len)
    }
}

impl MetaParser for EbmlParser {
    type State = EbmlMode;

    open spec fn state(&self) -> EbmlMode {
        self.mode()
    }

    open spec fn step(st: EbmlMode, input: Seq<u8>) -> (EbmlMode, PullView) {
        walk::<EbmlParser>(st, input, 0, seq![])
    }

    fn pull<'a>(&mut self, input: &'a [u8]) -> (r: PullResult<'a>) {
        pull_units(self, input)
    }
}

} // verus!
