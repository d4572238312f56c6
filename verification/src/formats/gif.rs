//! GIF: blocks behind the header and the logical screen descriptor.
use vstd::arithmetic::power2::{lemma2_to64, pow2};
use vstd::prelude::*;

use crate::bytes::{find_byte, find_from, is_str, le16, lit, part, read_le16};
use crate::demand::{
    dims, event_views, need, need_bytes, pull_units, push_dims, push_event, walk, Demand, Event,
    EventView, Local, MetaParser, Move, PayloadKind, PullResult, PullView, Walker,
};

verus! {

#[derive(Debug, Clone, Copy, PartialEq, Eq, Structural)]
pub enum GifMode {
    /// Before the header.
    Header,
    /// At a block.
    Block,
    /// In a chain of sub-blocks that are skipped.
    SubBlocks,
    /// At the start of an XMP packet.
    CapturingXmp,
    Done,
}

#[derive(Debug)]
pub struct GifParser {
    mode: GifMode,
}

/// Whether `b` begins with the signature of a GIF file.
pub open spec fn gif_signature(b: Seq<u8>) -> bool {
    b.len() >= 6 && (b.subrange(0, 6) == lit("GIF87a") || b.subrange(0, 6) == lit("GIF89a"))
}

pub fn is_gif(b: &[u8]) -> (r: bool)
    ensures
        r == gif_signature(b@),
{
    b.len() >= 6 && (is_str(part(b, 0, 6), "GIF87a") || is_str(part(b, 0, 6), "GIF89a"))
}

/// The length of the colour table that the packed field of a descriptor announces.
pub open spec fn color_table(packed: u8) -> int {
    if packed >= 0x80 {
        3 * pow2((packed % 8 + 1) as nat) as int
    } else {
        0
    }
}

fn color_table_len(packed: u8) -> (r: u64)
    ensures
        r == color_table(packed),
        r <= 768,
{
    proof {
        lemma2_to64();
    }
    if packed < 0x80 {
        return 0;
    }
    match packed % 8 {
        0 => 6,
        1 => 12,
        2 => 24,
        3 => 48,
        4 => 96,
        5 => 192,
        6 => 384,
        _ => 768,
    }
}

/// Whether the trailer that ends an XMP packet begins at `k`.
pub open spec fn magic_at(b: Seq<u8>, k: int) -> bool {
    k + 3 <= b.len() && b[k] == 0x01 && b[k + 1] == 0xFF && b[k + 2] == 0xFE
}

/// Where the first trailer from `k` on begins.
pub open spec fn magic_from(b: Seq<u8>, k: int) -> Option<int>
    decreases b.len() - k,
{
    if k + 3 > b.len() {
        None
    } else if magic_at(b, k) {
        Some(k)
    } else {
        magic_from(b, k + 1)
    }
}

/// An XMP packet: the first zero byte ends the block. The packet ends where the trailer
/// before that byte begins, or at that byte where there is none.
pub open spec fn packet(b: Seq<u8>) -> Local<GifMode> {
    let zero = find_from(b, 0, 0);
    if zero >= b.len() {
        Local::Stop {
            st: GifMode::CapturingXmp,
            len: 0,
            events: seq![],
            demand: need(b.len() as int + 1),
        }
    } else {
        let end = match magic_from(b.subrange(0, zero), 0) {
            Some(k) => k,
            None => zero,
        };
        Local::Next {
            st: GifMode::Block,
            len: zero + 1,
            events: seq![EventView::Payload { kind: PayloadKind::Xmp, data: b.subrange(0, end) }],
        }
    }
}

pub open spec fn wait(st: GifMode, n: int) -> Local<GifMode> {
    Local::Stop { st, len: 0, events: seq![], demand: need(n) }
}

pub open spec fn finish(len: int) -> Local<GifMode> {
    Local::Stop { st: GifMode::Done, len, events: seq![], demand: Demand::Done }
}

pub open spec fn skip(st: GifMode, len: int, n: int) -> Local<GifMode> {
    Local::Stop { st, len, events: seq![], demand: Demand::Skip(n as u64) }
}

/// The block at the front of `b`.
pub open spec fn block(b: Seq<u8>) -> Local<GifMode> {
    if b.len() == 0 {
        wait(GifMode::Block, 1)
    } else if b[0] == 0x3B {
        finish(1)
    } else if b[0] == 0x2C {
        if b.len() < 10 {
            wait(GifMode::Block, 10)
        } else {
            skip(GifMode::SubBlocks, 10, color_table(b[9]) + 1)
        }
    } else if b[0] == 0x21 {
        if b.len() < 2 {
            wait(GifMode::Block, 2)
        } else if b[1] != 0xFF {
            skip(GifMode::SubBlocks, 2, 0)
        } else if b.len() < 14 {
            wait(GifMode::Block, 14)
        } else if b.subrange(3, 14) == lit("XMP DataXMP") {
            skip(GifMode::CapturingXmp, 14, 0)
        } else {
            skip(GifMode::SubBlocks, 14, 0)
        }
    } else {
        finish(0)
    }
}

/// The header and the logical screen descriptor.
pub open spec fn header(b: Seq<u8>) -> Local<GifMode> {
    if b.len() < 13 {
        wait(GifMode::Header, 13)
    } else if !gif_signature(b) {
        finish(0)
    } else {
        let events = dims(le16(b, 6) as u32, le16(b, 8) as u32);
        if b[10] >= 0x80 {
            Local::Stop {
                st: GifMode::Block,
                len: 13,
                events,
                demand: Demand::Skip(color_table(b[10]) as u64),
            }
        } else {
            Local::Next { st: GifMode::Block, len: 13, events }
        }
    }
}

/// What stands at the front of `b`.
pub open spec fn gif_local(st: GifMode, b: Seq<u8>) -> Local<GifMode> {
    match st {
        GifMode::Done => finish(0),
        GifMode::Header => header(b),
        GifMode::Block => block(b),
        GifMode::CapturingXmp => packet(b),
        GifMode::SubBlocks => if b.len() == 0 {
            wait(st, 1)
        } else if b[0] == 0 {
            Local::Next { st: GifMode::Block, len: 1, events: seq![] }
        } else {
            skip(st, 1, b[0] as int)
        },
    }
}

impl GifParser {
    pub fn new() -> (r: Self)
        ensures
            r.mode() == GifMode::Header,
    {
        GifParser { mode: GifMode::Header }
    }
}

/// A trailer that is found stands within the bytes.
pub proof fn lemma_magic_from(b: Seq<u8>, k: int)
    requires
        0 <= k,
    ensures
        magic_from(b, k) matches Some(i) ==> k <= i && i + 3 <= b.len() && magic_at(b, i),
    decreases b.len() - k,
{
    if k + 3 <= b.len() && !magic_at(b, k) {
        lemma_magic_from(b, k + 1);
    }
}

/// Finds the trailer of an XMP packet.
fn find_magic(b: &[u8]) -> (r: Option<usize>)
    ensures
        match r {
            Some(k) => magic_from(b@, 0) == Some(k as int) && k <= b@.len(),
            None => magic_from(b@, 0) is None,
        },
{
    let mut k: usize = 0;
    while k < b.len() && b.len() - k >= 3
        invariant
            k <= b@.len(),
            magic_from(b@, k as int) == magic_from(b@, 0),
        decreases b@.len() - k,
    {
        if b[k] == 0x01 && b[k + 1] == 0xFF && b[k + 2] == 0xFE {
            return Some(k);
        }
        k += 1;
    }
    None
}

impl Walker for GifParser {
    type Mode = GifMode;

    closed spec fn mode(&self) -> GifMode {
        self.mode
    }

    open spec fn local(st: GifMode, rest: Seq<u8>) -> Local<GifMode> {
        gif_local(st, rest)
    }

    fn advance<'a>(&mut self, rest: &'a [u8], events: &mut Vec<Event<'a>>) -> (m: Move) {
        let ghost found = event_views(events@);
        assert(found + seq![] =~= found);
        match self.mode {
            GifMode::Done => Move::Stop(Demand::Done, 0),
            GifMode::Header => {
                if rest.len() < 13 {
                    return Move::Stop(Demand::NeedBytes(13), 0);
                }
                if !is_gif(rest) {
                    self.mode = GifMode::Done;
                    return Move::Stop(Demand::Done, 0);
                }
                push_dims(events, read_le16(rest, 6) as u32, read_le16(rest, 8) as u32);
                self.mode = GifMode::Block;
                let packed: u8 = rest[10];
                if packed >= 0x80 {
                    return Move::Stop(Demand::Skip(color_table_len(packed)), 13);
                }
                Move::Next(13)
            },
            GifMode::CapturingXmp => match find_byte(rest, 0) {
                Some(zero) => {
                    let end: usize = match find_magic(part(rest, 0, zero)) {
                        Some(k) => k,
                        None => zero,
                    };
                    push_event(
                        events,
                        Event::Payload { kind: PayloadKind::Xmp, data: part(rest, 0, end) },
                    );
                    self.mode = GifMode::Block;
                    Move::Next(zero + 1)
                },
                None => Move::Stop(need_bytes(rest.len(), 1), 0),
            },
            GifMode::SubBlocks => {
                if rest.len() == 0 {
                    return Move::Stop(Demand::NeedBytes(1), 0);
                }
                let len: u8 = rest[0];
                if len == 0 {
                    self.mode = GifMode::Block;
                    return Move::Next(1);
                }
                Move::Stop(Demand::Skip(len as u64), 1)
            },
            GifMode::Block => {
                if rest.len() == 0 {
                    return Move::Stop(Demand::NeedBytes(1), 0);
                }
                let lead: u8 = rest[0];
                if lead == 0x3B {
                    self.mode = GifMode::Done;
                    return Move::Stop(Demand::Done, 1);
                }
                if lead == 0x2C {
                    if rest.len() < 10 {
                        return Move::Stop(Demand::NeedBytes(10), 0);
                    }
                    self.mode = GifMode::SubBlocks;
                    return Move::Stop(Demand::Skip(color_table_len(rest[9]) + 1), 10);
                }
                if lead == 0x21 {
                    if rest.len() < 2 {
                        return Move::Stop(Demand::NeedBytes(2), 0);
                    }
                    if rest[1] != 0xFF {
                        self.mode = GifMode::SubBlocks;
                        return Move::Stop(Demand::Skip(0), 2);
                    }
                    if rest.len() < 14 {
                        return Move::Stop(Demand::NeedBytes(14), 0);
                    }
                    if is_str(part(rest, 3, 14), "XMP DataXMP") {
                        self.mode = GifMode::CapturingXmp;
                    } else {
                        self.mode = GifMode::SubBlocks;
                    }
                    return Move::Stop(Demand::Skip(0), 14);
                }
                self.mode = GifMode::Done;
                Move::Stop(Demand::Done, 0)
            },
        }
    }
}

impl MetaParser for GifParser {
    type State = GifMode;

    open spec fn state(&self) -> GifMode {
        self.mode()
    }

    open spec fn step(st: GifMode, input: Seq<u8>) -> (GifMode, PullView) {
        walk::<GifParser>(st, input, 0, seq![])
    }

    fn pull<'a>(&mut self, input: &'a [u8]) -> (r: PullResult<'a>) {
        pull_units(self, input)
    }
}

} // verus!
