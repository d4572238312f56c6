//! WebP: RIFF chunks, each padded to an even length.
use vstd::prelude::*;

use crate::bytes::{
    has_prefix, is_str, le16, le32, lit, part, read_le16, read_le32, starts_with, tail,
};
use crate::demand::{
    dims, event_views, need, pull_units, push_dims, push_event, walk, Demand, Event, EventView,
    Local, MetaParser, Move, PayloadKind, PullResult, PullView, Walker,
};
use crate::formats::jpeg::lemma_exif_marker;

verus! {

#[derive(Debug, Clone, Copy, PartialEq, Eq, Structural)]
pub enum WebpMode {
    /// Before the RIFF header.
    Start,
    /// At a chunk, with this many bytes left of the RIFF container.
    Chunks { left: u64 },
    Done,
}

#[derive(Debug)]
pub struct WebpParser {
    mode: WebpMode,
}

/// Whether `b` begins with the header of a WebP file.
pub open spec fn riff_webp(b: Seq<u8>) -> bool {
    b.len() >= 12 && b.subrange(0, 4) == lit("RIFF") && b.subrange(8, 12) == lit("WEBP")
}

pub fn is_webp(b: &[u8]) -> (r: bool)
    ensures
        r == riff_webp(b@),
{
    b.len() >= 12 && is_str(part(b, 0, 4), "RIFF") && is_str(part(b, 8, 12), "WEBP")
}

/// The little-endian number of three bytes at `i`.
pub open spec fn le24(b: Seq<u8>, i: int) -> u32 {
    (b[i] as int + b[i + 1] as int * 0x100 + b[i + 2] as int * 0x1_0000) as u32
}

fn u24_le(b: &[u8], i: usize) -> (r: u32)
    requires
        i + 3 <= b.len(),
    ensures
        r == le24(b@, i as int),
        r < 0x100_0000,
{
    b[i] as u32 + b[i + 1] as u32 * 0x100 + b[i + 2] as u32 * 0x1_0000
}

/// How much of a chunk is read for the size of the image.
pub open spec fn dims_len(fourcc: Seq<u8>) -> Option<int> {
    if fourcc == lit("VP8X") || fourcc == lit("VP8 ") {
        Some(10)
    } else if fourcc == lit("VP8L") {
        Some(5)
    } else {
        None
    }
}

/// The size of the image that the front of a chunk gives.
pub open spec fn chunk_dims(fourcc: Seq<u8>, d: Seq<u8>) -> Seq<EventView> {
    if fourcc == lit("VP8X") && d.len() >= 10 {
        dims((le24(d, 4) + 1) as u32, (le24(d, 7) + 1) as u32)
    } else if fourcc == lit("VP8 ") && d.len() >= 10 && d[3] == 0x9D && d[4] == 0x01 && d[5]
        == 0x2A {
        dims((le16(d, 6) % 0x4000) as u32, (le16(d, 8) % 0x4000) as u32)
    } else if fourcc == lit("VP8L") && d.len() >= 5 && d[0] == 0x2F {
        dims(
            (le32(d, 1) % 0x4000 + 1) as u32,
            (le32(d, 1) / 0x4000 % 0x4000 + 1) as u32,
        )
    } else {
        seq![]
    }
}

/// EXIF data without the marker that some writers put in front of it.
pub open spec fn unmarked(d: Seq<u8>) -> Seq<u8> {
    if has_prefix(d, lit("Exif\0\0")) {
        tail(d, 6)
    } else {
        d
    }
}

pub open spec fn finish(len: int) -> Local<WebpMode> {
    Local::Stop { st: WebpMode::Done, len, events: seq![], demand: Demand::Done }
}

/// The chunk at the front of `b`, with `left` bytes left of the container.
pub open spec fn chunk(left: u64, b: Seq<u8>) -> Local<WebpMode> {
    let st = WebpMode::Chunks { left };
    if left == 0 {
        finish(0)
    } else if b.len() < 8 {
        Local::Stop { st, len: 0, events: seq![], demand: need(8) }
    } else {
        let fourcc = b.subrange(0, 4);
        let size = le32(b, 4) as int;
        let pad = size % 2;
        let after = WebpMode::Chunks {
            left: if left < 8 + size + pad {
                0
            } else {
                (left - (8 + size + pad)) as u64
            },
        };
        match dims_len(fourcc) {
            Some(n) => {
                let end = 8 + if n < size {
                    n
                } else {
                    size
                };
                if b.len() < end {
                    Local::Stop { st, len: 0, events: seq![], demand: need(end) }
                } else {
                    Local::Stop {
                        st: after,
                        len: 8,
                        events: chunk_dims(fourcc, b.subrange(8, end)),
                        demand: Demand::Skip((size + pad) as u64),
                    }
                }
            },
            None => if fourcc == lit("EXIF") || fourcc == lit("XMP ") {
                let end = 8 + size;
                if end > usize::MAX {
                    finish(0)
                } else if b.len() < end {
                    Local::Stop { st, len: 0, events: seq![], demand: need(end) }
                } else {
                    let data = b.subrange(8, end);
                    let events = seq![
                        if fourcc == lit("EXIF") {
                            EventView::Payload { kind: PayloadKind::Exif, data: unmarked(data) }
                        } else {
                            EventView::Payload { kind: PayloadKind::Xmp, data }
                        },
                    ];
                    if pad > 0 {
                        Local::Stop { st: after, len: end, events, demand: Demand::Skip(1) }
                    } else {
                        Local::Next { st: after, len: end, events }
                    }
                }
            } else {
                Local::Stop {
                    st: after,
                    len: 8,
                    events: seq![],
                    demand: Demand::Skip((size + pad) as u64),
                }
            },
        }
    }
}

/// What stands at the front of `b`.
pub open spec fn webp_local(st: WebpMode, b: Seq<u8>) -> Local<WebpMode> {
    match st {
        WebpMode::Done => finish(0),
        WebpMode::Chunks { left } => chunk(left, b),
        WebpMode::Start => if b.len() < 12 {
            Local::Stop { st, len: 0, events: seq![], demand: need(12) }
        } else if !riff_webp(b) {
            finish(0)
        } else {
            Local::Next {
                st: WebpMode::Chunks {
                    left: if le32(b, 4) < 4 {
                        0
                    } else {
                        (le32(b, 4) - 4) as u64
                    },
                },
                len: 12,
                events: seq![],
            }
        },
    }
}

impl WebpParser {
    pub fn new() -> (r: Self)
        ensures
            r.mode() == WebpMode::Start,
    {
        WebpParser { mode: WebpMode::Start }
    }
}

impl Walker for WebpParser {
    type Mode = WebpMode;

    closed spec fn mode(&self) -> WebpMode {
        self.mode
    }

    open spec fn local(st: WebpMode, rest: Seq<u8>) -> Local<WebpMode> {
        webp_local(st, rest)
    }

    fn advance<'a>(&mut self, rest: &'a [u8], events: &mut Vec<Event<'a>>) -> (m: Move) {
        let ghost found = event_views(events@);
        assert(found + seq![] =~= found);
        let left: u64 = match self.mode {
            WebpMode::Done => {
                return Move::Stop(Demand::Done, 0);
            },
            WebpMode::Start => {
                if rest.len() < 12 {
                    return Move::Stop(Demand::NeedBytes(12), 0);
                }
                if !is_webp(rest) {
                    self.mode = WebpMode::Done;
                    return Move::Stop(Demand::Done, 0);
                }
                let filesize: u64 = read_le32(rest, 4) as u64;
                self.mode = WebpMode::Chunks { left: filesize.saturating_sub(4) };
                return Move::Next(12);
            },
            WebpMode::Chunks { left } => left,
        };
        if left == 0 {
            self.mode = WebpMode::Done;
            return Move::Stop(Demand::Done, 0);
        }
        if rest.len() < 8 {
            return Move::Stop(Demand::NeedBytes(8), 0);
        }
        let fourcc = part(rest, 0, 4);
        let size: u32 = read_le32(rest, 4);
        let pad: u64 = (size % 2) as u64;
        let after = WebpMode::Chunks { left: left.saturating_sub(8 + size as u64 + pad) };
        let prefix: u32 = if is_str(fourcc, "VP8X") || is_str(fourcc, "VP8 ") {
            10
        } else if is_str(fourcc, "VP8L") {
            5
        } else {
            0
        };
        if prefix > 0 {
            let take: usize = if prefix < size {
                prefix as usize
            } else {
                size as usize
            };
            if rest.len() < 8 + take {
                return Move::Stop(Demand::NeedBytes(8 + take), 0);
            }
            read_dimensions(fourcc, part(rest, 8, 8 + take), events);
            self.mode = after;
            return Move::Stop(Demand::Skip(size as u64 + pad), 8);
        }
        if is_str(fourcc, "EXIF") || is_str(fourcc, "XMP ") {
            if size as usize > usize::MAX - 8 {
                self.mode = WebpMode::Done;
                return Move::Stop(Demand::Done, 0);
            }
            let end: usize = 8 + size as usize;
            if rest.len() < end {
                return Move::Stop(Demand::NeedBytes(end), 0);
            }
            let data = part(rest, 8, end);
            if is_str(fourcc, "EXIF") {
                if starts_with(data, "Exif\0\0") {
                    proof {
                        lemma_exif_marker();
                    }
                    push_event(
                        events,
                        Event::Payload { kind: PayloadKind::Exif, data: part(data, 6, data.len()) },
                    );
                } else {
                    push_event(events, Event::Payload { kind: PayloadKind::Exif, data });
                }
            } else {
                push_event(events, Event::Payload { kind: PayloadKind::Xmp, data });
            }
            self.mode = after;
            if pad > 0 {
                return Move::Stop(Demand::Skip(1), end);
            }
            return Move::Next(end);
        }
        self.mode = after;
        Move::Stop(Demand::Skip(size as u64 + pad), 8)
    }
}

impl MetaParser for WebpParser {
    type State = WebpMode;

    open spec fn state(&self) -> WebpMode {
        self.mode()
    }

    open spec fn step(st: WebpMode, input: Seq<u8>) -> (WebpMode, PullView) {
        walk::<WebpParser>(st, input, 0, seq![])
    }

    fn pull<'a>(&mut self, input: &'a [u8]) -> (r: PullResult<'a>) {
        pull_units(self, input)
    }
}

/// Adds the size of the image that the front of a chunk gives.
fn read_dimensions<'a>(fourcc: &[u8], data: &[u8], events: &mut Vec<Event<'a>>)
    ensures
        event_views(final(events)@) == event_views(old(events)@) + chunk_dims(fourcc@, data@),
{
    assert(event_views(events@) + seq![] =~= event_views(events@));
    if is_str(fourcc, "VP8X") && data.len() >= 10 {
        push_dims(events, u24_le(data, 4) + 1, u24_le(data, 7) + 1);
    } else if is_str(fourcc, "VP8 ") && data.len() >= 10 && data[3] == 0x9D && data[4] == 0x01
        && data[5] == 0x2A {
        push_dims(
            events,
            (read_le16(data, 6) % 0x4000) as u32,
            (read_le16(data, 8) % 0x4000) as u32,
        );
    } else if is_str(fourcc, "VP8L") && data.len() >= 5 && data[0] == 0x2F {
        let bits: u32 = read_le32(data, 1);
        push_dims(events, bits % 0x4000 + 1, bits / 0x4000 % 0x4000 + 1);
    }
}

} // verus!
