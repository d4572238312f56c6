//! JPEG: segments from the start marker up to the first scan.
use vstd::prelude::*;

use crate::bytes::{be16, has_prefix, lit, part, read_be16, starts_with, tail};
use crate::demand::{
    dims, event_views, need, need_bytes, pull_units, push_dims, push_event, walk, Demand, Event,
    EventView, Local, MetaParser, Move, PayloadKind, PullResult, PullView, Walker,
};

verus! {

#[derive(Debug, Clone, Copy, PartialEq, Eq, Structural)]
pub enum JpegMode {
    /// Before the start marker.
    Start,
    /// At the start of a segment.
    Segments,
    Done,
}

#[derive(Debug)]
pub struct JpegParser {
    mode: JpegMode,
}

/// Where the run of fill bytes that covers `i` ends.
pub open spec fn fill_end(b: Seq<u8>, i: int) -> int
    decreases b.len() - i,
{
    if i < b.len() && b[i] == 0xFF {
        fill_end(b, i + 1)
    } else {
        i
    }
}

/// Markers that stand alone, without a length and a body.
pub open spec fn is_bare(m: u8) -> bool {
    m == 0x01 || 0xD0 <= m <= 0xD7
}

/// Markers of frame headers, which give the size of the image.
pub open spec fn is_frame(m: u8) -> bool {
    0xC0 <= m <= 0xCF && m != 0xC4 && m != 0xC8 && m != 0xCC
}

pub open spec fn wait(n: int) -> Local<JpegMode> {
    Local::Stop { st: JpegMode::Segments, len: 0, events: seq![], demand: need(n) }
}

pub open spec fn finish(len: int) -> Local<JpegMode> {
    Local::Stop { st: JpegMode::Done, len, events: seq![], demand: Demand::Done }
}

/// The EXIF payload that the body of an APP1 segment holds.
pub open spec fn exif_payload(body: Seq<u8>) -> Seq<EventView> {
    if has_prefix(body, lit("Exif\0\0")) {
        seq![EventView::Payload { kind: PayloadKind::Exif, data: tail(body, 6) }]
    } else {
        seq![]
    }
}

/// The segment at the front of `b`. `after` is where its marker ends.
pub open spec fn sized_segment(b: Seq<u8>, m: u8, after: int) -> Local<JpegMode> {
    if b.len() < after + 2 {
        wait(after + 2)
    } else if be16(b, after) < 2 {
        finish(0)
    } else if is_frame(m) {
        if b.len() < after + 7 {
            wait(after + 7)
        } else {
            Local::Stop {
                st: JpegMode::Segments,
                len: after + 2,
                events: dims(be16(b, after + 5) as u32, be16(b, after + 3) as u32),
                demand: Demand::Skip((be16(b, after) - 2) as u64),
            }
        }
    } else if m == 0xE1 {
        let end = after + be16(b, after);
        if b.len() < end {
            wait(end)
        } else {
            Local::Next {
                st: JpegMode::Segments,
                len: end,
                events: exif_payload(b.subrange(after + 2, end)),
            }
        }
    } else {
        Local::Stop {
            st: JpegMode::Segments,
            len: after + 2,
            events: seq![],
            demand: Demand::Skip((be16(b, after) - 2) as u64),
        }
    }
}

/// What stands at the front of `b`, where a segment is expected.
pub open spec fn segment(b: Seq<u8>) -> Local<JpegMode> {
    if b.len() == 0 {
        wait(2)
    } else if b[0] != 0xFF {
        finish(0)
    } else {
        let i = fill_end(b, 1);
        if i >= b.len() {
            wait(i + 1)
        } else if b[i] == 0xD9 || b[i] == 0xDA {
            finish(i + 1)
        } else if is_bare(b[i]) {
            Local::Next { st: JpegMode::Segments, len: i + 1, events: seq![] }
        } else if b[i] == 0 {
            finish(0)
        } else {
            sized_segment(b, b[i], i + 1)
        }
    }
}

/// What stands at the front of `b`.
pub open spec fn jpeg_local(st: JpegMode, b: Seq<u8>) -> Local<JpegMode> {
    match st {
        JpegMode::Done => finish(0),
        JpegMode::Segments => segment(b),
        JpegMode::Start => if b.len() < 2 {
            Local::Stop { st, len: 0, events: seq![], demand: need(2) }
        } else if b[0] != 0xFF || b[1] != 0xD8 {
            finish(0)
        } else {
            Local::Next { st: JpegMode::Segments, len: 2, events: seq![] }
        },
    }
}

pub proof fn lemma_fill_end(b: Seq<u8>, i: int)
    requires
        0 <= i <= b.len(),
    ensures
        i <= fill_end(b, i) <= b.len(),
        forall|j: int| i <= j < fill_end(b, i) ==> b[j] == 0xFF,
        fill_end(b, i) < b.len() ==> b[fill_end(b, i)] != 0xFF,
    decreases b.len() - i,
{
    if i < b.len() && b[i] == 0xFF {
        lemma_fill_end(b, i + 1);
    }
}

impl JpegParser {
    pub fn new() -> (r: Self)
        ensures
            r.mode() == JpegMode::Start,
    {
        JpegParser { mode: JpegMode::Start }
    }
}

impl Walker for JpegParser {
    type Mode = JpegMode;

    closed spec fn mode(&self) -> JpegMode {
        self.mode
    }

    open spec fn local(st: JpegMode, rest: Seq<u8>) -> Local<JpegMode> {
        jpeg_local(st, rest)
    }

    fn advance<'a>(&mut self, rest: &'a [u8], events: &mut Vec<Event<'a>>) -> (m: Move) {
        let ghost found = event_views(events@);
        assert(found + seq![] =~= found);
        match self.mode {
            JpegMode::Done => {
                return Move::Stop(Demand::Done, 0);
            },
            JpegMode::Start => {
                if rest.len() < 2 {
                    return Move::Stop(Demand::NeedBytes(2), 0);
                }
                if rest[0] != 0xFF || rest[1] != 0xD8 {
                    self.mode = JpegMode::Done;
                    return Move::Stop(Demand::Done, 0);
                }
                self.mode = JpegMode::Segments;
                return Move::Next(2);
            },
            JpegMode::Segments => {},
        }
        if rest.len() == 0 {
            return Move::Stop(Demand::NeedBytes(2), 0);
        }
        if rest[0] != 0xFF {
            self.mode = JpegMode::Done;
            return Move::Stop(Demand::Done, 0);
        }
        let mut i: usize = 1;
        while i < rest.len() && rest[i] == 0xFF
            invariant
                1 <= i <= rest@.len(),
                fill_end(rest@, i as int) == fill_end(rest@, 1),
            decreases rest@.len() - i,
        {
            i += 1;
        }
        if i >= rest.len() {
            return Move::Stop(need_bytes(i, 1), 0);
        }
        let marker: u8 = rest[i];
        let after: usize = i + 1;
        if marker == 0xD9 || marker == 0xDA {
            self.mode = JpegMode::Done;
            return Move::Stop(Demand::Done, after);
        }
        if marker == 0x01 || (0xD0 <= marker && marker <= 0xD7) {
            return Move::Next(after);
        }
        if marker == 0 {
            self.mode = JpegMode::Done;
            return Move::Stop(Demand::Done, 0);
        }
        let left: usize = rest.len() - after;
        if left < 2 {
            return Move::Stop(need_bytes(after, 2), 0);
        }
        let len: usize = read_be16(rest, after) as usize;
        if len < 2 {
            self.mode = JpegMode::Done;
            return Move::Stop(Demand::Done, 0);
        }
        if 0xC0 <= marker && marker <= 0xCF && marker != 0xC4 && marker != 0xC8 && marker != 0xCC {
            if left < 7 {
                return Move::Stop(need_bytes(after, 7), 0);
            }
            let h: u32 = read_be16(rest, after + 3) as u32;
            let w: u32 = read_be16(rest, after + 5) as u32;
            push_dims(events, w, h);
            return Move::Stop(Demand::Skip((len - 2) as u64), after + 2);
        }
        if marker == 0xE1 {
            if left < len {
                return Move::Stop(need_bytes(after, len), 0);
            }
            let body = part(rest, after + 2, after + len);
            if starts_with(body, "Exif\0\0") {
                proof {
                    lemma_exif_marker();
                }
                push_event(
                    events,
                    Event::Payload { kind: PayloadKind::Exif, data: part(body, 6, body.len()) },
                );
            }
            return Move::Next(after + len);
        }
        Move::Stop(Demand::Skip((len - 2) as u64), after + 2)
    }
}

impl MetaParser for JpegParser {
    type State = JpegMode;

    open spec fn state(&self) -> JpegMode {
        self.mode()
    }

    open spec fn step(st: JpegMode, input: Seq<u8>) -> (JpegMode, PullView) {
        walk::<JpegParser>(st, input, 0, seq![])
    }

    fn pull<'a>(&mut self, input: &'a [u8]) -> (r: PullResult<'a>) {
        pull_units(self, input)
    }
}

/// The marker in front of EXIF data is six bytes long.
pub proof fn lemma_exif_marker()
    ensures
        lit("Exif\0\0") == seq![0x45u8, 0x78, 0x69, 0x66, 0, 0],
{
    reveal_strlit("Exif\0\0");
    vstd::string::is_ascii_spec_bytes("Exif\0\0");
    assert(lit("Exif\0\0") =~= seq![0x45u8, 0x78, 0x69, 0x66, 0, 0]);
}

} // verus!
