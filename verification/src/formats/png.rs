//! PNG: chunks behind the signature.
use vstd::prelude::*;

use crate::bytes::{be32, find_byte, find_from, is_str, lit, part, read_be32, sat64, tail};
use crate::demand::{
    dims, event_views, need, pull_units, push_dims, push_event, walk, Demand, Event, EventView,
    Local, MetaParser, Move, PayloadKind, PullResult, PullView, Walker,
};
use crate::model::{TextTag, TextTagView, TextValue, TextValueView, WarnKind, Warning};
use crate::text::{latin1, latin1_to_string, utf8, utf8_text};

verus! {

#[derive(Debug, Clone, Copy, PartialEq, Eq, Structural)]
pub enum PngMode {
    /// Before the signature.
    Start,
    /// At a chunk, `at` bytes into the file.
    Chunks { at: u64 },
    Done,
}

#[derive(Debug)]
pub struct PngParser {
    mode: PngMode,
}

/// Whether `b` begins with the eight bytes of the signature.
pub open spec fn signature(b: Seq<u8>) -> bool {
    &&& b.len() >= 8
    &&& b[0] == 0x89
    &&& b[1] == 0x50
    &&& b[2] == 0x4E
    &&& b[3] == 0x47
    &&& b[4] == 0x0D
    &&& b[5] == 0x0A
    &&& b[6] == 0x1A
    &&& b[7] == 0x0A
}

pub fn is_png(b: &[u8]) -> (r: bool)
    ensures
        r == signature(b@),
{
    b.len() >= 8 && b[0] == 0x89 && b[1] == 0x50 && b[2] == 0x4E && b[3] == 0x47 && b[4] == 0x0D
        && b[5] == 0x0A && b[6] == 0x1A && b[7] == 0x0A
}

/// The keyword in front of a text chunk.
pub enum KeywordView {
    /// The keyword, and what follows its zero byte.
    Found(Seq<u8>, Seq<u8>),
    /// No zero byte, or nothing before it.
    Malformed,
    /// Longer than 79 bytes.
    TooLong,
}

pub open spec fn keyword(data: Seq<u8>) -> KeywordView {
    let nul = find_from(data, 0, 0);
    if nul == data.len() || nul == 0 {
        KeywordView::Malformed
    } else if nul > 79 {
        KeywordView::TooLong
    } else {
        KeywordView::Found(data.subrange(0, nul), tail(data, nul + 1))
    }
}

/// A warning that the text chunk whose data is at `off` is not recognized.
pub open spec fn unrecognized(off: u64) -> Seq<EventView> {
    seq![EventView::Warning(Warning { offset: off, kind: WarnKind::UnrecognizedValue })]
}

pub open spec fn text_event(kw: Seq<u8>, value: TextValueView) -> Seq<EventView> {
    seq![EventView::Text(TextTagView { keyword: latin1(kw), value })]
}

/// A `tEXt` chunk: keyword and value in Latin-1.
pub open spec fn text_events(data: Seq<u8>, off: u64) -> Seq<EventView> {
    match keyword(data) {
        KeywordView::Found(kw, val) => text_event(kw, TextValueView::Latin1(latin1(val))),
        KeywordView::Malformed => seq![],
        KeywordView::TooLong => unrecognized(off),
    }
}

/// A `zTXt` chunk: keyword, compression method, compressed value.
pub open spec fn ztxt_events(data: Seq<u8>) -> Seq<EventView> {
    match keyword(data) {
        KeywordView::Found(kw, rest) if rest.len() > 0 => text_event(
            kw,
            TextValueView::CompressedLatin1(tail(rest, 1)),
        ),
        _ => seq![],
    }
}

/// The text of an `iTXt` chunk behind the compression flag and method: what follows the
/// language tag and the translated keyword, each of which ends in a zero byte.
pub open spec fn itxt_text(rest: Seq<u8>) -> Option<Seq<u8>> {
    let lang = find_from(rest, 0, 0);
    if lang >= rest.len() {
        None
    } else {
        let rest2 = tail(rest, lang + 1);
        let trans = find_from(rest2, 0, 0);
        if trans >= rest2.len() {
            None
        } else {
            Some(tail(rest2, trans + 1))
        }
    }
}

/// An `iTXt` chunk: an XMP packet, or text in UTF-8, or compressed text.
pub open spec fn itxt_events(data: Seq<u8>, off: u64) -> Seq<EventView> {
    match keyword(data) {
        KeywordView::Malformed => seq![],
        KeywordView::TooLong => unrecognized(off),
        KeywordView::Found(kw, rest) => if rest.len() < 2 {
            seq![]
        } else {
            match itxt_text(tail(rest, 2)) {
                None => seq![],
                Some(text) => if rest[0] != 0 {
                    text_event(kw, TextValueView::CompressedUtf8(text))
                } else if kw == lit("XML:com.adobe.xmp") {
                    seq![EventView::Payload { kind: PayloadKind::Xmp, data: text }]
                } else {
                    match utf8(text) {
                        Some(s) => text_event(kw, TextValueView::Utf8(s)),
                        None => unrecognized(off),
                    }
                },
            }
        },
    }
}

/// What the chunk of the given type tells. `off` is where its data is in the file.
pub open spec fn chunk_events(ctype: Seq<u8>, data: Seq<u8>, off: u64) -> Seq<EventView> {
    if ctype == lit("IHDR") {
        if data.len() >= 8 {
            dims(be32(data, 0), be32(data, 4))
        } else {
            seq![]
        }
    } else if ctype == lit("eXIf") {
        seq![EventView::Payload { kind: PayloadKind::Exif, data }]
    } else if ctype == lit("iTXt") {
        itxt_events(data, off)
    } else if ctype == lit("tEXt") {
        text_events(data, off)
    } else {
        ztxt_events(data)
    }
}

/// Chunks that are read; others are skipped.
pub open spec fn is_read(ctype: Seq<u8>) -> bool {
    ||| ctype == lit("IHDR")
    ||| ctype == lit("eXIf")
    ||| ctype == lit("iTXt")
    ||| ctype == lit("tEXt")
    ||| ctype == lit("zTXt")
}

pub open spec fn finish(len: int) -> Local<PngMode> {
    Local::Stop { st: PngMode::Done, len, events: seq![], demand: Demand::Done }
}

/// The chunk at the front of `b`, `at` bytes into the file.
pub open spec fn chunk(at: u64, b: Seq<u8>) -> Local<PngMode> {
    let st = PngMode::Chunks { at };
    if b.len() < 8 {
        Local::Stop { st, len: 0, events: seq![], demand: need(8) }
    } else {
        let len = be32(b, 0) as int;
        let ctype = b.subrange(4, 8);
        let after = PngMode::Chunks { at: sat64(at + len + 12) };
        if ctype == lit("IEND") {
            finish(8)
        } else if !is_read(ctype) {
            Local::Stop {
                st: after,
                len: 8,
                events: seq![],
                demand: Demand::Skip((len + 4) as u64),
            }
        } else if len + 12 > usize::MAX {
            finish(0)
        } else if b.len() < len + 12 {
            Local::Stop { st, len: 0, events: seq![], demand: need(len + 12) }
        } else {
            Local::Next {
                st: after,
                len: len + 12,
                events: chunk_events(ctype, b.subrange(8, 8 + len), sat64(at + 8)),
            }
        }
    }
}

/// What stands at the front of `b`.
pub open spec fn png_local(st: PngMode, b: Seq<u8>) -> Local<PngMode> {
    match st {
        PngMode::Done => finish(0),
        PngMode::Chunks { at } => chunk(at, b),
        PngMode::Start => if b.len() < 8 {
            Local::Stop { st, len: 0, events: seq![], demand: need(8) }
        } else if !signature(b) {
            finish(0)
        } else {
            Local::Next { st: PngMode::Chunks { at: 8 }, len: 8, events: seq![] }
        },
    }
}

impl PngParser {
    pub fn new() -> (r: Self)
        ensures
            r.mode() == PngMode::Start,
    {
        PngParser { mode: PngMode::Start }
    }
}

impl Walker for PngParser {
    type Mode = PngMode;

    closed spec fn mode(&self) -> PngMode {
        self.mode
    }

    open spec fn local(st: PngMode, rest: Seq<u8>) -> Local<PngMode> {
        png_local(st, rest)
    }

    fn advance<'a>(&mut self, rest: &'a [u8], events: &mut Vec<Event<'a>>) -> (m: Move) {
        let ghost found = event_views(events@);
        assert(found + seq![] =~= found);
        let at: u64 = match self.mode {
            PngMode::Done => {
                return Move::Stop(Demand::Done, 0);
            },
            PngMode::Start => {
                if rest.len() < 8 {
                    return Move::Stop(Demand::NeedBytes(8), 0);
                }
                if !is_png(rest) {
                    self.mode = PngMode::Done;
                    return Move::Stop(Demand::Done, 0);
                }
                self.mode = PngMode::Chunks { at: 8 };
                return Move::Next(8);
            },
            PngMode::Chunks { at } => at,
        };
        if rest.len() < 8 {
            return Move::Stop(Demand::NeedBytes(8), 0);
        }
        let len: u32 = read_be32(rest, 0);
        let ctype = part(rest, 4, 8);
        if is_str(ctype, "IEND") {
            self.mode = PngMode::Done;
            return Move::Stop(Demand::Done, 8);
        }
        let is_meta = is_str(ctype, "IHDR") || is_str(ctype, "eXIf") || is_str(ctype, "iTXt")
            || is_str(ctype, "tEXt") || is_str(ctype, "zTXt");
        let after: u64 = at.saturating_add(len as u64 + 12);
        if !is_meta {
            self.mode = PngMode::Chunks { at: after };
            return Move::Stop(Demand::Skip(len as u64 + 4), 8);
        }
        if len as usize > usize::MAX - 12 {
            self.mode = PngMode::Done;
            return Move::Stop(Demand::Done, 0);
        }
        let total: usize = len as usize + 12;
        if rest.len() < total {
            return Move::Stop(Demand::NeedBytes(total), 0);
        }
        let data = part(rest, 8, 8 + len as usize);
        let off: u64 = at.saturating_add(8);
        if is_str(ctype, "IHDR") {
            if data.len() >= 8 {
                push_dims(events, read_be32(data, 0), read_be32(data, 4));
            }
        } else if is_str(ctype, "eXIf") {
            push_event(events, Event::Payload { kind: PayloadKind::Exif, data });
        } else if is_str(ctype, "iTXt") {
            handle_itxt(data, off, events);
        } else if is_str(ctype, "tEXt") {
            handle_text(data, off, events);
        } else {
            handle_ztxt(data, events);
        }
        self.mode = PngMode::Chunks { at: after };
        Move::Next(total)
    }
}

impl MetaParser for PngParser {
    type State = PngMode;

    open spec fn state(&self) -> PngMode {
        self.mode()
    }

    open spec fn step(st: PngMode, input: Seq<u8>) -> (PngMode, PullView) {
        walk::<PngParser>(st, input, 0, seq![])
    }

    fn pull<'a>(&mut self, input: &'a [u8]) -> (r: PullResult<'a>) {
        pull_units(self, input)
    }
}

enum KwSplit<'a> {
    Found(&'a [u8], &'a [u8]),
    Malformed,
    TooLong,
}

/// Splits a text chunk at the zero byte behind its keyword.
fn split_keyword<'a>(data: &'a [u8]) -> (r: KwSplit<'a>)
    ensures
        match r {
            KwSplit::Found(kw, rest) => keyword(data@) == KeywordView::Found(kw@, rest@),
            KwSplit::Malformed => keyword(data@) is Malformed,
            KwSplit::TooLong => keyword(data@) is TooLong,
        },
{
    let nul: usize = match find_byte(data, 0) {
        Some(i) => i,
        None => return KwSplit::Malformed,
    };
    if nul == 0 {
        return KwSplit::Malformed;
    }
    if nul > 79 {
        return KwSplit::TooLong;
    }
    KwSplit::Found(part(data, 0, nul), part(data, nul + 1, data.len()))
}

/// Reads an `iTXt` chunk whose data is at `offset`.
fn handle_itxt<'a>(data: &'a [u8], offset: u64, events: &mut Vec<Event<'a>>)
    ensures
        event_views(final(events)@) == event_views(old(events)@) + itxt_events(data@, offset),
{
    let ghost found = event_views(events@);
    assert(found + seq![] =~= found);
    let (kw, after_kw) = match split_keyword(data) {
        KwSplit::Found(kw, rest) => (kw, rest),
        KwSplit::Malformed => return ,
        KwSplit::TooLong => {
            push_event(
                events,
                Event::Warning(Warning { offset, kind: WarnKind::UnrecognizedValue }),
            );
            return ;
        },
    };
    if after_kw.len() < 2 {
        return ;
    }
    let compressed = after_kw[0] != 0;
    let rest = part(after_kw, 2, after_kw.len());
    let lang_end: usize = match find_byte(rest, 0) {
        Some(p) => p,
        None => return ,
    };
    let rest2 = part(rest, lang_end + 1, rest.len());
    let tk_end: usize = match find_byte(rest2, 0) {
        Some(p) => p,
        None => return ,
    };
    let text = part(rest2, tk_end + 1, rest2.len());
    assert(itxt_text(tail(after_kw@, 2)) == Some(text@));
    if compressed {
        push_event(
            events,
            Event::Text(
                TextTag {
                    keyword: latin1_to_string(kw),
                    value: TextValue::CompressedUtf8(vstd::slice::slice_to_vec(text)),
                },
            ),
        );
        return ;
    }
    if is_str(kw, "XML:com.adobe.xmp") {
        push_event(events, Event::Payload { kind: PayloadKind::Xmp, data: text });
        return ;
    }
    match utf8_text(text) {
        Some(s) => push_event(
            events,
            Event::Text(
                TextTag { keyword: latin1_to_string(kw), value: TextValue::Utf8(s.to_owned()) },
            ),
        ),
        None => push_event(
            events,
            Event::Warning(Warning { offset, kind: WarnKind::UnrecognizedValue }),
        ),
    }
}

/// Reads a `tEXt` chunk whose data is at `offset`.
fn handle_text<'a>(data: &'a [u8], offset: u64, events: &mut Vec<Event<'a>>)
    ensures
        event_views(final(events)@) == event_views(old(events)@) + text_events(data@, offset),
{
    match split_keyword(data) {
        KwSplit::Found(kw, val) => push_event(
            events,
            Event::Text(
                TextTag {
                    keyword: latin1_to_string(kw),
                    value: TextValue::Latin1(latin1_to_string(val)),
                },
            ),
        ),
        KwSplit::Malformed => {
            assert(event_views(events@) + seq![] =~= event_views(events@));
        },
        KwSplit::TooLong => push_event(
            events,
            Event::Warning(Warning { offset, kind: WarnKind::UnrecognizedValue }),
        ),
    }
}

/// Reads a `zTXt` chunk; its value is kept compressed.
fn handle_ztxt<'a>(data: &'a [u8], events: &mut Vec<Event<'a>>)
    ensures
        event_views(final(events)@) == event_views(old(events)@) + ztxt_events(data@),
{
    assert(event_views(events@) + seq![] =~= event_views(events@));
    let (kw, after_kw) = match split_keyword(data) {
        KwSplit::Found(kw, rest) => (kw, rest),
        KwSplit::Malformed => return ,
        KwSplit::TooLong => return ,
    };
    if after_kw.len() == 0 {
        return ;
    }
    push_event(
        events,
        Event::Text(
            TextTag {
                keyword: latin1_to_string(kw),
                value: TextValue::CompressedLatin1(
                    vstd::slice::slice_to_vec(part(after_kw, 1, after_kw.len())),
                ),
            },
        ),
    );
}

} // verus!
