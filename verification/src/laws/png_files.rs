//! PNG files, chunk by chunk: the size, the texts and the payloads that are read are those
//! that the chunks hold.
use vstd::prelude::*;
use vstd::utf8::{decode_utf8, valid_utf8};

use crate::adapters::slice::metadata_of;
use crate::bytes::{be32, find_from, lemma_find_from, lit, sat64, tail};
use crate::demand::{Demand, EventView, Local, PayloadKind};
use crate::driver::{finalized, handled_all, nothing, CollectorView};
use crate::formats::png::{
    chunk, chunk_events, is_read, itxt_events, itxt_text, keyword, signature, text_events,
    ztxt_events, KeywordView, PngMode,
};
use crate::laws::agreement::unit_run;
use crate::laws::files::{lemma_after, lemma_read, sized};
use crate::laws::image_items::{four_bytes, lemma_four};
use crate::laws::plain_files::lemma_straight;
use crate::laws::webp_files::{lemma_moves_on, moves_on};
use crate::limits::Limits;
use crate::model::{FileFormat, TextTagView, TextValueView};
use crate::probe::{any_local, probed, AnyMode};
use crate::text::latin1;

verus! {

/// A chunk by what it holds.
pub enum Held {
    /// The header: width, height, and the rest of it.
    Header { width: int, height: int, rest: Seq<u8> },
    /// EXIF data.
    Exif(Seq<u8>),
    /// A keyword and a text in Latin-1.
    Text { keyword: Seq<u8>, text: Seq<u8> },
    /// A keyword and a text that is compressed by some method.
    Packed { keyword: Seq<u8>, method: u8, text: Seq<u8> },
    /// A keyword and a text in UTF-8, with its language and the keyword in that language.
    Wide {
        keyword: Seq<u8>,
        packed: u8,
        method: u8,
        language: Seq<u8>,
        translated: Seq<u8>,
        text: Seq<u8>,
    },
    /// Anything else.
    Other { kind: Seq<u8>, data: Seq<u8> },
}

pub open spec fn kind_of(h: Held) -> Seq<u8> {
    match h {
        Held::Header { .. } => lit("IHDR"),
        Held::Exif(_) => lit("eXIf"),
        Held::Text { .. } => lit("tEXt"),
        Held::Packed { .. } => lit("zTXt"),
        Held::Wide { .. } => lit("iTXt"),
        Held::Other { kind, .. } => kind,
    }
}

pub open spec fn data_of(h: Held) -> Seq<u8> {
    match h {
        Held::Header { width, height, rest } => four_bytes(width) + four_bytes(height) + rest,
        Held::Exif(d) => d,
        Held::Text { keyword, text } => keyword + seq![0u8] + text,
        Held::Packed { keyword, method, text } => keyword + seq![0u8, method] + text,
        Held::Wide { keyword, packed, method, language, translated, text } => keyword + seq![
            0u8,
            packed,
            method,
        ] + (language + seq![0u8] + (translated + seq![0u8] + text)),
        Held::Other { data, .. } => data,
    }
}

/// A text without a zero byte.
pub open spec fn unbroken(s: Seq<u8>) -> bool {
    forall|i: int| 0 <= i < s.len() ==> s[i] != 0
}

pub open spec fn is_keyword(s: Seq<u8>) -> bool {
    unbroken(s) && 1 <= s.len() <= 79
}

/// A chunk as it may stand in a file before the end.
pub open spec fn proper(h: Held) -> bool {
    &&& data_of(h).len() < 0x8000_0000
    &&& match h {
        Held::Header { width, height, .. } => 0 <= width < 0x1_0000_0000 && 0 <= height
            < 0x1_0000_0000,
        Held::Exif(_) => true,
        Held::Text { keyword, .. } => is_keyword(keyword),
        Held::Packed { keyword, .. } => is_keyword(keyword),
        Held::Wide { keyword, language, translated, packed, text, .. } => is_keyword(keyword)
            && unbroken(language) && unbroken(translated) && (packed != 0 || keyword == lit(
            "XML:com.adobe.xmp",
        ) || valid_utf8(text)),
        Held::Other { kind, .. } => kind.len() == 4 && kind != lit("IHDR") && kind != lit("eXIf")
            && kind != lit("tEXt") && kind != lit("zTXt") && kind != lit("iTXt") && kind != lit(
            "IEND",
        ),
    }
}

/// Each byte as the character with that number.
pub open spec fn as_chars(b: Seq<u8>) -> Seq<char> {
    Seq::new(b.len(), |i: int| b[i] as char)
}

/// What a chunk tells.
pub open spec fn held_tells(h: Held) -> Seq<EventView> {
    match h {
        Held::Header { width, height, .. } => sized(width as u32, height as u32),
        Held::Exif(data) => seq![EventView::Payload { kind: PayloadKind::Exif, data }],
        Held::Text { keyword, text } => seq![
            EventView::Text(
                TextTagView {
                    keyword: as_chars(keyword),
                    value: TextValueView::Latin1(as_chars(text)),
                },
            ),
        ],
        Held::Packed { keyword, text, .. } => seq![
            EventView::Text(
                TextTagView {
                    keyword: as_chars(keyword),
                    value: TextValueView::CompressedLatin1(text),
                },
            ),
        ],
        Held::Wide { keyword, packed, text, .. } => seq![
            if packed != 0 {
                EventView::Text(
                    TextTagView {
                        keyword: as_chars(keyword),
                        value: TextValueView::CompressedUtf8(text),
                    },
                )
            } else if keyword == lit("XML:com.adobe.xmp") {
                EventView::Payload { kind: PayloadKind::Xmp, data: text }
            } else {
                EventView::Text(
                    TextTagView {
                        keyword: as_chars(keyword),
                        value: TextValueView::Utf8(decode_utf8(text)),
                    },
                )
            },
        ],
        Held::Other { .. } => seq![],
    }
}

pub open spec fn all_tell(hs: Seq<Held>) -> Seq<EventView>
    decreases hs.len(),
{
    if hs.len() == 0 {
        seq![]
    } else {
        held_tells(hs[0]) + all_tell(hs.drop_first())
    }
}

/// A chunk: how long its data is, its type, the data, and four bytes that are not looked at.
pub open spec fn a_chunk(kind: Seq<u8>, data: Seq<u8>, check: Seq<u8>) -> Seq<u8> {
    four_bytes(data.len() as int) + kind + data + check
}

pub open spec fn all_chunks(hs: Seq<Held>, checks: Seq<Seq<u8>>) -> Seq<u8>
    decreases hs.len(),
{
    if hs.len() == 0 {
        seq![]
    } else {
        a_chunk(kind_of(hs[0]), data_of(hs[0]), checks[0]) + all_chunks(
            hs.drop_first(),
            checks.drop_first(),
        )
    }
}

/// A PNG file of these chunks, with the end behind them and whatever follows it.
pub open spec fn png_file(hs: Seq<Held>, checks: Seq<Seq<u8>>, more: Seq<u8>) -> Seq<u8> {
    seq![0x89u8, 0x50u8, 0x4Eu8, 0x47u8, 0x0Du8, 0x0Au8, 0x1Au8, 0x0Au8] + all_chunks(hs, checks)
        + (seq![0u8, 0u8, 0u8, 0u8] + lit("IEND") + more)
}

pub open spec fn all_proper(hs: Seq<Held>, checks: Seq<Seq<u8>>) -> bool {
    &&& hs.len() == checks.len()
    &&& forall|i: int| 0 <= i < hs.len() ==> proper(#[trigger] hs[i]) && checks[i].len() == 4
}

proof fn lemma_words()
    ensures
        lit("IHDR").len() == 4,
        lit("eXIf").len() == 4,
        lit("tEXt").len() == 4,
        lit("zTXt").len() == 4,
        lit("iTXt").len() == 4,
        lit("IEND").len() == 4,
        lit("IHDR") != lit("IEND"),
        lit("IHDR") != lit("eXIf"),
        lit("IHDR") != lit("tEXt"),
        lit("IHDR") != lit("zTXt"),
        lit("IHDR") != lit("iTXt"),
        lit("eXIf") != lit("IEND"),
        lit("eXIf") != lit("tEXt"),
        lit("eXIf") != lit("zTXt"),
        lit("eXIf") != lit("iTXt"),
        lit("tEXt") != lit("IEND"),
        lit("tEXt") != lit("zTXt"),
        lit("tEXt") != lit("iTXt"),
        lit("zTXt") != lit("IEND"),
        lit("zTXt") != lit("iTXt"),
        lit("iTXt") != lit("IEND"),
{
    reveal_strlit("IHDR");
    reveal_strlit("eXIf");
    reveal_strlit("tEXt");
    reveal_strlit("zTXt");
    reveal_strlit("iTXt");
    reveal_strlit("IEND");
    vstd::string::is_ascii_spec_bytes("IHDR");
    vstd::string::is_ascii_spec_bytes("eXIf");
    vstd::string::is_ascii_spec_bytes("tEXt");
    vstd::string::is_ascii_spec_bytes("zTXt");
    vstd::string::is_ascii_spec_bytes("iTXt");
    vstd::string::is_ascii_spec_bytes("IEND");
    assert(lit("IHDR")[0] == 0x49 && lit("IHDR")[1] == 0x48);
    assert(lit("eXIf")[0] == 0x65);
    assert(lit("tEXt")[0] == 0x74);
    assert(lit("zTXt")[0] == 0x7A);
    assert(lit("iTXt")[0] == 0x69);
    assert(lit("IEND")[0] == 0x49 && lit("IEND")[1] == 0x45);
}

/// The first zero byte ends an unbroken text.
proof fn lemma_zero(s: Seq<u8>, x: Seq<u8>)
    requires
        unbroken(s),
    ensures
        ({
            let t = s + seq![0u8] + x;
            &&& find_from(t, 0, 0) == s.len()
            &&& t.subrange(0, s.len() as int) == s
            &&& tail(t, s.len() as int + 1) == x
        }),
{
    let t = s + seq![0u8] + x;
    lemma_find_from(t, 0, 0);
    let f = find_from(t, 0, 0);
    let n = s.len() as int;
    assert(t[n] == 0);
    if f < n {
        assert(t[f] == s[f]);
    }
    assert(t.subrange(0, n) =~= s);
    assert(tail(t, n + 1) =~= x);
}

proof fn lemma_keyword(s: Seq<u8>, x: Seq<u8>)
    requires
        is_keyword(s),
    ensures
        keyword(s + seq![0u8] + x) == KeywordView::Found(s, x),
{
    lemma_zero(s, x);
}

proof fn lemma_chars(b: Seq<u8>)
    ensures
        latin1(b) == as_chars(b),
{
    assert(latin1(b) =~= as_chars(b));
}

proof fn lemma_wide(
    k: Seq<u8>,
    packed: u8,
    method: u8,
    language: Seq<u8>,
    translated: Seq<u8>,
    text: Seq<u8>,
    off: u64,
)
    requires
        is_keyword(k),
        unbroken(language),
        unbroken(translated),
        packed != 0 || k == lit("XML:com.adobe.xmp") || valid_utf8(text),
    ensures
        ({
            let h = Held::Wide { keyword: k, packed, method, language, translated, text };
            itxt_events(data_of(h), off) == held_tells(h)
        }),
{
    let h = Held::Wide { keyword: k, packed, method, language, translated, text };
    let inner = language + seq![0u8] + (translated + seq![0u8] + text);
    let rest = seq![packed, method] + inner;
    assert(data_of(h) =~= k + seq![0u8] + rest);
    lemma_keyword(k, rest);
    assert(tail(rest, 2) =~= inner);
    lemma_zero(language, translated + seq![0u8] + text);
    lemma_zero(translated, text);
    assert(itxt_text(inner) == Some(text));
    lemma_chars(k);
    assert(itxt_events(data_of(h), off) =~= held_tells(h));
}

/// What the chunks that are read tell.
proof fn lemma_held(h: Held, off: u64)
    requires
        proper(h),
        !(h is Other),
    ensures
        chunk_events(kind_of(h), data_of(h), off) == held_tells(h),
        is_read(kind_of(h)),
        kind_of(h) != lit("IEND"),
{
    lemma_words();
    match h {
        Held::Header { width, height, rest } => {
            let d = data_of(h);
            assert(d.subrange(0, 4) =~= four_bytes(width));
            assert(d.subrange(4, 8) =~= four_bytes(height));
            lemma_four(d, 0, width);
            lemma_four(d, 4, height);
            assert(chunk_events(kind_of(h), d, off) =~= held_tells(h));
        },
        Held::Exif(_) => {},
        Held::Text { keyword, text } => {
            lemma_keyword(keyword, text);
            lemma_chars(keyword);
            lemma_chars(text);
            assert(text_events(data_of(h), off) =~= held_tells(h));
        },
        Held::Packed { keyword, method, text } => {
            let rest = seq![method] + text;
            assert(data_of(h) =~= keyword + seq![0u8] + rest);
            lemma_keyword(keyword, rest);
            assert(tail(rest, 1) =~= text);
            lemma_chars(keyword);
            assert(ztxt_events(data_of(h)) =~= held_tells(h));
        },
        Held::Wide { keyword, packed, method, language, translated, text } => {
            lemma_wide(keyword, packed, method, language, translated, text, off);
        },
        Held::Other { .. } => {},
    }
}

spec fn at_chunk(at: int) -> AnyMode {
    AnyMode::Png(PngMode::Chunks { at: at as u64 })
}

proof fn lemma_bytes(kind: Seq<u8>, d: Seq<u8>, check: Seq<u8>, x: Seq<u8>)
    requires
        kind.len() == 4,
        check.len() == 4,
        d.len() < 0x8000_0000,
    ensures
        ({
            let b = a_chunk(kind, d, check) + x;
            &&& a_chunk(kind, d, check).len() == d.len() + 12
            &&& be32(b, 0) == d.len()
            &&& b.subrange(4, 8) == kind
            &&& b.subrange(8, 8 + d.len() as int) == d
            &&& tail(b, d.len() as int + 12) == x
        }),
{
    let b = a_chunk(kind, d, check) + x;
    assert(b.subrange(0, 4) =~= four_bytes(d.len() as int));
    lemma_four(b, 0, d.len() as int);
    assert(b.subrange(4, 8) =~= kind);
    assert(b.subrange(8, 8 + d.len() as int) =~= d);
    assert(tail(b, d.len() as int + 12) =~= x);
}

proof fn lemma_unit(h: Held, check: Seq<u8>, x: Seq<u8>, at: int)
    requires
        proper(h),
        check.len() == 4,
        0 <= at <= isize::MAX,
        a_chunk(kind_of(h), data_of(h), check).len() + x.len() + at <= isize::MAX,
    ensures
        moves_on(
            any_local(at_chunk(at), a_chunk(kind_of(h), data_of(h), check) + x),
            at_chunk(at + data_of(h).len() + 12),
            data_of(h).len() as int + 12,
            held_tells(h),
        ),
{
    lemma_words();
    lemma_bytes(kind_of(h), data_of(h), check, x);
    if !(h is Other) {
        lemma_held(h, sat64(at + 8));
    }
    reveal(any_local);
}

proof fn lemma_chunks(
    f: Seq<u8>,
    pos: int,
    hs: Seq<Held>,
    checks: Seq<Seq<u8>>,
    more: Seq<u8>,
    c: CollectorView,
)
    requires
        all_proper(hs, checks),
        0 <= pos <= f.len() <= isize::MAX,
        tail(f, pos) == all_chunks(hs, checks) + (seq![0u8, 0u8, 0u8, 0u8] + lit("IEND") + more),
    ensures
        unit_run(f, at_chunk(pos), pos, c) == handled_all(c, all_tell(hs)),
    decreases hs.len(),
{
    let end = seq![0u8, 0u8, 0u8, 0u8] + lit("IEND") + more;
    assert(tail(f, pos).len() == f.len() - pos);
    if hs.len() == 0 {
        lemma_words();
        let b = tail(f, pos);
        assert(b =~= end);
        assert(b.subrange(4, 8) =~= lit("IEND"));
        reveal(any_local);
        assert(any_local(at_chunk(pos), b) matches Local::Stop { demand: Demand::Done, events, .. }
            && events.len() == 0);
        assert(handled_all(c, seq![]) == c);
    } else {
        let h = hs[0];
        let (m, k) = (hs.drop_first(), checks.drop_first());
        let x = all_chunks(m, k) + end;
        let y = a_chunk(kind_of(h), data_of(h), checks[0]);
        assert(proper(hs[0]) && checks[0].len() == 4);
        assert(tail(f, pos) =~= y + x);
        lemma_unit(h, checks[0], x, pos);
        let n = data_of(h).len() as int + 12;
        lemma_words();
        lemma_bytes(kind_of(h), data_of(h), checks[0], x);
        lemma_moves_on(f, at_chunk(pos), pos, at_chunk(pos + n), n, held_tells(h), c);
        assert(tail(f, pos + n) =~= tail(tail(f, pos), n));
        assert forall|i: int| 0 <= i < m.len() implies proper(#[trigger] m[i]) && k[i].len() == 4 by {
            assert(m[i] == hs[i + 1] && k[i] == checks[i + 1]);
            assert(proper(hs[i + 1]));
        }
        lemma_chunks(f, pos + n, m, k, more, handled_all(c, held_tells(h)));
        lemma_after(c, held_tells(h), all_tell(m));
    }
}

/// A PNG file is read as what its chunks tell, one after the other up to the end: the size of
/// the image, EXIF data, XMP, and texts under their keywords.
#[verifier::rlimit(60)]
pub proof fn png_chunks_are_read(hs: Seq<Held>, checks: Seq<Seq<u8>>, more: Seq<u8>, l: Limits)
    requires
        all_proper(hs, checks),
        png_file(hs, checks, more).len() <= isize::MAX,
    ensures
        metadata_of(png_file(hs, checks, more), l) == Some(
            finalized(handled_all(nothing(l), all_tell(hs)), FileFormat::Png),
        ),
{
    let f = png_file(hs, checks, more);
    assert(signature(f));
    assert(probed(f) == FileFormat::Png);
    let st = AnyMode::Png(PngMode::Start);
    lemma_straight(f, st, 0);
    lemma_read(f, l);
    assert(tail(f, 0) =~= f);
    assert(moves_on(any_local(st, f), at_chunk(8), 8, seq![])) by {
        reveal(any_local);
    }
    lemma_moves_on(f, st, 0, at_chunk(8), 8, seq![], nothing(l));
    assert(handled_all(nothing(l), seq![]) == nothing(l));
    assert(tail(f, 8) =~= all_chunks(hs, checks) + (seq![0u8, 0u8, 0u8, 0u8] + lit("IEND") + more));
    lemma_chunks(f, 8, hs, checks, more, nothing(l));
}

} // verus!
