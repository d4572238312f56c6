//! What stripping does to the chunks of a PNG file, and which orientation it keeps.
use vstd::prelude::*;

use crate::adapters::strip_slice::stripped;
use crate::bytes::{be32, lit, tail};
use crate::cursor::Endian;
use crate::formats::png::signature;
use crate::laws::exif_data::{long, short};
use crate::laws::image_items::{four_bytes, lemma_four};
use crate::laws::jpeg_pieces::{begins, lemma_prefix};
use crate::laws::stripping::{
    lemma_chunk_types, lemma_orientation_bytes, png_kept, png_stripped_is_clean, png_synth,
};
use crate::model::FileFormat;
use crate::probe::probed;
use crate::strip::jpeg::{entry_orientation, tiff_orientation};
use crate::strip::png::{cdata, chunk_kind, ctype, whole_chunk};
use crate::strip::{RemovedKind, StripOptions};

verus! {

/// Where the `i`-th entry of the first directory is.
pub open spec fn entry_at(big: bool, b: Seq<u8>, i: int) -> int {
    long(big, b, 4) + 2 + 12 * i
}

/// EXIF data with a header, and a first directory that begins inside it.
pub open spec fn has_directory(big: bool, b: Seq<u8>) -> bool {
    &&& b.len() >= 8
    &&& b[0] == b[1]
    &&& b[0] == (if big {
        0x4Du8
    } else {
        0x49u8
    })
    &&& long(big, b, 4) + 2 <= b.len()
}

spec fn order(big: bool) -> Endian {
    if big {
        Endian::Big
    } else {
        Endian::Little
    }
}

proof fn lemma_entry(big: bool, b: Seq<u8>, at: int, n: int, i: int)
    requires
        0 <= i < n,
        at + 12 * i + 12 <= b.len(),
        short(big, b, at + 12 * i) == 0x0112,
        forall|j: int| 0 <= j < i ==> #[trigger] short(big, b, at + 12 * j) != 0x0112,
    ensures
        entry_orientation(order(big), b, at, n) == Some(short(big, b, at + 12 * i + 8) as u16),
    decreases n,
{
    if i > 0 {
        assert(short(big, b, at + 12 * 0) != 0x0112);
        assert forall|j: int| 0 <= j < i - 1 implies #[trigger] short(big, b, at + 12 + 12 * j)
            != 0x0112 by {
            assert(short(big, b, at + 12 * (j + 1)) != 0x0112);
        }
        assert(at + 12 + 12 * (i - 1) == at + 12 * i);
        lemma_entry(big, b, at + 12, n - 1, i - 1);
    }
}

/// The orientation that is kept is that of the first entry for it in the first directory, in
/// the byte order of the data.
pub proof fn the_first_orientation_is_kept(big: bool, b: Seq<u8>, i: int)
    requires
        has_directory(big, b),
        0 <= i < short(big, b, long(big, b, 4)),
        entry_at(big, b, i) + 12 <= b.len(),
        short(big, b, entry_at(big, b, i)) == 0x0112,
        forall|j: int| 0 <= j < i ==> #[trigger] short(big, b, entry_at(big, b, j)) != 0x0112,
    ensures
        tiff_orientation(b) == Some(short(big, b, entry_at(big, b, i) + 8) as u16),
{
    let at = long(big, b, 4) + 2;
    assert(entry_at(big, b, i) == at + 12 * i);
    assert forall|j: int| 0 <= j < i implies #[trigger] short(big, b, at + 12 * j) != 0x0112 by {
        assert(entry_at(big, b, j) == at + 12 * j);
        assert(short(big, b, entry_at(big, b, j)) != 0x0112);
    }
    lemma_entry(big, b, at, short(big, b, long(big, b, 4)), i);
}

proof fn lemma_no_entry(big: bool, b: Seq<u8>, at: int, n: int)
    requires
        forall|j: int|
            0 <= j < n && at + 12 * j + 12 <= b.len() ==> #[trigger] short(big, b, at + 12 * j)
                != 0x0112,
    ensures
        entry_orientation(order(big), b, at, n) is None,
    decreases n,
{
    if n > 0 && at + 12 <= b.len() {
        assert(short(big, b, at + 12 * 0) != 0x0112);
        assert forall|j: int| 0 <= j < n - 1 && at + 12 + 12 * j + 12 <= b.len() implies
            #[trigger] short(big, b, at + 12 + 12 * j) != 0x0112 by {
            assert(short(big, b, at + 12 * (j + 1)) != 0x0112);
        }
        lemma_no_entry(big, b, at + 12, n - 1);
    }
}

/// Without such an entry there is no orientation to keep.
pub proof fn no_orientation_is_made_up(big: bool, b: Seq<u8>)
    requires
        has_directory(big, b),
        forall|j: int|
            0 <= j < short(big, b, long(big, b, 4)) && entry_at(big, b, j) + 12 <= b.len()
                ==> #[trigger] short(big, b, entry_at(big, b, j)) != 0x0112,
    ensures
        tiff_orientation(b) is None,
{
    let at = long(big, b, 4) + 2;
    let n = short(big, b, long(big, b, 4));
    assert forall|j: int| 0 <= j < n && at + 12 * j + 12 <= b.len() implies #[trigger] short(
        big,
        b,
        at + 12 * j,
    ) != 0x0112 by {
        assert(entry_at(big, b, j) == at + 12 * j);
        assert(short(big, b, entry_at(big, b, j)) != 0x0112);
    }
    lemma_no_entry(big, b, at, n);
}

/// A chunk: its type, its data, and its checksum, which is not looked at.
pub struct Chunk {
    pub kind: Seq<u8>,
    pub data: Seq<u8>,
    pub check: Seq<u8>,
}

pub open spec fn chunk_text(c: Chunk) -> Seq<u8> {
    four_bytes(c.data.len() as int) + c.kind + c.data + c.check
}

pub open spec fn texts(cs: Seq<Chunk>) -> Seq<u8>
    decreases cs.len(),
{
    if cs.len() == 0 {
        seq![]
    } else {
        chunk_text(cs[0]) + texts(cs.drop_first())
    }
}

pub open spec fn whole(c: Chunk) -> bool {
    c.kind.len() == 4 && c.check.len() == 4 && c.data.len() < 0x1_0000_0000
}

/// What a chunk holds that is to go: EXIF data, texts, and a profile, unless it is kept.
pub open spec fn goes_as(c: Chunk, keep_icc: bool) -> Option<RemovedKind> {
    if c.kind == lit("eXIf") {
        Some(RemovedKind::Exif)
    } else if c.kind == lit("tEXt") || c.kind == lit("zTXt") || c.kind == lit("iTXt") {
        if begins(c.data, "XML:com.adobe.xmp") {
            Some(RemovedKind::Xmp)
        } else {
            Some(RemovedKind::Other)
        }
    } else if c.kind == lit("iCCP") && !keep_icc {
        Some(RemovedKind::Icc)
    } else {
        None
    }
}

/// The chunks that stay.
pub open spec fn remaining(cs: Seq<Chunk>, keep_icc: bool) -> Seq<Chunk>
    decreases cs.len(),
{
    if cs.len() == 0 {
        seq![]
    } else if goes_as(cs[0], keep_icc) is None {
        seq![cs[0]] + remaining(cs.drop_first(), keep_icc)
    } else {
        remaining(cs.drop_first(), keep_icc)
    }
}

/// The first orientation that the EXIF data among the chunks gives.
pub open spec fn orientation_among(cs: Seq<Chunk>) -> Option<u16>
    decreases cs.len(),
{
    if cs.len() == 0 {
        None
    } else if cs[0].kind == lit("eXIf") && tiff_orientation(cs[0].data) is Some {
        tiff_orientation(cs[0].data)
    } else {
        orientation_among(cs.drop_first())
    }
}

/// Chunks before the image data.
pub open spec fn head_chunks(cs: Seq<Chunk>) -> bool {
    forall|i: int|
        0 <= i < cs.len() ==> whole(#[trigger] cs[i]) && cs[i].kind != lit("IDAT") && cs[i].kind
            != lit("IEND")
}

/// The image data and what follows it, up to the end.
pub open spec fn body_chunks(cs: Seq<Chunk>) -> bool {
    &&& cs.len() > 0 ==> cs[0].kind == lit("IDAT")
    &&& forall|i: int| 0 <= i < cs.len() ==> whole(#[trigger] cs[i]) && cs[i].kind != lit("IEND")
}

pub open spec fn png_sign() -> Seq<u8> {
    seq![0x89u8, 0x50u8, 0x4Eu8, 0x47u8, 0x0Du8, 0x0Au8, 0x1Au8, 0x0Au8]
}

/// A PNG file of these chunks, with the end behind them and whatever follows it.
pub open spec fn png_of(head: Seq<Chunk>, body: Seq<Chunk>, end: Chunk, more: Seq<u8>) -> Seq<u8> {
    png_sign() + (texts(head) + (texts(body) + (chunk_text(end) + more)))
}

proof fn lemma_front(c: Chunk, x: Seq<u8>)
    requires
        whole(c),
    ensures
        ({
            let t = chunk_text(c) + x;
            let n = 12 + c.data.len() as int;
            &&& chunk_text(c).len() == n
            &&& whole_chunk(t)
            &&& be32(t, 0) == c.data.len()
            &&& ctype(t) == c.kind
            &&& cdata(t) == c.data
            &&& t.subrange(0, n) == chunk_text(c)
            &&& tail(t, n) == x
        }),
{
    let t = chunk_text(c) + x;
    let n = 12 + c.data.len() as int;
    assert(t.subrange(0, 4) =~= four_bytes(c.data.len() as int));
    lemma_four(t, 0, c.data.len() as int);
    assert(ctype(t) =~= c.kind);
    assert(cdata(t) =~= c.data);
    assert(t.subrange(0, n) =~= chunk_text(c));
    assert(tail(t, n) =~= x);
}

proof fn lemma_goes(c: Chunk, opts: StripOptions)
    ensures
        chunk_kind(c.kind, c.data, opts) == goes_as(c, opts.keep_icc),
{
    lemma_prefix(c.data, "XML:com.adobe.xmp");
}

/// One chunk before the end.
proof fn lemma_kept_chunk(
    c: Chunk,
    x: Seq<u8>,
    found: Option<u16>,
    open: bool,
    opts: StripOptions,
)
    requires
        whole(c),
        c.kind != lit("IEND"),
    ensures
        png_kept(chunk_text(c) + x, found, open, opts) == (if open && c.kind == lit("IDAT") {
            png_synth(found)
        } else {
            seq![]
        }) + (if goes_as(c, opts.keep_icc) is None {
            chunk_text(c)
        } else {
            seq![]
        }) + png_kept(
            x,
            if c.kind == lit("eXIf") && opts.keep_orientation && found is None {
                tiff_orientation(c.data)
            } else {
                found
            },
            open && c.kind != lit("IDAT"),
            opts,
        ),
{
    lemma_front(c, x);
    lemma_goes(c, opts);
}

proof fn lemma_texts(c: Chunk, cs: Seq<Chunk>)
    ensures
        texts(seq![c] + cs) == chunk_text(c) + texts(cs),
{
    assert((seq![c] + cs).drop_first() =~= cs);
}

proof fn lemma_join(a: Seq<u8>, b: Seq<u8>, c: Seq<u8>)
    ensures
        a + (b + c) == a + b + c,
        seq![] + a == a,
        a + seq![] == a,
{
    assert(a + (b + c) =~= a + b + c);
    assert(seq![] + a =~= a);
    assert(a + seq![] =~= a);
}

proof fn lemma_head(cs: Seq<Chunk>, x: Seq<u8>, found: Option<u16>, opts: StripOptions)
    requires
        head_chunks(cs),
        opts.keep_orientation || found is None,
    ensures
        png_kept(texts(cs) + x, found, true, opts) == texts(remaining(cs, opts.keep_icc)) + png_kept(
            x,
            if found is Some || !opts.keep_orientation {
                found
            } else {
                orientation_among(cs)
            },
            true,
            opts,
        ),
    decreases cs.len(),
{
    if cs.len() == 0 {
        lemma_join(x, x, x);
        assert(texts(cs) + x =~= x);
        let y = png_kept(x, found, true, opts);
        assert(texts(remaining(cs, opts.keep_icc)) + y =~= y);
    } else {
        let c = cs[0];
        let m = cs.drop_first();
        assert(whole(c) && c.kind != lit("IDAT") && c.kind != lit("IEND"));
        assert forall|i: int| 0 <= i < m.len() implies whole(#[trigger] m[i]) && m[i].kind != lit(
            "IDAT",
        ) && m[i].kind != lit("IEND") by {
            assert(m[i] == cs[i + 1]);
        }
        lemma_join(chunk_text(c), texts(m), x);
        lemma_kept_chunk(c, texts(m) + x, found, true, opts);
        let f = if c.kind == lit("eXIf") && opts.keep_orientation && found is None {
            tiff_orientation(c.data)
        } else {
            found
        };
        lemma_head(m, x, f, opts);
        let r = remaining(m, opts.keep_icc);
        lemma_texts(c, r);
        let y = png_kept(
            x,
            if found is Some || !opts.keep_orientation {
                found
            } else {
                orientation_among(cs)
            },
            true,
            opts,
        );
        lemma_join(chunk_text(c), texts(r), y);
        lemma_join(texts(r), texts(r), y);
        lemma_join(texts(r) + y, y, y);
        assert(seq![] + seq![] + (texts(r) + y) =~= texts(r) + y);
        assert(seq![] + chunk_text(c) + (texts(r) + y) =~= chunk_text(c) + (texts(r) + y));
    }
}

proof fn lemma_body(cs: Seq<Chunk>, x: Seq<u8>, found: Option<u16>, opts: StripOptions)
    requires
        forall|i: int|
            0 <= i < cs.len() ==> whole(#[trigger] cs[i]) && cs[i].kind != lit("IEND"),
        forall|g: Option<u16>| #[trigger]
            png_kept(x, g, false, opts) == png_kept(x, found, false, opts),
    ensures
        png_kept(texts(cs) + x, found, false, opts) == texts(remaining(cs, opts.keep_icc))
            + png_kept(x, found, false, opts),
        forall|g: Option<u16>| #[trigger]
            png_kept(texts(cs) + x, g, false, opts) == png_kept(texts(cs) + x, found, false, opts),
    decreases cs.len(),
{
    let y = png_kept(x, found, false, opts);
    if cs.len() == 0 {
        assert(texts(cs) + x =~= x);
        assert(texts(remaining(cs, opts.keep_icc)) + y =~= y);
    } else {
        let c = cs[0];
        let m = cs.drop_first();
        assert(whole(c) && c.kind != lit("IEND"));
        assert forall|i: int| 0 <= i < m.len() implies whole(#[trigger] m[i]) && m[i].kind != lit(
            "IEND",
        ) by {
            assert(m[i] == cs[i + 1]);
        }
        lemma_join(chunk_text(c), texts(m), x);
        lemma_body(m, x, found, opts);
        let r = remaining(m, opts.keep_icc);
        lemma_texts(c, r);
        lemma_join(chunk_text(c), texts(r), y);
        assert(seq![] + seq![] + (texts(r) + y) =~= texts(r) + y);
        assert(seq![] + chunk_text(c) + (texts(r) + y) =~= chunk_text(c) + (texts(r) + y));
        lemma_kept_chunk(c, texts(m) + x, found, false, opts);
        assert forall|g: Option<u16>| #[trigger]
            png_kept(texts(cs) + x, g, false, opts) == png_kept(
                texts(cs) + x,
                found,
                false,
                opts,
            ) by {
            lemma_kept_chunk(c, texts(m) + x, g, false, opts);
        }
    }
}

proof fn lemma_end(
    end: Chunk,
    more: Seq<u8>,
    found: Option<u16>,
    open: bool,
    opts: StripOptions,
)
    requires
        whole(end),
        end.kind == lit("IEND"),
    ensures
        png_kept(chunk_text(end) + more, found, open, opts) == (if open {
            png_synth(found)
        } else {
            seq![]
        }) + chunk_text(end),
{
    lemma_front(end, more);
    lemma_goes(end, opts);
    lemma_chunk_types();
    lemma_end_stays(end, opts.keep_icc);
}

proof fn lemma_end_stays(c: Chunk, keep_icc: bool)
    requires
        c.kind == lit("IEND") || c.kind == lit("IDAT"),
    ensures
        goes_as(c, keep_icc) is None,
        lit("IEND") != lit("IDAT"),
{
    reveal_strlit("IEND");
    reveal_strlit("IDAT");
    reveal_strlit("eXIf");
    reveal_strlit("tEXt");
    reveal_strlit("zTXt");
    reveal_strlit("iTXt");
    reveal_strlit("iCCP");
    vstd::string::is_ascii_spec_bytes("IEND");
    vstd::string::is_ascii_spec_bytes("IDAT");
    vstd::string::is_ascii_spec_bytes("eXIf");
    vstd::string::is_ascii_spec_bytes("tEXt");
    vstd::string::is_ascii_spec_bytes("zTXt");
    vstd::string::is_ascii_spec_bytes("iTXt");
    vstd::string::is_ascii_spec_bytes("iCCP");
    assert(lit("IEND")[0] == 0x49 && lit("IDAT")[0] == 0x49);
    assert(lit("IEND")[1] == 0x45 && lit("IDAT")[1] == 0x44);
    assert(lit("eXIf")[0] == 0x65 && lit("tEXt")[0] == 0x74 && lit("zTXt")[0] == 0x7A && lit(
        "iTXt",
    )[0] == 0x69 && lit("iCCP")[0] == 0x69);
}

/// A chunk with the smallest EXIF data, which holds an orientation and nothing else.
pub open spec fn orientation_chunk(v: u16, check: Seq<u8>) -> Chunk {
    Chunk {
        kind: lit("eXIf"),
        data: seq![
            0x49u8, 0x49u8, 42u8, 0u8, 8u8, 0u8, 0u8, 0u8, 1u8, 0u8, 0x12u8, 0x01u8, 3u8, 0u8,
            1u8, 0u8, 0u8, 0u8, (v % 0x100) as u8, (v / 0x100) as u8, 0u8, 0u8, 0u8, 0u8, 0u8,
            0u8,
        ],
        check,
    }
}

proof fn lemma_synth(v: u16) -> (check: Seq<u8>)
    ensures
        check.len() == 4,
        png_synth(Some(v)) == chunk_text(orientation_chunk(v, check)),
{
    lemma_orientation_bytes(v);
    let s = png_synth(Some(v));
    let check = crate::bytes::be32_bytes(
        crate::strip::crc32::crc(
            lit("eXIf") + crate::strip::exif_synth::orientation_bytes(v),
        ),
    );
    assert(crate::bytes::be32_bytes(26) =~= four_bytes(26));
    assert(s =~= chunk_text(orientation_chunk(v, check)));
    check
}

/// Stripping a PNG file takes out the chunks with metadata. The other chunks stand in the
/// output as they were and in their order; before the image data stands, where it is to be
/// kept, the first orientation that the EXIF data before it gave; and what follows the end goes.
#[verifier::rlimit(40)]
pub proof fn png_chunks_stay(
    head: Seq<Chunk>,
    body: Seq<Chunk>,
    end: Chunk,
    more: Seq<u8>,
    opts: StripOptions,
) -> (check: Seq<u8>)
    requires
        head_chunks(head),
        body_chunks(body),
        whole(end),
        end.kind == lit("IEND"),
    ensures
        check.len() == 4,
        stripped(png_of(head, body, end, more), opts) matches Ok(s) && s.out == png_sign() + (texts(
            remaining(head, opts.keep_icc),
        ) + ((match orientation_among(head) {
            Some(v) if opts.keep_orientation => chunk_text(orientation_chunk(v, check)),
            _ => seq![],
        }) + (texts(remaining(body, opts.keep_icc)) + chunk_text(end)))),
{
    let t = texts(head) + (texts(body) + (chunk_text(end) + more));
    lemma_file(t, opts);
    lemma_all(head, body, end, more, opts)
}

/// All chunks, before a part that does not count.
#[verifier::rlimit(60)]
proof fn lemma_all(
    head: Seq<Chunk>,
    body: Seq<Chunk>,
    end: Chunk,
    more: Seq<u8>,
    opts: StripOptions,
) -> (check: Seq<u8>)
    requires
        head_chunks(head),
        body_chunks(body),
        whole(end),
        end.kind == lit("IEND"),
    ensures
        check.len() == 4,
        png_kept(texts(head) + (texts(body) + (chunk_text(end) + more)), None, true, opts) == texts(
            remaining(head, opts.keep_icc),
        ) + ((match orientation_among(head) {
            Some(v) if opts.keep_orientation => chunk_text(orientation_chunk(v, check)),
            _ => seq![],
        }) + (texts(remaining(body, opts.keep_icc)) + chunk_text(end))),
{
    let x = texts(body) + (chunk_text(end) + more);
    lemma_head(head, x, None, opts);
    let o = if opts.keep_orientation {
        orientation_among(head)
    } else {
        None
    };
    let check = match o {
        Some(v) => lemma_synth(v),
        None => seq![0u8, 0u8, 0u8, 0u8],
    };
    lemma_body_with(body, end, more, o, opts);
    check
}

proof fn lemma_file(t: Seq<u8>, opts: StripOptions)
    ensures
        stripped(png_sign() + t, opts) matches Ok(s) && s.out == png_sign() + png_kept(
            t,
            None,
            true,
            opts,
        ),
{
    let b = png_sign() + t;
    assert(signature(b));
    assert(probed(b) == FileFormat::Png);
    png_stripped_is_clean(b, opts);
    assert(tail(b, 8) =~= t);
    assert(b.subrange(0, 8) =~= png_sign());
}

/// The image data and the end, behind an orientation that is put in.
proof fn lemma_body_with(
    body: Seq<Chunk>,
    end: Chunk,
    more: Seq<u8>,
    o: Option<u16>,
    opts: StripOptions,
)
    requires
        body_chunks(body),
        whole(end),
        end.kind == lit("IEND"),
    ensures
        png_kept(texts(body) + (chunk_text(end) + more), o, true, opts) == png_synth(o) + (texts(
            remaining(body, opts.keep_icc),
        ) + chunk_text(end)),
{
    let y = chunk_text(end) + more;
    lemma_end(end, more, o, true, opts);
    assert forall|g: Option<u16>| #[trigger]
        png_kept(y, g, false, opts) == png_kept(y, o, false, opts) by {
        lemma_end(end, more, g, false, opts);
        lemma_end(end, more, o, false, opts);
    }
    lemma_end(end, more, o, false, opts);
    assert(seq![] + chunk_text(end) =~= chunk_text(end));
    let e = chunk_text(end);
    if body.len() == 0 {
        assert(texts(body) + y =~= y);
        assert(texts(remaining(body, opts.keep_icc)) + e =~= e);
    } else {
        let c = body[0];
        let m = body.drop_first();
        assert(whole(c) && c.kind == lit("IDAT"));
        lemma_end_stays(c, opts.keep_icc);
        assert forall|i: int| 0 <= i < m.len() implies whole(#[trigger] m[i]) && m[i].kind != lit(
            "IEND",
        ) by {
            assert(m[i] == body[i + 1]);
        }
        lemma_join(chunk_text(c), texts(m), y);
        lemma_kept_chunk(c, texts(m) + y, o, true, opts);
        lemma_body(m, y, o, opts);
        let r = remaining(m, opts.keep_icc);
        lemma_texts(c, r);
        lemma_join(chunk_text(c), texts(r), e);
        lemma_join(png_synth(o), chunk_text(c), texts(r) + e);
        assert(lit("IDAT") != lit("eXIf")) by {
            assert(goes_as(c, true) is None);
        }
    }
}

} // verus!
