//! What a parser makes of the bytes at hand does not change when more bytes arrive.
use vstd::prelude::*;

use crate::bytes::{be16, be32, find_from, tail};
use crate::containers::ebml::{element_header, vint_len};
use crate::containers::isobmff::box_header;
use crate::demand::{walk, Demand, EventView, Local, MetaParser};
use crate::formats::bmff::{bmff_local, BmffMode};
use crate::formats::ebml::{ebml_local, header_need as ebml_header_need, EbmlMode};
use crate::formats::gif::{gif_local, lemma_magic_from, magic_from, GifMode};
use crate::formats::jpeg::{fill_end, jpeg_local, lemma_fill_end, JpegMode};
use crate::formats::png::{png_local, PngMode};
use crate::formats::webp::{dims_len, webp_local, WebpMode};
use crate::probe::{any_local, AnyMode, AnyParser};

verus! {

/// The parser asks for more bytes before it goes on.
pub open spec fn waits<S>(l: Local<S>) -> bool {
    l matches Local::Stop { demand: Demand::NeedBytes(_), .. }
}

/// A parser that asks for more bytes has not moved, and asks for more than there are.
pub open spec fn waits_in_place<S>(st: S, b: Seq<u8>, l: Local<S>) -> bool {
    match l {
        Local::Stop { st: next, len, events, demand: Demand::NeedBytes(n) } => {
            &&& next == st
            &&& len == 0
            &&& events.len() == 0
            &&& n > b.len()
        },
        _ => true,
    }
}

proof fn lemma_fill_end_extends(b: Seq<u8>, more: Seq<u8>, i: int)
    requires
        0 <= i <= b.len(),
        fill_end(b, i) < b.len(),
    ensures
        fill_end(b + more, i) == fill_end(b, i),
    decreases b.len() - i,
{
    if i < b.len() && b[i] == 0xFF {
        lemma_fill_end_extends(b, more, i + 1);
    }
}

proof fn jpeg_stable(st: JpegMode, b: Seq<u8>, more: Seq<u8>)
    requires
        b.len() <= isize::MAX,
    ensures
        waits_in_place(st, b, jpeg_local(st, b)),
        !waits(jpeg_local(st, b)) ==> jpeg_local(st, b + more) == jpeg_local(st, b),
{
    let c = b + more;
    if st is Segments && b.len() > 0 && b[0] == 0xFF {
        lemma_fill_end(b, 1);
        let i = fill_end(b, 1);
        if i < b.len() {
            lemma_fill_end_extends(b, more, 1);
            let after = i + 1;
            if b.len() >= after + 2 {
                let end = after + be16(b, after);
                if be16(b, after) >= 2 && b.len() >= end {
                    assert(c.subrange(after + 2, end) =~= b.subrange(after + 2, end));
                }
            }
        }
    }
}

proof fn png_stable(st: PngMode, b: Seq<u8>, more: Seq<u8>)
    requires
        b.len() <= isize::MAX,
    ensures
        waits_in_place(st, b, png_local(st, b)),
        !waits(png_local(st, b)) ==> png_local(st, b + more) == png_local(st, b),
{
    let c = b + more;
    if b.len() >= 8 {
        assert(c.subrange(4, 8) =~= b.subrange(4, 8));
        if b.len() >= be32(b, 0) + 12 {
            assert(c.subrange(8, 8 + be32(b, 0)) =~= b.subrange(8, 8 + be32(b, 0)));
        }
    }
}

proof fn webp_stable(st: WebpMode, b: Seq<u8>, more: Seq<u8>)
    requires
        b.len() <= isize::MAX,
    ensures
        waits_in_place(st, b, webp_local(st, b)),
        !waits(webp_local(st, b)) ==> webp_local(st, b + more) == webp_local(st, b),
{
    let c = b + more;
    if b.len() >= 8 {
        assert(c.subrange(0, 4) =~= b.subrange(0, 4));
        let size = crate::bytes::le32(b, 4) as int;
        if 8 + size <= b.len() {
            assert(c.subrange(8, 8 + size) =~= b.subrange(8, 8 + size));
        }
        match dims_len(b.subrange(0, 4)) {
            Some(n) => {
                let end = 8 + if n < size {
                    n
                } else {
                    size
                };
                if end <= b.len() {
                    assert(c.subrange(8, end) =~= b.subrange(8, end));
                }
            },
            None => {},
        }
    }
    if b.len() >= 12 {
        assert(c.subrange(8, 12) =~= b.subrange(8, 12));
    }
}

proof fn lemma_find_from_extends(b: Seq<u8>, more: Seq<u8>, x: u8, i: int)
    requires
        0 <= i,
        find_from(b, x, i) < b.len(),
    ensures
        find_from(b + more, x, i) == find_from(b, x, i),
    decreases b.len() - i,
{
    if i < b.len() && b[i] != x {
        lemma_find_from_extends(b, more, x, i + 1);
    }
}

proof fn gif_stable(st: GifMode, b: Seq<u8>, more: Seq<u8>)
    requires
        b.len() <= isize::MAX,
    ensures
        waits_in_place(st, b, gif_local(st, b)),
        !waits(gif_local(st, b)) ==> gif_local(st, b + more) == gif_local(st, b),
{
    let c = b + more;
    if b.len() >= 6 {
        assert(c.subrange(0, 6) =~= b.subrange(0, 6));
    }
    if b.len() >= 14 {
        assert(c.subrange(3, 14) =~= b.subrange(3, 14));
    }
    if st is CapturingXmp && find_from(b, 0, 0) < b.len() {
        lemma_find_from_extends(b, more, 0, 0);
        let zero = find_from(b, 0, 0);
        crate::bytes::lemma_find_from(b, 0, 0);
        assert(c.subrange(0, zero) =~= b.subrange(0, zero));
        match magic_from(b.subrange(0, zero), 0) {
            Some(k) => {
                lemma_magic_from(b.subrange(0, zero), 0);
                assert(c.subrange(0, k) =~= b.subrange(0, k));
            },
            None => {},
        }
    }
}

proof fn bmff_stable(st: BmffMode, b: Seq<u8>, more: Seq<u8>)
    requires
        b.len() <= isize::MAX,
    ensures
        waits_in_place(st, b, bmff_local(st, b)),
        b.len() > 0 && !waits(bmff_local(st, b)) ==> bmff_local(st, b + more) == bmff_local(st, b),
{
    let c = b + more;
    match st {
        BmffMode::Extract { targets, max_tags } => {
            let n = targets[0].length as int;
            if n <= b.len() {
                assert(c.subrange(0, n) =~= b.subrange(0, n));
            }
        },
        BmffMode::Walk { at, max_tags } => {
            if b.len() >= 8 {
                assert(c.subrange(4, 8) =~= b.subrange(4, 8));
            }
            match box_header(b) {
                Some(h) => {
                    assert(box_header(c) == Some(h));
                    match h.total_size {
                        Some(total) => {
                            if h.header_len <= total <= b.len() {
                                assert(c.subrange(h.header_len as int, total as int)
                                    =~= b.subrange(h.header_len as int, total as int));
                            }
                        },
                        None => {},
                    }
                },
                None => {},
            }
        },
        _ => {},
    }
}

proof fn lemma_vint_len(x: u8)
    ensures
        0 <= vint_len(x) <= 8,
{
}

/// A header that is all there stays as it is.
pub proof fn lemma_element_header_extends(b: Seq<u8>, more: Seq<u8>)
    requires
        element_header(b) is Some,
    ensures
        element_header(b + more) == element_header(b),
        2 <= element_header(b).unwrap().header_len <= b.len(),
{
    let c = b + more;
    let n = vint_len(b[0]);
    lemma_vint_len(b[0]);
    assert(b.len() > 0);
    assert(c.subrange(0, n) =~= b.subrange(0, n));
    let t = tail(b, n);
    let u = tail(c, n);
    assert(u =~= t + more);
    lemma_vint_len(t[0]);
    let m = vint_len(t[0]);
    assert(t.len() > 0);
    assert(u.subrange(0, m) =~= t.subrange(0, m));
}

proof fn ebml_stable(st: EbmlMode, b: Seq<u8>, more: Seq<u8>)
    requires
        b.len() <= isize::MAX,
    ensures
        waits_in_place(st, b, ebml_local(st, b)),
        b.len() > 0 && !waits(ebml_local(st, b)) ==> ebml_local(st, b + more) == ebml_local(st, b),
{
    let c = b + more;
    let n = vint_len(b[0]);
    lemma_vint_len(b[0]);
    if st is Walk && b.len() > 0 {
        match ebml_header_need(b) {
            Some(k) => {
                if b.len() >= k {
                    assert(ebml_header_need(c) == Some(k));
                    let t = tail(b, n);
                    assert(t[0] == b[n]);
                    lemma_vint_len(b[n]);
                    assert(element_header(b) is Some);
                    lemma_element_header_extends(b, more);
                    let h = element_header(b).unwrap();
                    match h.size {
                        Some(size) => {
                            let total = h.header_len + size;
                            if total <= b.len() {
                                assert(c.subrange(h.header_len as int, total) =~= b.subrange(
                                    h.header_len as int,
                                    total,
                                ));
                            }
                        },
                        None => {},
                    }
                }
            },
            None => {
                assert(ebml_header_need(c) is None);
            },
        }
    }
}

/// Whether an empty window is the end of the file to a parser.
pub open spec fn ends_on_empty(st: AnyMode) -> bool {
    st is Bmff || st is Ebml
}

/// A parser that has what it asks for does the same, whatever comes behind.
pub proof fn more_bytes_change_nothing(st: AnyMode, b: Seq<u8>, more: Seq<u8>)
    requires
        b.len() <= isize::MAX,
    ensures
        waits_in_place(st, b, any_local(st, b)),
        (b.len() > 0 || !ends_on_empty(st)) && !waits(any_local(st, b)) ==> any_local(st, b + more) == any_local(st, b),
{
    reveal(any_local);
    match st {
        AnyMode::Jpeg(m) => jpeg_stable(m, b, more),
        AnyMode::Png(m) => png_stable(m, b, more),
        AnyMode::Webp(m) => webp_stable(m, b, more),
        AnyMode::Gif(m) => gif_stable(m, b, more),
        AnyMode::Bmff(m) => bmff_stable(m, b, more),
        AnyMode::Ebml(m) => ebml_stable(m, b, more),
    }
}

/// A parser asks for a window only where what is left of the one at hand is shorter.
pub proof fn needs_are_real(st: AnyMode, input: Seq<u8>)
    requires
        input.len() <= isize::MAX,
    ensures
        AnyParser::step(st, input).1.demand matches Demand::NeedBytes(n) ==> n > input.len()
            - AnyParser::step(st, input).1.consumed,
{
    lemma_needs(st, input, 0, seq![]);
}

proof fn lemma_needs(st: AnyMode, input: Seq<u8>, pos: int, events: Seq<EventView>)
    requires
        input.len() <= isize::MAX,
        0 <= pos <= input.len(),
    ensures
        ({
            let r = walk::<AnyParser>(st, input, pos, events).1;
            r.demand matches Demand::NeedBytes(n) ==> n > input.len() - r.consumed
        }),
    decreases input.len() - pos,
{
    let b = tail(input, pos);
    more_bytes_change_nothing(st, b, seq![]);
    match any_local(st, b) {
        Local::Next { st: next, len, events: found } => {
            if 0 < len <= input.len() - pos {
                lemma_needs(next, input, pos + len, events + found);
            }
        },
        _ => {},
    }
}

} // verus!
