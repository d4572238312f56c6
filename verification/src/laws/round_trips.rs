//! What the builders write, the readers read back.
use vstd::prelude::*;

use crate::bytes::{be32, be32_bytes, be64_bytes, le32, le32_bytes, tail};
use crate::containers::ebml::{
    elem_id, elem_size, element_header, element_len, elements, number, size_span, vint_len, Element,
    ElementHeader,
};
use crate::containers::isobmff::{
    box_header, child_len, children, first_child, BoxView, Child,
};
use crate::fixtures::bmff::box_of;
use crate::fixtures::ebml::{elem, size8};
use crate::fixtures::images::bare_chunk;
use crate::fixtures::parts::low32;
use crate::strip::exif_synth::riff_bytes;
use crate::strip::png::{cdata, ctype, whole_chunk};
use crate::strip::webp::{chunk_end, data_end};

verus! {

/// A number written in four bytes reads back, in either order.
pub proof fn numbers_read_back(x: u32)
    ensures
        be32(be32_bytes(x), 0) == x,
        le32(le32_bytes(x), 0) == x,
{
}

/// A box reads back: its type and its size, whatever follows it.
pub proof fn boxes_read_back(kind: Seq<u8>, payload: Seq<u8>, more: Seq<u8>)
    requires
        kind.len() == 4,
        payload.len() + 8 <= u32::MAX,
    ensures
        box_header(box_of(kind, payload) + more) == Some(
            BoxView { kind, header_len: 8, total_size: Some((payload.len() + 8) as u64) },
        ),
        (box_of(kind, payload) + more).subrange(8, 8 + payload.len() as int) == payload,
{
    reveal(box_of);
    let size = (payload.len() + 8) as u32;
    let b = box_of(kind, payload) + more;
    assert(b.len() >= 8 && be32(b, 0) == size) by {
        let s = be32_bytes(size);
        numbers_read_back(size);
        assert(low32(payload.len() as int + 8) == size);
        assert(b[0] == s[0] && b[1] == s[1] && b[2] == s[2] && b[3] == s[3]);
    }
    assert(b.subrange(4, 8) =~= kind);
    assert(b.subrange(8, 8 + payload.len() as int) =~= payload);
}

/// A box walks back: a walk over it and what follows yields it first, with its whole header,
/// and goes on behind it.
pub proof fn boxes_walk_back(kind: Seq<u8>, payload: Seq<u8>, more: Seq<u8>)
    requires
        kind.len() == 4,
        payload.len() + 8 <= u32::MAX,
    ensures
        box_of(kind, payload).len() == payload.len() + 8,
        tail(box_of(kind, payload), 8) == payload,
        children(box_of(kind, payload) + more) == seq![built(kind, payload)] + children(more),
        children(box_of(kind, payload)) == seq![built(kind, payload)],
{
    let b = box_of(kind, payload);
    assert(b.len() == payload.len() + 8 && tail(b, 8) =~= payload) by {
        reveal(box_of);
    }
    lemma_walk(kind, payload, more);
    lemma_walk(kind, payload, seq![]);
    assert(b + seq![] =~= b);
    assert(children(seq![]) =~= seq![]);
    assert(seq![built(kind, payload)] + seq![] =~= seq![built(kind, payload)]);
}

/// The box that is built of a type and a payload.
pub open spec fn built(kind: Seq<u8>, payload: Seq<u8>) -> Child {
    Child {
        header: BoxView { kind, header_len: 8, total_size: Some((payload.len() + 8) as u64) },
        payload,
    }
}

proof fn lemma_walk(kind: Seq<u8>, payload: Seq<u8>, more: Seq<u8>)
    requires
        kind.len() == 4,
        payload.len() + 8 <= u32::MAX,
    ensures
        children(box_of(kind, payload) + more) == seq![built(kind, payload)] + children(more),
{
    let b = box_of(kind, payload) + more;
    boxes_read_back(kind, payload, more);
    let n = payload.len() as int + 8;
    assert(box_of(kind, payload).len() == n) by {
        reveal(box_of);
    }
    assert(child_len(b) == Some(n));
    assert(tail(b, n) =~= more);
    assert(first_child(b) == built(kind, payload));
}

/// A PNG chunk reads back: its type and its data, whatever follows it.
pub proof fn chunks_read_back(kind: Seq<u8>, data: Seq<u8>, more: Seq<u8>)
    requires
        kind.len() == 4,
        data.len() <= u32::MAX,
    ensures
        ({
            let t = bare_chunk(kind, data) + more;
            &&& whole_chunk(t)
            &&& ctype(t) == kind
            &&& cdata(t) == data
            &&& tail(t, 12 + data.len() as int) == more
        }),
{
    let size = data.len() as u32;
    let t = bare_chunk(kind, data) + more;
    numbers_read_back(size);
    assert(be32(t, 0) == be32(be32_bytes(size), 0));
    assert(ctype(t) =~= kind);
    assert(cdata(t) =~= data);
    assert(tail(t, 12 + data.len() as int) =~= more);
}

/// A RIFF chunk reads back: its type and its data, whatever follows it and its padding.
pub proof fn riff_chunks_read_back(kind: Seq<u8>, data: Seq<u8>, more: Seq<u8>)
    requires
        kind.len() == 4,
        data.len() <= u32::MAX,
    ensures
        ({
            let t = riff_bytes(kind, data) + more;
            &&& t.subrange(0, 4) == kind
            &&& t.subrange(8, data_end(t)) == data
            &&& tail(t, chunk_end(t)) == more
        }),
{
    let size = data.len() as u32;
    let t = riff_bytes(kind, data) + more;
    assert(le32(t, 4) == size) by {
        numbers_read_back(size);
        assert(t.subrange(4, 8) =~= le32_bytes(size));
        assert(le32(t, 4) == le32(le32_bytes(size), 0));
    }
    assert(t.subrange(0, 4) =~= kind);
    assert(t.subrange(8, data_end(t)) =~= data);
    assert(tail(t, chunk_end(t)) =~= more);
}

proof fn lemma_number_push(s: Seq<u8>, x: u8)
    ensures
        number(s.push(x)) == number(s) * 256 + x,
{
    assert(s.push(x).drop_last() =~= s);
}

/// The low seven of the eight bytes of a number below two to the 56th.
proof fn lemma_seven(x: u64)
    requires
        x < 0x100_0000_0000_0000,
    ensures
        ({
            let d = be64_bytes(x);
            &&& d.len() == 8
            &&& x == d[1] * 0x1_0000_0000_0000 + d[2] * 0x100_0000_0000 + d[3] * 0x1_0000_0000
                + d[4] * 0x100_0000 + d[5] * 0x1_0000 + d[6] * 0x100 + d[7]
        }),
{
    let hi = (x / 0x1_0000_0000) as u32;
    let lo = (x % 0x1_0000_0000) as u32;
    let d = be64_bytes(x);
    numbers_read_back(hi);
    numbers_read_back(lo);
    assert(d[0] == 0);
    assert(hi == d[1] * 0x1_0000 + d[2] * 0x100 + d[3]);
    assert(lo == d[4] * 0x100_0000 + d[5] * 0x1_0000 + d[6] * 0x100 + d[7]);
}

/// A size in eight bytes, digit by digit.
proof fn lemma_size8_number(n: int)
    requires
        0 <= n < 0x100_0000_0000_0000,
    ensures
        size8(n).len() == 8,
        number(size8(n)) == 0x100_0000_0000_0000 + n,
{
    let d = be64_bytes(n as u64);
    lemma_seven(n as u64);
    let none: Seq<u8> = seq![];
    let s1 = none.push(1u8);
    let s2 = s1.push(d[1]);
    let s3 = s2.push(d[2]);
    let s4 = s3.push(d[3]);
    let s5 = s4.push(d[4]);
    let s6 = s5.push(d[5]);
    let s7 = s6.push(d[6]);
    let s8 = s7.push(d[7]);
    assert(s8 =~= size8(n));
    lemma_number_push(none, 1);
    lemma_number_push(s1, d[1]);
    lemma_number_push(s2, d[2]);
    lemma_number_push(s3, d[3]);
    lemma_number_push(s4, d[4]);
    lemma_number_push(s5, d[5]);
    lemma_number_push(s6, d[6]);
    lemma_number_push(s7, d[7]);
}

proof fn lemma_size8(n: int, more: Seq<u8>)
    requires
        0 <= n < 0xFF_FFFF_FFFF_FFFF,
    ensures
        elem_size(size8(n) + more) == Some((Some(n as u64), 8int)),
{
    let b = size8(n) + more;
    lemma_size8_number(n);
    assert(b[0] == 1);
    assert(b.subrange(0, 8) =~= size8(n));
    assert(vint_len(b[0]) == 8);
    let v = number(b.subrange(0, 8)) as int;
    assert(v % 0x100_0000_0000_0000 == n) by (nonlinear_arith)
        requires
            v == 0x100_0000_0000_0000 + n,
            0 <= n < 0xFF_FFFF_FFFF_FFFF,
    ;
    assert(size_span(8) == 0x100_0000_0000_0000);
}

/// An element reads back: its identifier and its size, whatever follows it.
pub proof fn elements_read_back(id: Seq<u8>, payload: Seq<u8>, more: Seq<u8>)
    requires
        1 <= id.len() <= 4,
        vint_len(id[0]) == id.len(),
        payload.len() < 0xFF_FFFF_FFFF_FFFF,
    ensures
        element_header(elem(id, payload) + more) == Some(
            ElementHeader {
                id: number(id) as u32,
                header_len: (id.len() + 8) as u64,
                size: Some(payload.len() as u64),
            },
        ),
        (elem(id, payload) + more).subrange(
            id.len() as int + 8,
            id.len() as int + 8 + payload.len(),
        ) == payload,
{
    let b = elem(id, payload) + more;
    let n = id.len() as int;
    lemma_size8_number(payload.len() as int);
    lemma_size8(payload.len() as int, payload + more);
    assert(b.subrange(0, n) =~= id);
    assert(elem_id(b) == Some((number(id) as u32, n)));
    assert(tail(b, n) =~= size8(payload.len() as int) + (payload + more));
    assert(b.subrange(n + 8, n + 8 + payload.len()) =~= payload);
}

/// An element walks back: a walk over it and what follows yields it first, with its whole
/// header, and goes on behind it.
pub proof fn elements_walk_back(id: Seq<u8>, payload: Seq<u8>, more: Seq<u8>)
    requires
        1 <= id.len() <= 4,
        vint_len(id[0]) == id.len(),
        payload.len() < 0xFF_FFFF_FFFF_FFFF,
    ensures
        elements(elem(id, payload) + more) == seq![
            Element {
                header: ElementHeader {
                    id: number(id) as u32,
                    header_len: (id.len() + 8) as u64,
                    size: Some(payload.len() as u64),
                },
                payload,
            },
        ] + elements(more),
{
    let b = elem(id, payload) + more;
    elements_read_back(id, payload, more);
    lemma_size8_number(payload.len() as int);
    let n = id.len() as int + 8 + payload.len();
    assert(element_len(b) == Some(n));
    assert(tail(b, n) =~= more);
}

} // verus!
