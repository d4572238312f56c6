//! EBML (Matroska, WebM): elements with identifiers and sizes of variable length.
use vstd::arithmetic::power::pow;
use vstd::prelude::*;

use crate::bytes::{part, tail};

verus! {

/// The big-endian number that all bytes of `b` make.
pub open spec fn number(b: Seq<u8>) -> nat
    decreases b.len(),
{
    if b.len() == 0 {
        0
    } else {
        number(b.drop_last()) * 256 + b.last() as nat
    }
}

proof fn lemma_number_bound(b: Seq<u8>)
    ensures
        number(b) < pow(256, b.len()),
        pow(256, b.len()) > 0,
    decreases b.len(),
{
    reveal_with_fuel(pow, 2);
    if b.len() > 0 {
        lemma_number_bound(b.drop_last());
        assert(number(b) < pow(256, (b.len() - 1) as nat) * 256);
        assert(pow(256, b.len()) == 256 * pow(256, (b.len() - 1) as nat));
    }
}

/// Reads the number that all of up to eight bytes make.
pub fn read_number(b: &[u8]) -> (r: u64)
    requires
        b@.len() <= 8,
    ensures
        r == number(b@),
{
    let mut acc: u64 = 0;
    let mut i: usize = 0;
    while i < b.len()
        invariant
            i <= b@.len() <= 8,
            acc == number(b@.take(i as int)),
        decreases b@.len() - i,
    {
        proof {
            lemma_number_bound(b@.take(i as int));
            reveal_with_fuel(pow, 9);
            assert(pow(256, 7) == 0x100_0000_0000_0000);
            assert(b@.take(i + 1).drop_last() =~= b@.take(i as int));
            if i < 7 {
                vstd::arithmetic::power::lemma_pow_increases(256, i as nat, 7);
            }
        }
        acc = acc * 256 + b[i] as u64;
        i += 1;
    }
    assert(b@.take(b@.len() as int) =~= b@);
    acc
}

/// How many bytes a number of variable length has that starts with `first`; 0 where none
/// starts so.
pub open spec fn vint_len(first: u8) -> int {
    if first >= 0x80 {
        1
    } else if first >= 0x40 {
        2
    } else if first >= 0x20 {
        3
    } else if first >= 0x10 {
        4
    } else if first >= 0x08 {
        5
    } else if first >= 0x04 {
        6
    } else if first >= 0x02 {
        7
    } else if first >= 0x01 {
        8
    } else {
        0
    }
}

pub fn vint_width(first: u8) -> (r: usize)
    ensures
        r == vint_len(first),
{
    if first >= 0x80 {
        1
    } else if first >= 0x40 {
        2
    } else if first >= 0x20 {
        3
    } else if first >= 0x10 {
        4
    } else if first >= 0x08 {
        5
    } else if first >= 0x04 {
        6
    } else if first >= 0x02 {
        7
    } else if first >= 0x01 {
        8
    } else {
        0
    }
}

/// Two to the number of bits that a size of `n` bytes has for its value.
pub open spec fn size_span(n: int) -> u64 {
    if n == 1 {
        0x80
    } else if n == 2 {
        0x4000
    } else if n == 3 {
        0x20_0000
    } else if n == 4 {
        0x1000_0000
    } else if n == 5 {
        0x8_0000_0000
    } else if n == 6 {
        0x400_0000_0000
    } else if n == 7 {
        0x2_0000_0000_0000
    } else {
        0x100_0000_0000_0000
    }
}

fn span_of(n: usize) -> (r: u64)
    ensures
        r == size_span(n as int),
        r > 0,
{
    match n {
        1 => 0x80,
        2 => 0x4000,
        3 => 0x20_0000,
        4 => 0x1000_0000,
        5 => 0x8_0000_0000,
        6 => 0x400_0000_0000,
        7 => 0x2_0000_0000_0000,
        _ => 0x100_0000_0000_0000,
    }
}

/// The identifier at the front of `b`, its length marker included, and its length: at
/// most four bytes.
pub open spec fn elem_id(b: Seq<u8>) -> Option<(u32, int)> {
    let n = vint_len(b[0]);
    if b.len() == 0 || n == 0 || n > 4 || n > b.len() {
        None
    } else {
        Some((number(b.subrange(0, n)) as u32, n))
    }
}

/// Reads the identifier of an element.
pub fn read_elem_id(input: &[u8]) -> (r: Option<(u32, usize)>)
    ensures
        match r {
            Some((id, n)) => elem_id(input@) == Some((id, n as int)) && 1 <= n <= 4 && n
                <= input@.len(),
            None => elem_id(input@) is None,
        },
{
    if input.len() == 0 {
        return None;
    }
    let n: usize = vint_width(input[0]);
    if n == 0 || n > 4 || n > input.len() {
        return None;
    }
    let b = part(input, 0, n);
    let v: u64 = read_number(b);
    proof {
        lemma_number_bound(b@);
        reveal_with_fuel(pow, 5);
        assert(pow(256, 4) == 0x1_0000_0000);
        vstd::arithmetic::power::lemma_pow_increases(256, n as nat, 4);
    }
    Some((v as u32, n))
}

/// The size at the front of `b`, without its length marker, and its length. A size of
/// all ones is unknown.
pub open spec fn elem_size(b: Seq<u8>) -> Option<(Option<u64>, int)> {
    let n = vint_len(b[0]);
    if b.len() == 0 || n == 0 || n > b.len() {
        None
    } else {
        let v = number(b.subrange(0, n)) as int % size_span(n) as int;
        Some(
            (
                if v == size_span(n) - 1 {
                    None
                } else {
                    Some(v as u64)
                },
                n,
            ),
        )
    }
}

/// Reads the size of an element.
pub fn read_elem_size(input: &[u8]) -> (r: Option<(Option<u64>, usize)>)
    ensures
        match r {
            Some((s, n)) => elem_size(input@) == Some((s, n as int)) && 1 <= n <= 8 && n
                <= input@.len(),
            None => elem_size(input@) is None,
        },
        r matches Some((Some(s), _)) ==> s < 0x100_0000_0000_0000,
{
    if input.len() == 0 {
        return None;
    }
    let n: usize = vint_width(input[0]);
    if n == 0 || n > input.len() {
        return None;
    }
    let span: u64 = span_of(n);
    let v: u64 = read_number(part(input, 0, n)) % span;
    if v == span - 1 {
        Some((None, n))
    } else {
        Some((Some(v), n))
    }
}

/// The header of an element.
#[derive(Debug, Clone, Copy, PartialEq, Eq, Structural)]
pub struct ElementHeader {
    pub id: u32,
    pub header_len: u64,
    /// None where the size is not known.
    pub size: Option<u64>,
}

/// The header of the element at the front of `b`, where all of it is there.
pub open spec fn element_header(b: Seq<u8>) -> Option<ElementHeader> {
    match elem_id(b) {
        None => None,
        Some((id, n)) => match elem_size(tail(b, n)) {
            None => None,
            Some((size, m)) => Some(ElementHeader { id, header_len: (n + m) as u64, size }),
        },
    }
}

/// Reads the header of the element at the front of `input`.
pub fn read_element_header(input: &[u8]) -> (r: Option<ElementHeader>)
    ensures
        r == element_header(input@),
        r matches Some(h) ==> 2 <= h.header_len <= 12 && h.header_len <= input@.len(),
        r matches Some(h) ==> (h.size matches Some(s) ==> s < 0x100_0000_0000_0000),
{
    let (id, n): (u32, usize) = match read_elem_id(input) {
        Some(v) => v,
        None => return None,
    };
    match read_elem_size(part(input, n, input.len())) {
        Some((size, m)) => Some(ElementHeader { id, header_len: (n + m) as u64, size }),
        None => None,
    }
}

/// An element inside another one.
pub struct Element {
    pub header: ElementHeader,
    pub payload: Seq<u8>,
}

/// The length of the element at the front of `b`, where it is known and all there.
pub open spec fn element_len(b: Seq<u8>) -> Option<int> {
    match element_header(b) {
        Some(h) => match h.size {
            Some(s) => if h.header_len + s <= b.len() {
                Some(h.header_len + s)
            } else {
                None
            },
            None => None,
        },
        None => None,
    }
}

/// The elements that follow each other in `b`, up to the first that is not all there.
pub open spec fn elements(b: Seq<u8>) -> Seq<Element>
    decreases b.len(),
{
    match element_len(b) {
        Some(n) => if 0 < n <= b.len() {
            let h = element_header(b).unwrap();
            seq![Element { header: h, payload: b.subrange(h.header_len as int, n) }] + elements(
                tail(b, n),
            )
        } else {
            seq![]
        },
        None => seq![],
    }
}

/// A walk over the elements that follow each other in a payload.
pub struct ChildElements<'a> {
    rest: &'a [u8],
}

impl<'a> ChildElements<'a> {
    /// The elements that are still to come.
    pub closed spec fn items(&self) -> Seq<Element> {
        elements(self.rest@)
    }

    /// The number of bytes that are still to come.
    pub closed spec fn left(&self) -> nat {
        self.rest@.len()
    }

    /// The next element: its header and its payload.
    pub fn next(&mut self) -> (r: Option<(ElementHeader, &'a [u8])>)
        ensures
            match r {
                Some((h, p)) => {
                    &&& old(self).items().len() > 0
                    &&& old(self).items()[0] == (Element { header: h, payload: p@ })
                    &&& final(self).items() == old(self).items().drop_first()
                    &&& h.size matches Some(s) && final(self).left() == old(self).left()
                        - h.header_len - s
                    &&& final(self).left() < old(self).left()
                },
                None => old(self).items().len() == 0 && *final(self) == *old(self),
            },
    {
        let hdr = match read_element_header(self.rest) {
            Some(h) => h,
            None => return None,
        };
        let size: u64 = match hdr.size {
            Some(s) => s,
            None => return None,
        };
        let total: u64 = hdr.header_len + size;
        if total > self.rest.len() as u64 {
            return None;
        }
        let header_len: usize = hdr.header_len as usize;
        let total: usize = total as usize;
        let payload = part(self.rest, header_len, total);
        let ghost before = elements(self.rest@);
        let ghost first = Element { header: hdr, payload: payload@ };
        assert(before == seq![first] + elements(tail(self.rest@, total as int)));
        self.rest = part(self.rest, total, self.rest.len());
        assert(before.drop_first() =~= elements(self.rest@));
        assert(before[0] == first);
        Some((hdr, payload))
    }
}

/// Walks over the elements of a payload.
pub fn iter_child_elements<'a>(payload: &'a [u8]) -> (r: ChildElements<'a>)
    ensures
        r.items() == elements(payload@),
        r.left() == payload@.len(),
{
    ChildElements { rest: payload }
}

/// The payload of the first element with the given identifier.
pub open spec fn first_element(es: Seq<Element>, id: u32) -> Option<Seq<u8>>
    decreases es.len(),
{
    if es.len() == 0 {
        None
    } else if es[0].header.id == id {
        Some(es[0].payload)
    } else {
        first_element(es.drop_first(), id)
    }
}

/// Finds the first element with the given identifier in a payload.
pub fn find_element<'a>(payload: &'a [u8], id: u32) -> (r: Option<&'a [u8]>)
    ensures
        match r {
            Some(p) => first_element(elements(payload@), id) == Some(p@),
            None => first_element(elements(payload@), id) is None,
        },
{
    let mut it = iter_child_elements(payload);
    loop
        invariant
            first_element(it.items(), id) == first_element(elements(payload@), id),
        decreases it.left(),
    {
        match it.next() {
            Some((hdr, p)) => {
                if hdr.id == id {
                    return Some(p);
                }
            },
            None => {
                return None;
            },
        }
    }
}

} // verus!
