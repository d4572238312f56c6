//! ISO base media files: nested boxes, each with a size and a four-byte type.
use vstd::prelude::*;

use crate::bytes::{be32, be64, lit, part, read_be32, read_be64, same, tail};
use crate::cursor::{ByteCursor, Endian};

verus! {

/// The header of a box.
#[derive(Debug, Clone, Copy, PartialEq, Eq)]
pub struct BoxHeader {
    pub kind: [u8; 4],
    /// The length of the header itself: 8, or 16 with a 64-bit size.
    pub header_len: u64,
    /// The length of the box with its header; none where it reaches to the end of the
    /// file.
    pub total_size: Option<u64>,
}

pub struct BoxView {
    pub kind: Seq<u8>,
    pub header_len: u64,
    pub total_size: Option<u64>,
}

impl View for BoxHeader {
    type V = BoxView;

    open spec fn view(&self) -> BoxView {
        BoxView { kind: self.kind@, header_len: self.header_len, total_size: self.total_size }
    }
}

/// The header of the box at the front of `b`, where all of it is there.
pub open spec fn box_header(b: Seq<u8>) -> Option<BoxView> {
    if b.len() < 8 {
        None
    } else {
        let kind = b.subrange(4, 8);
        let size = be32(b, 0);
        if size == 1 {
            if b.len() < 16 {
                None
            } else {
                Some(BoxView { kind, header_len: 16, total_size: Some(be64(b, 8)) })
            }
        } else if size == 0 {
            Some(BoxView { kind, header_len: 8, total_size: None })
        } else {
            Some(BoxView { kind, header_len: 8, total_size: Some(size as u64) })
        }
    }
}

impl BoxHeader {
    /// The length of what follows the header, where it is known and not negative.
    pub fn payload_len(&self) -> (r: Option<u64>)
        ensures
            r == (match self.total_size {
                Some(t) if t >= self.header_len => Some((t - self.header_len) as u64),
                _ => None,
            }),
    {
        match self.total_size {
            Some(t) => t.checked_sub(self.header_len),
            None => None,
        }
    }

    /// Whether the box is of the given type.
    pub fn is(&self, kind: &str) -> (r: bool)
        ensures
            r == (self.kind@ == crate::bytes::lit(kind)),
    {
        same(self.kind.as_slice(), kind.as_bytes())
    }
}

/// Reads the header of the box at the front of `input`.
pub fn read_box_header(input: &[u8]) -> (r: Option<BoxHeader>)
    ensures
        match r {
            Some(h) => box_header(input@) == Some(h@),
            None => box_header(input@) is None,
        },
{
    if input.len() < 8 {
        return None;
    }
    let size: u32 = read_be32(input, 0);
    let kind: [u8; 4] = [input[4], input[5], input[6], input[7]];
    assert(kind@ =~= input@.subrange(4, 8));
    if size == 1 {
        if input.len() < 16 {
            return None;
        }
        Some(BoxHeader { kind, header_len: 16, total_size: Some(read_be64(input, 8)) })
    } else if size == 0 {
        Some(BoxHeader { kind, header_len: 8, total_size: None })
    } else {
        Some(BoxHeader { kind, header_len: 8, total_size: Some(size as u64) })
    }
}

/// Reads the version and the flags in front of the payload of a full box.
pub fn full_box_vf(payload: &[u8]) -> (r: Option<(u8, u32)>)
    ensures
        r == (if payload@.len() < 4 {
            None
        } else {
            Some((payload@[0], (be32(payload@, 0) % 0x100_0000) as u32))
        }),
{
    if payload.len() < 4 {
        return None;
    }
    Some((payload[0], read_be32(payload, 0) % 0x100_0000))
}

/// The big-endian number of `size` bytes at `at`, for the sizes 0, 4 and 8.
pub open spec fn uint(b: Seq<u8>, at: int, size: u8) -> Option<u64> {
    if size == 0 {
        Some(0)
    } else if size == 4 && at + 4 <= b.len() {
        Some(be32(b, at) as u64)
    } else if size == 8 && at + 8 <= b.len() {
        Some(be64(b, at))
    } else {
        None
    }
}

/// Reads a number whose width is `size` bytes. Only the widths 0, 4 and 8 are defined.
pub fn read_uint_be(cur: &mut ByteCursor, size: u8) -> (r: Option<u64>)
    ensures
        r == uint(old(cur)@.data, old(cur)@.at, size),
        r is Some ==> final(cur)@ == old(cur)@.moved(size as int),
        r is None ==> final(cur)@ == old(cur)@,
        0 <= old(cur)@.at <= old(cur)@.data.len(),
        0 <= final(cur)@.at <= final(cur)@.data.len(),
{
    let _ = cur.position();
    match size {
        0 => Some(0),
        4 => match cur.u32(Endian::Big) {
            Some(v) => Some(v as u64),
            None => None,
        },
        8 => match cur.take(8) {
            Some(s) => Some(read_be64(s, 0)),
            None => None,
        },
        _ => None,
    }
}

/// A box inside another one.
pub struct Child {
    pub header: BoxView,
    pub payload: Seq<u8>,
}

/// The length of the box at the front of `b`, where it is known and all there.
pub open spec fn child_len(b: Seq<u8>) -> Option<int> {
    match box_header(b) {
        Some(h) => match h.total_size {
            Some(t) => if h.header_len <= t <= b.len() {
                Some(t as int)
            } else {
                None
            },
            None => None,
        },
        None => None,
    }
}

/// The box at the front of `b`.
pub open spec fn first_child(b: Seq<u8>) -> Child {
    let h = box_header(b).unwrap();
    Child { header: h, payload: b.subrange(h.header_len as int, child_len(b).unwrap()) }
}

/// The boxes that follow each other in `b`, up to the first one that is not all there.
pub open spec fn children(b: Seq<u8>) -> Seq<Child>
    decreases b.len(),
{
    match child_len(b) {
        Some(n) => if 0 < n <= b.len() {
            seq![first_child(b)] + children(tail(b, n))
        } else {
            seq![]
        },
        None => seq![],
    }
}

/// A walk over the boxes that follow each other in a payload.
pub struct ChildBoxes<'a> {
    rest: &'a [u8],
}

impl<'a> ChildBoxes<'a> {
    /// The boxes that are still to come.
    pub closed spec fn boxes(&self) -> Seq<Child> {
        children(self.rest@)
    }

    /// The number of bytes that are still to come.
    pub closed spec fn left(&self) -> nat {
        self.rest@.len()
    }

    /// The next box: its header and its payload.
    pub fn next(&mut self) -> (r: Option<(BoxHeader, &'a [u8])>)
        ensures
            match r {
                Some((h, p)) => {
                    &&& old(self).boxes().len() > 0
                    &&& old(self).boxes()[0] == (Child { header: h@, payload: p@ })
                    &&& final(self).boxes() == old(self).boxes().drop_first()
                    &&& h.total_size matches Some(t) && final(self).left() == old(self).left() - t
                    &&& final(self).left() < old(self).left()
                    &&& p@.len() < old(self).left()
                },
                None => old(self).boxes().len() == 0 && *final(self) == *old(self),
            },
    {
        let hdr = match read_box_header(self.rest) {
            Some(h) => h,
            None => return None,
        };
        let total: u64 = match hdr.total_size {
            Some(t) => t,
            None => return None,
        };
        if total < hdr.header_len || total > self.rest.len() as u64 {
            return None;
        }
        let header_len: usize = hdr.header_len as usize;
        let total: usize = total as usize;
        let payload = part(self.rest, header_len, total);
        let ghost before = children(self.rest@);
        let ghost first = first_child(self.rest@);
        assert(before == seq![first] + children(tail(self.rest@, total as int)));
        self.rest = part(self.rest, total, self.rest.len());
        assert(before.drop_first() =~= children(self.rest@));
        assert(before[0] == first);
        Some((hdr, payload))
    }
}

/// Walks over the boxes of a payload.
pub fn iter_child_boxes<'a>(payload: &'a [u8]) -> (r: ChildBoxes<'a>)
    ensures
        r.boxes() == children(payload@),
        r.left() == payload@.len(),
{
    ChildBoxes { rest: payload }
}

/// The payload of the first box of the given type.
pub open spec fn first_payload(cs: Seq<Child>, kind: Seq<u8>) -> Option<Seq<u8>>
    decreases cs.len(),
{
    if cs.len() == 0 {
        None
    } else if cs[0].header.kind == kind {
        Some(cs[0].payload)
    } else {
        first_payload(cs.drop_first(), kind)
    }
}

/// The payload of the last box of the given type.
pub open spec fn last_payload(cs: Seq<Child>, kind: Seq<u8>) -> Option<Seq<u8>>
    decreases cs.len(),
{
    if cs.len() == 0 {
        None
    } else if cs.last().header.kind == kind {
        Some(cs.last().payload)
    } else {
        last_payload(cs.drop_last(), kind)
    }
}

/// `p` as the view of a payload that may be absent.
pub open spec fn opt_bytes(p: Option<&[u8]>) -> Option<Seq<u8>> {
    match p {
        Some(b) => Some(b@),
        None => None,
    }
}

/// Finds the first box of the given type in a payload.
pub fn find_first<'a>(payload: &'a [u8], kind: &str) -> (r: Option<&'a [u8]>)
    ensures
        opt_bytes(r) == first_payload(children(payload@), lit(kind)),
{
    let mut it = iter_child_boxes(payload);
    loop
        invariant
            first_payload(it.boxes(), lit(kind)) == first_payload(
                children(payload@),
                lit(kind),
            ),
        decreases it.left(),
    {
        match it.next() {
            Some((hdr, p)) => {
                if hdr.is(kind) {
                    return Some(p);
                }
            },
            None => {
                return None;
            },
        }
    }
}

/// Finds the last box of the given type in a payload.
pub fn find_last<'a>(payload: &'a [u8], kind: &str) -> (r: Option<&'a [u8]>)
    ensures
        opt_bytes(r) == last_payload(children(payload@), lit(kind)),
{
    let mut it = iter_child_boxes(payload);
    let mut found: Option<&'a [u8]> = None;
    let ghost mut seen: Seq<Child> = seq![];
    assert(seen + it.boxes() =~= it.boxes());
    loop
        invariant
            seen + it.boxes() == children(payload@),
            opt_bytes(found) == last_payload(seen, lit(kind)),
        decreases it.left(),
    {
        let ghost before = it.boxes();
        match it.next() {
            Some((hdr, p)) => {
                proof {
                    assert(seen.push(before[0]) + it.boxes() =~= seen + before);
                    assert(seen.push(before[0]).drop_last() =~= seen);
                    seen = seen.push(before[0]);
                }
                if hdr.is(kind) {
                    found = Some(p);
                }
            },
            None => {
                assert(seen + before =~= seen);
                return found;
            },
        }
    }
}

} // verus!
