//! The `meta` box of HEIF and AVIF files: which items hold metadata, where they lie, and
//! the size of the primary image.
use vstd::prelude::*;

use crate::bytes::{
    be16, be32, find_byte, find_from, is_str, lit, part, read_be32, rest_of, sat64, starts_with, tail,
};
use crate::containers::isobmff::{
    children, find_last, full_box_vf, iter_child_boxes, last_payload, opt_bytes, read_uint_be,
    uint, Child,
};
use crate::cursor::{ByteCursor, Endian};
use crate::demand::PayloadKind;
use crate::formats::jpeg::lemma_exif_marker;
use crate::formats::webp::unmarked;
use crate::model::{WarnKind, Warning};

verus! {

/// An item that holds metadata.
#[derive(Debug, Clone, Copy, PartialEq, Eq, Structural)]
pub struct Wanted {
    pub id: u32,
    pub kind: PayloadKind,
}

/// The item that the payload of an `infe` box describes, where it holds metadata: EXIF
/// data, or XMP by its content type.
pub open spec fn infe(p: Seq<u8>) -> Option<Wanted> {
    if p.len() < 4 || (p[0] != 2 && p[0] != 3) {
        None
    } else {
        let at = if p[0] == 2 {
            6int
        } else {
            8int
        };
        if p.len() < at + 6 {
            None
        } else {
            let id = if p[0] == 2 {
                be16(p, 4) as u32
            } else {
                be32(p, 4)
            };
            let kind = p.subrange(at + 2, at + 6);
            if kind == lit("Exif") {
                Some(Wanted { id, kind: PayloadKind::Exif })
            } else if kind == lit("mime") && content_type(tail(p, at + 6)) == Some(
                lit("application/rdf+xml"),
            ) {
                Some(Wanted { id, kind: PayloadKind::Xmp })
            } else {
                None
            }
        }
    }
}

/// The content type behind the name of an item. Both end with a zero byte; the last may
/// lack it.
pub open spec fn content_type(b: Seq<u8>) -> Option<Seq<u8>> {
    let z = find_from(b, 0, 0);
    if z >= b.len() {
        None
    } else {
        let ct = tail(b, z + 1);
        Some(ct.subrange(0, find_from(ct, 0, 0)))
    }
}

/// The bytes up to the first zero byte.
fn take_cstr<'a>(b: &'a [u8]) -> (r: &'a [u8])
    ensures
        r@ == b@.subrange(0, find_from(b@, 0, 0)),
{
    let end: usize = match find_byte(b, 0) {
        Some(i) => i,
        None => b.len(),
    };
    part(b, 0, end)
}

pub fn parse_infe(payload: &[u8]) -> (r: Option<Wanted>)
    ensures
        r == infe(payload@),
{
    let version: u8 = match full_box_vf(payload) {
        Some((v, _)) => v,
        None => return None,
    };
    let mut cur = ByteCursor::new(payload);
    if cur.seek(4).is_none() {
        return None;
    }
    let id: u32 = match version {
        2 => match cur.u16(Endian::Big) {
            Some(v) => v as u32,
            None => return None,
        },
        3 => match cur.u32(Endian::Big) {
            Some(v) => v,
            None => return None,
        },
        _ => return None,
    };
    if cur.u16(Endian::Big).is_none() {
        return None;
    }
    let item_type = match cur.take(4) {
        Some(t) => t,
        None => return None,
    };
    if is_str(item_type, "Exif") {
        return Some(Wanted { id, kind: PayloadKind::Exif });
    }
    if is_str(item_type, "mime") {
        let rest = rest_of(payload, cur.position());
        match find_byte(rest, 0) {
            Some(i) => {
                assert(i < rest.len());
                if is_str(take_cstr(rest_of(rest, i + 1)), "application/rdf+xml") {
                    return Some(Wanted { id, kind: PayloadKind::Xmp });
                }
            },
            None => {},
        }
    }
    None
}

/// The items with metadata among the first `n` boxes of `cs`.
pub open spec fn wanted(cs: Seq<Child>, n: int) -> Seq<Wanted>
    decreases cs.len(),
{
    if cs.len() == 0 || n <= 0 {
        seq![]
    } else {
        let rest = wanted(cs.drop_first(), n - 1);
        match infe(cs[0].payload) {
            Some(w) if cs[0].header.kind == lit("infe") => seq![w] + rest,
            _ => rest,
        }
    }
}

/// The items with metadata that the payload of an `iinf` box lists.
pub open spec fn iinf(p: Seq<u8>) -> Seq<Wanted> {
    if p.len() >= 6 && p[0] == 0 {
        wanted(children(tail(p, 6)), be16(p, 4) as int)
    } else if p.len() >= 8 && p[0] != 0 {
        wanted(children(tail(p, 8)), be32(p, 4) as int)
    } else {
        seq![]
    }
}

pub fn parse_iinf(payload: &[u8]) -> (r: Vec<Wanted>)
    ensures
        r@ == iinf(payload@),
{
    let mut out: Vec<Wanted> = Vec::new();
    let version: u8 = match full_box_vf(payload) {
        Some((v, _)) => v,
        None => return out,
    };
    let mut cur = ByteCursor::new(payload);
    if cur.seek(4).is_none() {
        return out;
    }
    let count: u32 = if version == 0 {
        match cur.u16(Endian::Big) {
            Some(c) => c as u32,
            None => return out,
        }
    } else {
        match cur.u32(Endian::Big) {
            Some(c) => c,
            None => return out,
        }
    };
    let mut it = iter_child_boxes(rest_of(payload, cur.position()));
    let mut left: u32 = count;
    assert(out@ + wanted(it.boxes(), left as int) =~= iinf(payload@));
    while left > 0
        invariant_except_break
            out@ + wanted(it.boxes(), left as int) == iinf(payload@),
        ensures
            out@ == iinf(payload@),
        decreases left,
    {
        let ghost before = it.boxes();
        let ghost found = out@;
        match it.next() {
            Some((hdr, p)) => {
                if hdr.is("infe") {
                    match parse_infe(p) {
                        Some(w) => {
                            out.push(w);
                            proof {
                                let rest = wanted(it.boxes(), left - 1);
                                assert(found.push(w) + rest =~= found + (seq![w] + rest));
                            }
                        },
                        None => {},
                    }
                }
            },
            None => {
                assert(out@ + seq![] =~= out@);
                break;
            },
        }
        left -= 1;
        assert(left == 0 ==> out@ + seq![] =~= out@);
    }
    out
}

/// Where an item lies. Only the first extent is kept.
#[derive(Debug, Clone, Copy, PartialEq, Eq)]
pub struct Loc {
    pub id: u32,
    pub method: u8,
    pub extent_count: u16,
    /// The offset and the length of the first extent.
    pub first_extent: Option<(u64, u64)>,
}

/// The widths of the numbers in an `iloc` box.
#[derive(Debug, Clone, Copy, PartialEq, Eq, Structural)]
pub struct IlocFormat {
    pub version: u8,
    pub offset_size: u8,
    pub length_size: u8,
    pub base_size: u8,
    pub index_size: u8,
}

/// Where the `n` extents that start at `at` end, if all of them can be read.
pub open spec fn extents_end(f: IlocFormat, b: Seq<u8>, at: int, n: int) -> Option<int>
    decreases n,
{
    if n <= 0 {
        Some(at)
    } else {
        match extent(f, b, at) {
            Some((_, _, end)) => extents_end(f, b, end, n - 1),
            None => None,
        }
    }
}

/// The offset and the length that the extent at `at` gives, and where it ends.
pub open spec fn extent(f: IlocFormat, b: Seq<u8>, at: int) -> Option<(u64, u64, int)> {
    let a1 = at + f.index_size;
    let a2 = a1 + f.offset_size;
    match (uint(b, at, f.index_size), uint(b, a1, f.offset_size), uint(b, a2, f.length_size)) {
        (Some(_), Some(o), Some(l)) => Some((o, l, a2 + f.length_size)),
        _ => None,
    }
}

/// The entry of an `iloc` box at `at`, and where it ends.
pub open spec fn loc_at(f: IlocFormat, b: Seq<u8>, at: int) -> Option<(Loc, int)> {
    let has_method = f.version == 1 || f.version == 2;
    let a1 = at + if f.version < 2 {
        2int
    } else {
        4int
    };
    let a2 = a1 + if has_method {
        2int
    } else {
        0int
    };
    let a3 = a2 + 2 + f.base_size;
    if a3 + 2 > b.len() {
        None
    } else {
        match (uint(b, a2 + 2, f.base_size), extents_end(f, b, a3 + 2, be16(b, a3) as int)) {
            (Some(base), Some(end)) => Some(
                (
                    Loc {
                        id: if f.version < 2 {
                            be16(b, at) as u32
                        } else {
                            be32(b, at)
                        },
                        method: if has_method {
                            (be16(b, a1) % 0x10) as u8
                        } else {
                            0
                        },
                        extent_count: be16(b, a3),
                        first_extent: match extent(f, b, a3 + 2) {
                            Some((o, l, _)) if be16(b, a3) > 0 => Some((sat64(base + o), l)),
                            _ => None,
                        },
                    },
                    end,
                ),
            ),
            _ => None,
        }
    }
}

/// The entries from `at` on, at most `n`, up to the first that is not all there.
pub open spec fn locs(f: IlocFormat, b: Seq<u8>, at: int, n: int) -> Seq<Loc>
    decreases n,
{
    if n <= 0 {
        seq![]
    } else {
        match loc_at(f, b, at) {
            Some((l, end)) => seq![l] + locs(f, b, end, n - 1),
            None => seq![],
        }
    }
}

/// The places that the payload of an `iloc` box gives.
pub open spec fn iloc(p: Seq<u8>) -> Seq<Loc> {
    if p.len() < 8 || (p[0] >= 2 && p.len() < 10) {
        seq![]
    } else {
        let f = IlocFormat {
            version: p[0],
            offset_size: p[4] / 0x10,
            length_size: p[4] % 0x10,
            base_size: p[5] / 0x10,
            index_size: if p[0] == 1 || p[0] == 2 {
                p[5] % 0x10
            } else {
                0
            },
        };
        if p[0] < 2 {
            locs(f, p, 8, be16(p, 6) as int)
        } else {
            locs(f, p, 10, be32(p, 6) as int)
        }
    }
}

fn read_extent(f: &IlocFormat, cur: &mut ByteCursor) -> (r: Option<(u64, u64)>)
    ensures
        0 <= old(cur)@.at <= old(cur)@.data.len(),
        0 <= final(cur)@.at <= final(cur)@.data.len(),
        final(cur)@.data == old(cur)@.data,
        match r {
            Some((o, l)) => extent(*f, old(cur)@.data, old(cur)@.at) == Some(
                (o, l, final(cur)@.at),
            ),
            None => extent(*f, old(cur)@.data, old(cur)@.at) is None,
        },
{
    if read_uint_be(cur, f.index_size).is_none() {
        return None;
    }
    let o: u64 = match read_uint_be(cur, f.offset_size) {
        Some(v) => v,
        None => return None,
    };
    match read_uint_be(cur, f.length_size) {
        Some(l) => Some((o, l)),
        None => None,
    }
}

/// Reads over `n` extents and keeps the first.
fn read_extents(f: &IlocFormat, cur: &mut ByteCursor, n: u16) -> (r: Option<Option<(u64, u64)>>)
    ensures
        0 <= old(cur)@.at <= old(cur)@.data.len(),
        0 <= final(cur)@.at <= final(cur)@.data.len(),
        final(cur)@.data == old(cur)@.data,
        match r {
            Some(first) => {
                &&& extents_end(*f, old(cur)@.data, old(cur)@.at, n as int) == Some(final(cur)@.at)
                &&& first == (match extent(*f, old(cur)@.data, old(cur)@.at) {
                    Some((o, l, _)) if n > 0 => Some((o, l)),
                    _ => None,
                })
            },
            None => extents_end(*f, old(cur)@.data, old(cur)@.at, n as int) is None,
        },
{
    let mut first: Option<(u64, u64)> = None;
    let mut i: u16 = 0;
    let _ = cur.position();
    let ghost start = cur@;
    while i < n
        invariant
            i <= n,
            start == old(cur)@,
            cur@.data == start.data,
            0 <= start.at <= start.data.len(),
            0 <= cur@.at <= cur@.data.len(),
            extents_end(*f, start.data, cur@.at, n - i) == extents_end(
                *f,
                start.data,
                start.at,
                n as int,
            ),
            i == 0 ==> cur@ == start && first is None,
            i > 0 ==> (match extent(*f, start.data, start.at) {
                Some((o, l, _)) => first == Some((o, l)),
                None => false,
            }),
        decreases n - i,
    {
        match read_extent(f, cur) {
            Some(e) => {
                if i == 0 {
                    first = Some(e);
                }
            },
            None => return None,
        }
        i += 1;
    }
    Some(first)
}

/// Reads the entry at the cursor.
fn read_loc(f: &IlocFormat, cur: &mut ByteCursor) -> (r: Option<Loc>)
    ensures
        0 <= old(cur)@.at <= old(cur)@.data.len(),
        0 <= final(cur)@.at <= final(cur)@.data.len(),
        final(cur)@.data == old(cur)@.data,
        match r {
            Some(l) => loc_at(*f, old(cur)@.data, old(cur)@.at) == Some((l, final(cur)@.at)),
            None => loc_at(*f, old(cur)@.data, old(cur)@.at) is None,
        },
{
    let _ = cur.position();
    let id: u32 = if f.version < 2 {
        match cur.u16(Endian::Big) {
            Some(v) => v as u32,
            None => return None,
        }
    } else {
        match cur.u32(Endian::Big) {
            Some(v) => v,
            None => return None,
        }
    };
    let method: u8 = if f.version == 1 || f.version == 2 {
        match cur.u16(Endian::Big) {
            Some(v) => (v % 0x10) as u8,
            None => return None,
        }
    } else {
        0
    };
    if cur.u16(Endian::Big).is_none() {
        return None;
    }
    let base: u64 = match read_uint_be(cur, f.base_size) {
        Some(v) => v,
        None => return None,
    };
    let extent_count: u16 = match cur.u16(Endian::Big) {
        Some(v) => v,
        None => return None,
    };
    match read_extents(f, cur, extent_count) {
        Some(Some((o, l))) => Some(
            Loc { id, method, extent_count, first_extent: Some((base.saturating_add(o), l)) },
        ),
        Some(None) => Some(Loc { id, method, extent_count, first_extent: None }),
        None => None,
    }
}

pub fn parse_iloc(payload: &[u8]) -> (r: Vec<Loc>)
    ensures
        r@ == iloc(payload@),
{
    let mut out: Vec<Loc> = Vec::new();
    let version: u8 = match full_box_vf(payload) {
        Some((v, _)) => v,
        None => return out,
    };
    let mut cur = ByteCursor::new(payload);
    if cur.seek(4).is_none() {
        return out;
    }
    let sizes: u8 = match cur.u8() {
        Some(b) => b,
        None => return out,
    };
    let sizes2: u8 = match cur.u8() {
        Some(b) => b,
        None => return out,
    };
    let f = IlocFormat {
        version,
        offset_size: sizes / 0x10,
        length_size: sizes % 0x10,
        base_size: sizes2 / 0x10,
        index_size: if version == 1 || version == 2 {
            sizes2 % 0x10
        } else {
            0
        },
    };
    let item_count: u32 = if version < 2 {
        match cur.u16(Endian::Big) {
            Some(c) => c as u32,
            None => return out,
        }
    } else {
        match cur.u32(Endian::Big) {
            Some(c) => c,
            None => return out,
        }
    };
    let mut left: u32 = item_count;
    assert(out@ + locs(f, payload@, cur@.at, left as int) =~= iloc(payload@));
    while left > 0
        invariant_except_break
            out@ + locs(f, payload@, cur@.at, left as int) == iloc(payload@),
        invariant
            cur@.data == payload@,
        ensures
            out@ == iloc(payload@),
        decreases left,
    {
        let ghost found = out@;
        match read_loc(&f, &mut cur) {
            Some(l) => {
                out.push(l);
                proof {
                    let rest = locs(f, payload@, cur@.at, left - 1);
                    assert(found.push(l) + rest =~= found + (seq![l] + rest));
                }
            },
            None => {
                assert(out@ + seq![] =~= out@);
                break;
            },
        }
        left -= 1;
        assert(left == 0 ==> out@ + seq![] =~= out@);
    }
    out
}

/// The number of the primary item that the payload of a `pitm` box gives.
pub open spec fn pitm(p: Seq<u8>) -> Option<u32> {
    if p.len() >= 6 && p[0] == 0 {
        Some(be16(p, 4) as u32)
    } else if p.len() >= 8 && p[0] != 0 {
        Some(be32(p, 4))
    } else {
        None
    }
}

pub fn parse_pitm(payload: &[u8]) -> (r: Option<u32>)
    ensures
        r == pitm(payload@),
{
    let version: u8 = match full_box_vf(payload) {
        Some((v, _)) => v,
        None => return None,
    };
    let mut cur = ByteCursor::new(payload);
    if cur.seek(4).is_none() {
        return None;
    }
    if version == 0 {
        match cur.u16(Endian::Big) {
            Some(v) => Some(v as u32),
            None => None,
        }
    } else {
        cur.u32(Endian::Big)
    }
}

/// The size that the payload of an `ispe` box gives.
pub open spec fn ispe(p: Seq<u8>) -> Option<(u32, u32)> {
    if p.len() >= 12 {
        Some((be32(p, 4), be32(p, 8)))
    } else {
        None
    }
}

pub fn parse_ispe(payload: &[u8]) -> (r: Option<(u32, u32)>)
    ensures
        r == ispe(payload@),
{
    if payload.len() < 12 {
        return None;
    }
    Some((read_be32(payload, 4), read_be32(payload, 8)))
}

/// The outcome of a search in the associations of an item: the size, where to go on, or
/// that the box ends too early.
pub enum Assoc {
    Found((u32, u32)),
    Next(int),
    Cut,
}

/// The search through the `n` associations at `at`. Property numbers start at 1; their
/// highest bit is a flag.
pub open spec fn assoc(
    b: Seq<u8>,
    at: int,
    n: int,
    wide: bool,
    primary: bool,
    props: Seq<Option<(u32, u32)>>,
) -> Assoc
    decreases n,
{
    let size = if wide {
        2int
    } else {
        1int
    };
    if n <= 0 {
        Assoc::Next(at)
    } else if at + size > b.len() {
        Assoc::Cut
    } else {
        let k = if wide {
            be16(b, at) as int % 0x8000
        } else {
            b[at] as int % 0x80
        };
        if primary && 1 <= k <= props.len() && props[k - 1] is Some {
            Assoc::Found(props[k - 1].unwrap())
        } else {
            assoc(b, at + size, n - 1, wide, primary, props)
        }
    }
}

/// The search through the `n` entries of an `ipma` box at `at`.
pub open spec fn ipma_entries(
    b: Seq<u8>,
    at: int,
    n: int,
    primary: u32,
    props: Seq<Option<(u32, u32)>>,
) -> Option<(u32, u32)>
    decreases n,
{
    let wide = be32(b, 0) % 2 == 1;
    let size = if b[0] < 1 {
        2int
    } else {
        4int
    };
    if n <= 0 || at + size + 1 > b.len() {
        None
    } else {
        let id = if b[0] < 1 {
            be16(b, at) as u32
        } else {
            be32(b, at)
        };
        match assoc(b, at + size + 1, b[at + size] as int, wide, id == primary, props) {
            Assoc::Found(d) => Some(d),
            Assoc::Next(end) => ipma_entries(b, end, n - 1, primary, props),
            Assoc::Cut => None,
        }
    }
}

/// The size that the payload of an `ipma` box associates with the primary item.
pub open spec fn ipma(p: Seq<u8>, primary: u32, props: Seq<Option<(u32, u32)>>) -> Option<
    (u32, u32),
> {
    if p.len() < 8 {
        None
    } else {
        ipma_entries(p, 8, be32(p, 4) as int, primary, props)
    }
}

/// How a search through associations ended.
enum Search {
    Found((u32, u32)),
    Next,
    Cut,
}

fn search_assoc(
    cur: &mut ByteCursor,
    n: u8,
    wide: bool,
    primary: bool,
    props: &Vec<Option<(u32, u32)>>,
) -> (r: Search)
    ensures
        0 <= old(cur)@.at <= old(cur)@.data.len(),
        0 <= final(cur)@.at <= final(cur)@.data.len(),
        final(cur)@.data == old(cur)@.data,
        match r {
            Search::Found(d) => assoc(old(cur)@.data, old(cur)@.at, n as int, wide, primary, props@)
                == Assoc::Found(d),
            Search::Next => assoc(old(cur)@.data, old(cur)@.at, n as int, wide, primary, props@)
                == Assoc::Next(final(cur)@.at),
            Search::Cut => assoc(old(cur)@.data, old(cur)@.at, n as int, wide, primary, props@)
                == Assoc::Cut,
        },
{
    let mut left: u8 = n;
    let _ = cur.position();
    let ghost start = cur@;
    while left > 0
        invariant
            start == old(cur)@,
            cur@.data == start.data,
            0 <= start.at <= start.data.len(),
            0 <= cur@.at <= cur@.data.len(),
            assoc(start.data, cur@.at, left as int, wide, primary, props@) == assoc(
                start.data,
                start.at,
                n as int,
                wide,
                primary,
                props@,
            ),
        decreases left,
    {
        let k: usize = if wide {
            match cur.u16(Endian::Big) {
                Some(v) => (v % 0x8000) as usize,
                None => return Search::Cut,
            }
        } else {
            match cur.u8() {
                Some(v) => (v % 0x80) as usize,
                None => return Search::Cut,
            }
        };
        if primary && 1 <= k && k <= props.len() {
            match props[k - 1] {
                Some(d) => {
                    return Search::Found(d);
                },
                None => {},
            }
        }
        left -= 1;
    }
    Search::Next
}

pub fn dims_via_ipma(payload: &[u8], primary: u32, props: &Vec<Option<(u32, u32)>>) -> (r: Option<
    (u32, u32),
>)
    ensures
        r == ipma(payload@, primary, props@),
{
    let (version, flags): (u8, u32) = match full_box_vf(payload) {
        Some(v) => v,
        None => return None,
    };
    let mut cur = ByteCursor::new(payload);
    if cur.seek(4).is_none() {
        return None;
    }
    let mut left: u32 = match cur.u32(Endian::Big) {
        Some(c) => c,
        None => return None,
    };
    let wide: bool = flags % 2 == 1;
    assert(wide == (be32(payload@, 0) % 2 == 1));
    while left > 0
        invariant
            payload@.len() >= 8,
            cur@.data == payload@,
            version == payload@[0],
            wide == (be32(payload@, 0) % 2 == 1),
            ipma_entries(payload@, cur@.at, left as int, primary, props@) == ipma(
                payload@,
                primary,
                props@,
            ),
        decreases left,
    {
        let item_id: u32 = if version < 1 {
            match cur.u16(Endian::Big) {
                Some(v) => v as u32,
                None => return None,
            }
        } else {
            match cur.u32(Endian::Big) {
                Some(v) => v,
                None => return None,
            }
        };
        let assoc_count: u8 = match cur.u8() {
            Some(v) => v,
            None => return None,
        };
        match search_assoc(&mut cur, assoc_count, wide, item_id == primary, props) {
            Search::Found(d) => return Some(d),
            Search::Next => {},
            Search::Cut => return None,
        }
        left -= 1;
    }
    None
}

/// The sizes that the properties in an `ipco` box give, in their order.
pub open spec fn properties(cs: Seq<Child>) -> Seq<Option<(u32, u32)>> {
    Seq::new(
        cs.len(),
        |i: int|
            if cs[i].header.kind == lit("ispe") {
                ispe(cs[i].payload)
            } else {
                None
            },
    )
}

/// The sizes among `props`.
pub open spec fn sizes(props: Seq<Option<(u32, u32)>>) -> Seq<(u32, u32)>
    decreases props.len(),
{
    if props.len() == 0 {
        seq![]
    } else {
        match props.last() {
            Some(d) => sizes(props.drop_last()).push(d),
            None => sizes(props.drop_last()),
        }
    }
}

/// The size of the primary item that the payload of an `iprp` box gives: the one that is
/// associated with it, else the only one there is.
pub open spec fn iprp(p: Seq<u8>, primary: Option<u32>) -> Option<(u32, u32)> {
    match last_payload(children(p), lit("ipco")) {
        None => None,
        Some(ipco) => {
            let props = properties(children(ipco));
            let via = match (last_payload(children(p), lit("ipma")), primary) {
                (Some(a), Some(id)) => ipma(a, id, props),
                _ => None,
            };
            match via {
                Some(d) => Some(d),
                None => if sizes(props).len() == 1 {
                    Some(sizes(props)[0])
                } else {
                    None
                },
            }
        },
    }
}

fn parse_properties(ipco: &[u8]) -> (r: Vec<Option<(u32, u32)>>)
    ensures
        r@ == properties(children(ipco@)),
{
    let mut props: Vec<Option<(u32, u32)>> = Vec::new();
    let mut it = iter_child_boxes(ipco);
    let ghost mut seen: Seq<Child> = seq![];
    assert(seen + it.boxes() =~= it.boxes());
    loop
        invariant
            seen + it.boxes() == children(ipco@),
            props@ == properties(seen),
        decreases it.left(),
    {
        let ghost before = it.boxes();
        match it.next() {
            Some((hdr, p)) => {
                let ghost prior = props@;
                let d = if hdr.is("ispe") {
                    parse_ispe(p)
                } else {
                    None
                };
                props.push(d);
                proof {
                    assert(seen.push(before[0]) + it.boxes() =~= seen + before);
                    assert(properties(seen.push(before[0])) =~= prior.push(d));
                    seen = seen.push(before[0]);
                }
            },
            None => {
                assert(seen + before =~= seen);
                return props;
            },
        }
    }
}

fn only_size(props: &Vec<Option<(u32, u32)>>) -> (r: Option<(u32, u32)>)
    ensures
        r == (if sizes(props@).len() == 1 {
            Some(sizes(props@)[0])
        } else {
            None
        }),
{
    let mut found: Option<(u32, u32)> = None;
    let mut many: bool = false;
    let mut i: usize = 0;
    while i < props.len()
        invariant
            i <= props@.len(),
            many ==> sizes(props@.take(i as int)).len() > 1,
            !many ==> sizes(props@.take(i as int)).len() <= 1,
            found is None ==> sizes(props@.take(i as int)).len() == 0,
            found matches Some(d) ==> sizes(props@.take(i as int)).len() >= 1 && sizes(
                props@.take(i as int),
            ).last() == d,
        decreases props@.len() - i,
    {
        assert(props@.take(i + 1).drop_last() =~= props@.take(i as int));
        match props[i] {
            Some(d) => {
                many = found.is_some();
                found = Some(d);
            },
            None => {},
        }
        i += 1;
    }
    assert(props@.take(props@.len() as int) =~= props@);
    if many {
        None
    } else {
        found
    }
}

pub fn dims_from_iprp(payload: &[u8], primary: Option<u32>) -> (r: Option<(u32, u32)>)
    ensures
        r == iprp(payload@, primary),
{
    let ipco = match find_last(payload, "ipco") {
        Some(p) => p,
        None => return None,
    };
    let props = parse_properties(ipco);
    match (find_last(payload, "ipma"), primary) {
        (Some(a), Some(id)) => {
            match dims_via_ipma(a, id, &props) {
                Some(d) => return Some(d),
                None => {},
            }
        },
        _ => {},
    }
    only_size(&props)
}

/// A payload that lies elsewhere in the file.
#[derive(Debug, Clone, Copy, PartialEq, Eq, Structural)]
pub struct Target {
    pub offset: u64,
    pub length: u64,
    pub kind: PayloadKind,
}

/// The TIFF data of an EXIF item: it starts behind a 32-bit offset by as many bytes as
/// that says.
pub open spec fn exif_item(d: Seq<u8>) -> Seq<u8> {
    if d.len() < 4 {
        d
    } else if 4 + be32(d, 0) <= d.len() {
        unmarked(tail(d, 4 + be32(d, 0)))
    } else {
        seq![]
    }
}

pub fn strip_exif_prefix<'a>(d: &'a [u8]) -> (r: &'a [u8])
    ensures
        r@ == exif_item(d@),
{
    if d.len() < 4 {
        return d;
    }
    let n: u32 = read_be32(d, 0);
    if n as u64 > (d.len() - 4) as u64 {
        let e = part(d, 0, 0);
        assert(e@ =~= seq![]);
        return e;
    }
    let rest = rest_of(d, 4 + n as usize);
    if starts_with(rest, "Exif\0\0") {
        proof {
            lemma_exif_marker();
        }
        rest_of(rest, 6)
    } else {
        rest
    }
}

/// The payload in the data of an item.
pub open spec fn item_payload(kind: PayloadKind, d: Seq<u8>) -> Seq<u8> {
    match kind {
        PayloadKind::Exif => exif_item(d),
        PayloadKind::Xmp => d,
    }
}

pub fn read_item_payload<'a>(kind: PayloadKind, d: &'a [u8]) -> (r: &'a [u8])
    ensures
        r@ == item_payload(kind, d@),
{
    match kind {
        PayloadKind::Exif => strip_exif_prefix(d),
        PayloadKind::Xmp => d,
    }
}

/// The first entry for the item `id`.
pub open spec fn loc_of(ls: Seq<Loc>, id: u32) -> Option<Loc>
    decreases ls.len(),
{
    if ls.len() == 0 {
        None
    } else if ls[0].id == id {
        Some(ls[0])
    } else {
        loc_of(ls.drop_first(), id)
    }
}

fn find_loc(ls: &Vec<Loc>, id: u32) -> (r: Option<Loc>)
    ensures
        r == loc_of(ls@, id),
{
    let mut i: usize = 0;
    assert(ls@.subrange(0, ls@.len() as int) =~= ls@);
    while i < ls.len()
        invariant
            i <= ls@.len(),
            loc_of(ls@.subrange(i as int, ls@.len() as int), id) == loc_of(ls@, id),
        decreases ls@.len() - i,
    {
        if ls[i].id == id {
            return Some(ls[i]);
        }
        assert(ls@.subrange(i as int, ls@.len() as int).drop_first() =~= ls@.subrange(
            i + 1,
            ls@.len() as int,
        ));
        i += 1;
    }
    None
}

/// What becomes of an item: nothing, a warning, a payload at hand or one to go for.
pub enum Place {
    Nothing,
    Unreachable,
    Inline(Seq<u8>),
    Away(Target),
}

/// Where the item `w` is to be had. An item in several pieces, one built from other
/// items, and one outside the `idat` box cannot.
pub open spec fn place(w: Wanted, ls: Seq<Loc>, idat: Option<Seq<u8>>) -> Place {
    match loc_of(ls, w.id) {
        None => Place::Nothing,
        Some(l) => if l.extent_count != 1 {
            Place::Unreachable
        } else {
            match l.first_extent {
                None => Place::Nothing,
                Some((off, len)) => if l.method == 0 {
                    Place::Away(Target { offset: off, length: len, kind: w.kind })
                } else {
                    match idat {
                        Some(d) if l.method == 1 && off + len <= d.len() => Place::Inline(
                            item_payload(w.kind, d.subrange(off as int, off + len)),
                        ),
                        _ => Place::Unreachable,
                    }
                },
            }
        },
    }
}

/// `ts` with `t` put behind all that lie at its offset or before.
pub open spec fn insert_target(ts: Seq<Target>, t: Target) -> Seq<Target>
    decreases ts.len(),
{
    if ts.len() > 0 && ts.last().offset > t.offset {
        insert_target(ts.drop_last(), t).push(ts.last())
    } else {
        ts.push(t)
    }
}

/// What a `meta` box gives.
pub struct MetaPlan<'a> {
    pub dims: Option<(u32, u32)>,
    /// Payloads inside the box.
    pub inline: Vec<(PayloadKind, &'a [u8])>,
    /// Payloads elsewhere in the file, by ascending offset.
    pub targets: Vec<Target>,
    pub warnings: Vec<Warning>,
}

#[verifier::ext_equal]
pub struct PlanView {
    pub dims: Option<(u32, u32)>,
    pub inline: Seq<(PayloadKind, Seq<u8>)>,
    pub targets: Seq<Target>,
    pub warnings: Seq<Warning>,
}

pub open spec fn inline_views(s: Seq<(PayloadKind, &[u8])>) -> Seq<(PayloadKind, Seq<u8>)> {
    Seq::new(s.len(), |i: int| (s[i].0, s[i].1@))
}

impl<'a> View for MetaPlan<'a> {
    type V = PlanView;

    open spec fn view(&self) -> PlanView {
        PlanView {
            dims: self.dims,
            inline: inline_views(self.inline@),
            targets: self.targets@,
            warnings: self.warnings@,
        }
    }
}

/// What the item `w` adds to a plan.
pub open spec fn plan_step(
    m: PlanView,
    w: Wanted,
    ls: Seq<Loc>,
    idat: Option<Seq<u8>>,
    base: u64,
) -> PlanView {
    match place(w, ls, idat) {
        Place::Nothing => m,
        Place::Unreachable => PlanView {
            warnings: m.warnings.push(
                Warning { offset: base, kind: WarnKind::UnreachableSection },
            ),
            ..m
        },
        Place::Inline(d) => PlanView { inline: m.inline.push((w.kind, d)), ..m },
        Place::Away(t) => PlanView { targets: insert_target(m.targets, t), ..m },
    }
}

pub open spec fn plan_items(
    m: PlanView,
    ws: Seq<Wanted>,
    ls: Seq<Loc>,
    idat: Option<Seq<u8>>,
    base: u64,
) -> PlanView
    decreases ws.len(),
{
    if ws.len() == 0 {
        m
    } else {
        plan_step(plan_items(m, ws.drop_last(), ls, idat, base), ws.last(), ls, idat, base)
    }
}

pub open spec fn no_plan() -> PlanView {
    PlanView { dims: None, inline: seq![], targets: seq![], warnings: seq![] }
}

/// What the payload of a `meta` box at `base` gives.
pub open spec fn meta(p: Seq<u8>, base: u64) -> PlanView {
    if p.len() < 4 {
        no_plan()
    } else {
        let cs = children(tail(p, 4));
        let ws = match last_payload(cs, lit("iinf")) {
            Some(b) => iinf(b),
            None => seq![],
        };
        let ls = match last_payload(cs, lit("iloc")) {
            Some(b) => iloc(b),
            None => seq![],
        };
        let primary = match last_payload(cs, lit("pitm")) {
            Some(b) => pitm(b),
            None => None,
        };
        let start = PlanView {
            dims: match last_payload(cs, lit("iprp")) {
                Some(b) => iprp(b, primary),
                None => None,
            },
            ..no_plan()
        };
        plan_items(start, ws, ls, last_payload(cs, lit("idat")), base)
    }
}

/// Puts a target where its offset belongs.
fn add_target(ts: &mut Vec<Target>, t: Target)
    ensures
        final(ts)@ == insert_target(old(ts)@, t),
{
    let mut i: usize = ts.len();
    let ghost all = ts@;
    assert(all.take(i as int) =~= all);
    assert(insert_target(all.take(i as int), t) + all.subrange(i as int, all.len() as int)
        =~= insert_target(all, t));
    while i > 0 && ts[i - 1].offset > t.offset
        invariant
            i <= ts@.len(),
            ts@ == all,
            insert_target(all.take(i as int), t) + all.subrange(i as int, all.len() as int)
                == insert_target(all, t),
        decreases i,
    {
        proof {
            let head = all.take(i as int);
            assert(head.drop_last() =~= all.take(i - 1));
            assert(insert_target(all.take(i - 1), t).push(all[i - 1]) + all.subrange(
                i as int,
                all.len() as int,
            ) =~= insert_target(all.take(i - 1), t) + all.subrange(i - 1, all.len() as int));
        }
        i -= 1;
    }
    ts.insert(i, t);
    assert(ts@ =~= all.take(i as int).push(t) + all.subrange(i as int, all.len() as int));
}

fn add_item<'a>(
    plan: &mut MetaPlan<'a>,
    w: Wanted,
    ls: &Vec<Loc>,
    idat: Option<&'a [u8]>,
    base: u64,
)
    ensures
        final(plan)@ == plan_step(old(plan)@, w, ls@, opt_bytes(idat), base),
{
    let ghost before = plan@;
    let loc = match find_loc(ls, w.id) {
        Some(l) => l,
        None => return,
    };
    let warning = Warning { offset: base, kind: WarnKind::UnreachableSection };
    if loc.extent_count != 1 {
        plan.warnings.push(warning);
        return ;
    }
    let (off, len): (u64, u64) = match loc.first_extent {
        Some(e) => e,
        None => return,
    };
    if loc.method == 0 {
        add_target(&mut plan.targets, Target { offset: off, length: len, kind: w.kind });
        return ;
    }
    match idat {
        Some(d) => {
            if loc.method == 1 && off <= d.len() as u64 && len <= d.len() as u64 - off {
                let data = part(d, off as usize, off as usize + len as usize);
                let payload = read_item_payload(w.kind, data);
                plan.inline.push((w.kind, payload));
                assert(plan@.inline =~= before.inline.push((w.kind, payload@)));
            } else {
                plan.warnings.push(warning);
            }
        },
        None => {
            plan.warnings.push(warning);
        },
    }
}

/// Reads the payload of a `meta` box that stands at `base` in the file.
pub fn parse_meta<'a>(payload: &'a [u8], base: u64) -> (r: MetaPlan<'a>)
    ensures
        r@ == meta(payload@, base),
{
    let mut plan = MetaPlan {
        dims: None,
        inline: Vec::new(),
        targets: Vec::new(),
        warnings: Vec::new(),
    };
    assert(plan@ =~= no_plan());
    if payload.len() < 4 {
        return plan;
    }
    let body = rest_of(payload, 4);
    let items: Vec<Wanted> = match find_last(body, "iinf") {
        Some(p) => parse_iinf(p),
        None => Vec::new(),
    };
    let ls: Vec<Loc> = match find_last(body, "iloc") {
        Some(p) => parse_iloc(p),
        None => Vec::new(),
    };
    let idat = find_last(body, "idat");
    let primary = match find_last(body, "pitm") {
        Some(p) => parse_pitm(p),
        None => None,
    };
    match find_last(body, "iprp") {
        Some(p) => {
            plan.dims = dims_from_iprp(p, primary);
        },
        None => {},
    }
    let ghost start = plan@;
    let mut i: usize = 0;
    while i < items.len()
        invariant
            i <= items@.len(),
            plan@ == plan_items(start, items@.take(i as int), ls@, opt_bytes(idat), base),
        decreases items@.len() - i,
    {
        assert(items@.take(i + 1).drop_last() =~= items@.take(i as int));
        add_item(&mut plan, items[i], &ls, idat, base);
        i += 1;
    }
    assert(items@.take(items@.len() as int) =~= items@);
    plan
}

/// Offsets that ascend.
pub open spec fn ascending(ts: Seq<Target>) -> bool {
    forall|i: int, j: int| 0 <= i <= j < ts.len() ==> ts[i].offset <= ts[j].offset
}

proof fn lemma_insert_ascending(ts: Seq<Target>, t: Target)
    requires
        ascending(ts),
    ensures
        ascending(insert_target(ts, t)),
        insert_target(ts, t).len() == ts.len() + 1,
        forall|k: int|
            0 <= k < insert_target(ts, t).len() ==> (#[trigger] insert_target(ts, t)[k]) == t
                || ts.contains(insert_target(ts, t)[k]),
    decreases ts.len(),
{
    if ts.len() > 0 && ts.last().offset > t.offset {
        let front = ts.drop_last();
        lemma_insert_ascending(front, t);
        let r = insert_target(front, t);
        assert forall|k: int| 0 <= k < r.len() implies (#[trigger] r[k]).offset
            <= ts.last().offset && (r[k] == t || ts.contains(r[k])) by {
            if r[k] != t {
                let m = choose|m: int| 0 <= m < front.len() && front[m] == r[k];
                assert(ts[m] == r[k]);
                assert(ts[m].offset <= ts[ts.len() - 1].offset);
            }
        }
        assert(ts[ts.len() - 1] == ts.last());
    } else {
        assert forall|i: int| 0 <= i < ts.len() implies (#[trigger] ts[i]).offset <= t.offset by {
            assert(ts[i].offset <= ts[ts.len() - 1].offset);
        }
    }
}

proof fn lemma_plan_ascending(
    m: PlanView,
    ws: Seq<Wanted>,
    ls: Seq<Loc>,
    idat: Option<Seq<u8>>,
    base: u64,
)
    requires
        ascending(m.targets),
    ensures
        ascending(plan_items(m, ws, ls, idat, base).targets),
    decreases ws.len(),
{
    if ws.len() > 0 {
        lemma_plan_ascending(m, ws.drop_last(), ls, idat, base);
        let before = plan_items(m, ws.drop_last(), ls, idat, base);
        match place(ws.last(), ls, idat) {
            Place::Away(t) => {
                lemma_insert_ascending(before.targets, t);
            },
            _ => {},
        }
    }
}

/// The payloads to go for come by ascending offset, whatever the order in which the box
/// lists them: a source that cannot go back finds all that do not overlap.
pub proof fn targets_ascend(p: Seq<u8>, base: u64)
    ensures
        ascending(meta(p, base).targets),
{
    if p.len() >= 4 {
        let cs = children(tail(p, 4));
        let ws = match last_payload(cs, lit("iinf")) {
            Some(b) => iinf(b),
            None => seq![],
        };
        let ls = match last_payload(cs, lit("iloc")) {
            Some(b) => iloc(b),
            None => seq![],
        };
        let primary = match last_payload(cs, lit("pitm")) {
            Some(b) => pitm(b),
            None => None,
        };
        let start = PlanView {
            dims: match last_payload(cs, lit("iprp")) {
                Some(b) => iprp(b, primary),
                None => None,
            },
            ..no_plan()
        };
        lemma_plan_ascending(start, ws, ls, last_payload(cs, lit("idat")), base);
    }
}

} // verus!
