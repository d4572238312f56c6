//! Items of image files: which of them hold metadata, where they lie, and what is fetched.
use vstd::multiset::Multiset;
use vstd::prelude::*;
use vstd::seq_lib::group_to_multiset_ensures;

use crate::bytes::{be16, be32, find_from, has_prefix, lemma_find_from, lit, tail};
use crate::containers::isobmff::{children, uint, Child};
use crate::demand::PayloadKind;
use crate::formats::items::{
    content_type, exif_item, extent, extents_end, iinf, iloc, infe, insert_target, item_payload,
    loc_at, loc_of, locs, place, plan_items, wanted, IlocFormat, Loc, Place, PlanView, Target,
    Wanted,
};
use crate::laws::heif_files::{boxes, boxes_are_walked, proper};
use crate::laws::image_items::{four_bytes, lemma_four, lemma_two, two_bytes};
use crate::laws::jpeg_pieces::{begins, lemma_prefix};
use crate::laws::png_files::unbroken;
use crate::model::{WarnKind, Warning};

verus! {

/// What an item is: its number, in two bytes or in four, an index, its type, its name, and
/// what follows that: the content type of an item of type `mime`, and more.
pub struct Described {
    pub long: bool,
    pub flags: Seq<u8>,
    pub id: int,
    pub index: Seq<u8>,
    pub kind: Seq<u8>,
    pub name: Seq<u8>,
    pub content: Seq<u8>,
    pub more: Seq<u8>,
}

pub open spec fn described_bytes(d: Described) -> Seq<u8> {
    seq![
        if d.long {
            3u8
        } else {
            2u8
        },
    ] + d.flags + (if d.long {
        four_bytes(d.id)
    } else {
        two_bytes(d.id)
    }) + d.index + d.kind + (d.name + seq![0u8] + (d.content + d.more))
}

pub open spec fn well_described(d: Described) -> bool {
    &&& d.flags.len() == 3
    &&& 0 <= d.id
    &&& d.id < (if d.long {
        0x1_0000_0000int
    } else {
        65536
    })
    &&& d.index.len() == 2
    &&& d.kind.len() == 4
    &&& unbroken(d.name)
    &&& unbroken(d.content)
    &&& d.more.len() > 0 ==> d.more[0] == 0
}

/// An item of type `Exif` holds EXIF data, and one of type `mime` XMP, where its content type
/// is that of RDF.
pub open spec fn holds(d: Described) -> Option<Wanted> {
    if d.kind == lit("Exif") {
        Some(Wanted { id: d.id as u32, kind: PayloadKind::Exif })
    } else if d.kind == lit("mime") && d.content == lit("application/rdf+xml") {
        Some(Wanted { id: d.id as u32, kind: PayloadKind::Xmp })
    } else {
        None
    }
}

proof fn lemma_content(name: Seq<u8>, content: Seq<u8>, more: Seq<u8>)
    requires
        unbroken(name),
        unbroken(content),
        more.len() > 0 ==> more[0] == 0,
    ensures
        content_type(name + seq![0u8] + (content + more)) == Some(content),
{
    let b = name + seq![0u8] + (content + more);
    let n = name.len() as int;
    lemma_find_from(b, 0, 0);
    let z = find_from(b, 0, 0);
    assert(b[n] == 0);
    if z < n {
        assert(b[z] == name[z]);
    }
    let c = content + more;
    assert(tail(b, n + 1) =~= c);
    lemma_find_from(c, 0, 0);
    let f = find_from(c, 0, 0);
    let k = content.len() as int;
    if f < k {
        assert(c[f] == content[f]);
    }
    if more.len() > 0 {
        assert(c[k] == 0);
    }
    assert(c.subrange(0, k) =~= content);
}

/// What stands behind `a` in `b`.
proof fn lemma_between(b: Seq<u8>, at: int, a: Seq<u8>, m: Seq<u8>, x: Seq<u8>)
    requires
        0 <= at <= b.len(),
        tail(b, at) == a + (m + x),
    ensures
        b.len() == at + a.len() + m.len() + x.len(),
        b.subrange(at + a.len(), at + a.len() + m.len()) == m,
        tail(b, at + a.len()) == m + x,
        tail(b, at + a.len() + m.len()) == x,
{
    let t = tail(b, at);
    assert(t.len() == b.len() - at);
    let k = a.len() as int;
    let n = m.len() as int;
    assert(b.subrange(at + k, at + k + n) =~= t.subrange(k, k + n));
    assert(t.subrange(k, k + n) =~= m);
    assert(tail(b, at + k) =~= tail(t, k));
    assert(tail(t, k) =~= m + x);
    assert(tail(b, at + k + n) =~= tail(t, k + n));
    assert(tail(t, k + n) =~= x);
}

proof fn lemma_infe(d: Described)
    requires
        well_described(d),
    ensures
        infe(described_bytes(d)) == holds(d),
{
    let b = described_bytes(d);
    let at = if d.long {
        8int
    } else {
        6int
    };
    let names = d.name + seq![0u8] + (d.content + d.more);
    assert(b[0] == (if d.long {
        3u8
    } else {
        2u8
    }));
    if d.long {
        assert(b.subrange(4, 8) =~= four_bytes(d.id));
        lemma_four(b, 4, d.id);
    } else {
        assert(b.subrange(4, 6) =~= two_bytes(d.id));
        lemma_two(b, 4, d.id);
    }
    assert(b.len() == at + 6 + names.len());
    assert(b.subrange(at + 2, at + 6) =~= d.kind);
    assert(tail(b, at + 6) =~= names);
    lemma_content(d.name, d.content, d.more);
}

/// The descriptions of items are read: which number has what.
pub proof fn items_are_described(d: Described)
    requires
        well_described(d),
    ensures
        infe(described_bytes(d)) == holds(d),
{
    lemma_infe(d);
}

pub open spec fn described_boxes(ds: Seq<Described>) -> Seq<(Seq<u8>, Seq<u8>)> {
    Seq::new(ds.len(), |i: int| (lit("infe"), described_bytes(ds[i])))
}

pub open spec fn all_held(ds: Seq<Described>) -> Seq<Wanted>
    decreases ds.len(),
{
    if ds.len() == 0 {
        seq![]
    } else {
        match holds(ds[0]) {
            Some(w) => seq![w] + all_held(ds.drop_first()),
            None => all_held(ds.drop_first()),
        }
    }
}

proof fn lemma_wanted(cs: Seq<Child>, ds: Seq<Described>)
    requires
        cs.len() == ds.len(),
        forall|i: int|
            0 <= i < ds.len() ==> (#[trigger] cs[i]).header.kind == lit("infe") && cs[i].payload
                == described_bytes(ds[i]),
        forall|i: int| 0 <= i < ds.len() ==> well_described(#[trigger] ds[i]),
    ensures
        wanted(cs, ds.len() as int) == all_held(ds),
    decreases ds.len(),
{
    if ds.len() > 0 {
        let (c, d) = (cs.drop_first(), ds.drop_first());
        assert(cs[0].header.kind == lit("infe") && cs[0].payload == described_bytes(ds[0]));
        assert(well_described(ds[0]));
        lemma_infe(ds[0]);
        assert forall|i: int| 0 <= i < d.len() implies (#[trigger] c[i]).header.kind == lit("infe")
            && c[i].payload == described_bytes(d[i]) by {
            assert(c[i] == cs[i + 1] && d[i] == ds[i + 1]);
        }
        assert forall|i: int| 0 <= i < d.len() implies well_described(#[trigger] d[i]) by {
            assert(d[i] == ds[i + 1]);
        }
        lemma_wanted(c, d);
    }
}

/// A list of items is read, in the short form and in the long one.
pub proof fn item_lists_are_read(ds: Seq<Described>, flags: Seq<u8>, long: bool)
    requires
        flags.len() == 3,
        proper(described_boxes(ds)),
        forall|i: int| 0 <= i < ds.len() ==> well_described(#[trigger] ds[i]),
        ds.len() < (if long {
            0x1_0000_0000int
        } else {
            65536
        }),
    ensures
        iinf(
            if long {
                seq![1u8] + flags + four_bytes(ds.len() as int) + boxes(described_boxes(ds))
            } else {
                seq![0u8] + flags + two_bytes(ds.len() as int) + boxes(described_boxes(ds))
            },
        ) == all_held(ds),
{
    let bs = boxes(described_boxes(ds));
    let n = ds.len() as int;
    boxes_are_walked(described_boxes(ds));
    let cs = children(bs);
    assert forall|i: int| 0 <= i < n implies (#[trigger] cs[i]).header.kind == lit("infe")
        && cs[i].payload == described_bytes(ds[i]) by {
        assert(described_boxes(ds)[i] == (lit("infe"), described_bytes(ds[i])));
    }
    lemma_wanted(cs, ds);
    if long {
        let p = seq![1u8] + flags + four_bytes(n) + bs;
        assert(p.subrange(4, 8) =~= four_bytes(n));
        lemma_four(p, 4, n);
        assert(tail(p, 8) =~= bs);
    } else {
        let p = seq![0u8] + flags + two_bytes(n) + bs;
        assert(p.subrange(4, 6) =~= two_bytes(n));
        lemma_two(p, 4, n);
        assert(tail(p, 6) =~= bs);
    }
}

/// A number in no bytes, four or eight.
pub open spec fn in_width(n: int, x: int) -> Seq<u8> {
    if n == 4 {
        four_bytes(x)
    } else if n == 8 {
        four_bytes(x / 0x1_0000_0000) + four_bytes(x % 0x1_0000_0000)
    } else {
        seq![]
    }
}

pub open spec fn in_reach(n: int, x: int) -> bool {
    if n == 4 {
        0 <= x < 0x1_0000_0000
    } else if n == 8 {
        0 <= x < 0x1_0000_0000_0000_0000
    } else {
        n == 0 && x == 0
    }
}

proof fn lemma_width(b: Seq<u8>, at: int, n: u8, x: int)
    requires
        in_reach(n as int, x),
        0 <= at,
        at + n <= b.len(),
        b.subrange(at, at + n) == in_width(n as int, x),
    ensures
        uint(b, at, n) == Some(x as u64),
        in_width(n as int, x).len() == n,
{
    let s = b.subrange(at, at + n);
    if n == 4 {
        lemma_four(b, at, x);
    } else if n == 8 {
        let (h, l) = (x / 0x1_0000_0000, x % 0x1_0000_0000);
        assert(b.subrange(at, at + 4) =~= s.subrange(0, 4));
        assert(s.subrange(0, 4) =~= four_bytes(h));
        assert(b.subrange(at + 4, at + 8) =~= s.subrange(4, 8));
        assert(s.subrange(4, 8) =~= four_bytes(l));
        lemma_four(b, at, h);
        lemma_four(b, at + 4, l);
    }
}

/// The widths of the numbers in a list of places, and its version.
pub struct Widths {
    pub version: u8,
    pub offset: u8,
    pub length: u8,
    pub base: u8,
    pub index: u8,
}

pub open spec fn good_widths(w: Widths) -> bool {
    &&& w.version <= 2
    &&& w.offset == 0 || w.offset == 4 || w.offset == 8
    &&& w.length == 0 || w.length == 4 || w.length == 8
    &&& w.base == 0 || w.base == 4 || w.base == 8
    &&& w.index == 0 || w.index == 4 || w.index == 8
    &&& w.version == 0 ==> w.index == 0
}

/// A piece of an item: an index, the offset and the length.
pub struct Extent {
    pub index: int,
    pub offset: int,
    pub length: int,
}

/// Where an item lies: its number, how its offsets count, a reference, the base of the offsets,
/// and its pieces.
pub struct Lies {
    pub id: int,
    pub method: int,
    pub reference: Seq<u8>,
    pub base: int,
    pub extents: Seq<Extent>,
}

pub open spec fn extent_bytes(w: Widths, e: Extent) -> Seq<u8> {
    in_width(w.index as int, e.index) + (in_width(w.offset as int, e.offset) + in_width(
        w.length as int,
        e.length,
    ))
}

pub open spec fn extents_bytes(w: Widths, es: Seq<Extent>) -> Seq<u8>
    decreases es.len(),
{
    if es.len() == 0 {
        seq![]
    } else {
        extent_bytes(w, es[0]) + extents_bytes(w, es.drop_first())
    }
}

pub open spec fn id_bytes(w: Widths, x: Lies) -> Seq<u8> {
    if w.version < 2 {
        two_bytes(x.id)
    } else {
        four_bytes(x.id)
    }
}

pub open spec fn method_bytes(w: Widths, x: Lies) -> Seq<u8> {
    if w.version == 0 {
        seq![]
    } else {
        two_bytes(x.method)
    }
}

pub open spec fn lies_bytes(w: Widths, x: Lies) -> Seq<u8> {
    id_bytes(w, x) + (method_bytes(w, x) + (x.reference + (in_width(w.base as int, x.base) + (
    two_bytes(x.extents.len() as int) + extents_bytes(w, x.extents)))))
}

pub open spec fn extent_fits(w: Widths, e: Extent) -> bool {
    in_reach(w.index as int, e.index) && in_reach(w.offset as int, e.offset) && in_reach(
        w.length as int,
        e.length,
    )
}

pub open spec fn lies_fits(w: Widths, x: Lies) -> bool {
    &&& 0 <= x.id
    &&& x.id < (if w.version < 2 {
        65536int
    } else {
        0x1_0000_0000
    })
    &&& 0 <= x.method < 65536
    &&& w.version == 0 ==> x.method == 0
    &&& x.reference.len() == 2
    &&& in_reach(w.base as int, x.base)
    &&& x.extents.len() < 65536
    &&& forall|i: int| 0 <= i < x.extents.len() ==> extent_fits(w, #[trigger] x.extents[i])
}

/// What is kept of it: the lower four bits of the method, and the first piece, from the base on.
pub open spec fn kept(x: Lies) -> Loc {
    Loc {
        id: x.id as u32,
        method: (x.method % 16) as u8,
        extent_count: x.extents.len() as u16,
        first_extent: if x.extents.len() == 0 {
            None
        } else {
            let at = x.base + x.extents[0].offset;
            Some(
                (
                    if at > u64::MAX {
                        u64::MAX
                    } else {
                        at as u64
                    },
                    x.extents[0].length as u64,
                ),
            )
        },
    }
}

spec fn format_of(w: Widths) -> IlocFormat {
    IlocFormat {
        version: w.version,
        offset_size: w.offset,
        length_size: w.length,
        base_size: w.base,
        index_size: w.index,
    }
}

proof fn lemma_width_len(n: int, x: int)
    requires
        n == 0 || n == 4 || n == 8,
    ensures
        in_width(n, x).len() == n,
{
}

proof fn lemma_extent(w: Widths, b: Seq<u8>, at: int, e: Extent, x: Seq<u8>)
    requires
        good_widths(w),
        extent_fits(w, e),
        0 <= at <= b.len(),
        tail(b, at) == extent_bytes(w, e) + x,
    ensures
        extent(format_of(w), b, at) == Some(
            (e.offset as u64, e.length as u64, at + extent_bytes(w, e).len()),
        ),
        tail(b, at + extent_bytes(w, e).len()) == x,
        at + extent_bytes(w, e).len() <= b.len(),
{
    let i = in_width(w.index as int, e.index);
    let o = in_width(w.offset as int, e.offset);
    let l = in_width(w.length as int, e.length);
    lemma_width_len(w.index as int, e.index);
    lemma_width_len(w.offset as int, e.offset);
    lemma_width_len(w.length as int, e.length);
    let none: Seq<u8> = seq![];
    assert(tail(b, at) =~= none + (i + (o + (l + x))));
    lemma_between(b, at, none, i, o + (l + x));
    lemma_between(b, at, i, o, l + x);
    let a = at + i.len();
    lemma_between(b, a, o, l, x);
    lemma_width(b, at, w.index, e.index);
    lemma_width(b, a, w.offset, e.offset);
    lemma_width(b, a + o.len(), w.length, e.length);
}

proof fn lemma_extents(w: Widths, b: Seq<u8>, at: int, es: Seq<Extent>, x: Seq<u8>)
    requires
        good_widths(w),
        forall|i: int| 0 <= i < es.len() ==> extent_fits(w, #[trigger] es[i]),
        0 <= at <= b.len(),
        tail(b, at) == extents_bytes(w, es) + x,
    ensures
        extents_end(format_of(w), b, at, es.len() as int) == Some(at + extents_bytes(w, es).len()),
        tail(b, at + extents_bytes(w, es).len()) == x,
        at + extents_bytes(w, es).len() <= b.len(),
    decreases es.len(),
{
    if es.len() == 0 {
        assert(extents_bytes(w, es) + x =~= x);
    } else {
        let m = es.drop_first();
        let y = extents_bytes(w, m) + x;
        assert(extent_fits(w, es[0]));
        assert(tail(b, at) =~= extent_bytes(w, es[0]) + y);
        lemma_extent(w, b, at, es[0], y);
        assert forall|i: int| 0 <= i < m.len() implies extent_fits(w, #[trigger] m[i]) by {
            assert(m[i] == es[i + 1]);
        }
        lemma_extents(w, b, at + extent_bytes(w, es[0]).len(), m, x);
    }
}

/// The numbers before the pieces.
#[verifier::rlimit(40)]
proof fn lemma_front(w: Widths, b: Seq<u8>, at: int, x: Lies, y: Seq<u8>) -> (a3: int)
    requires
        good_widths(w),
        lies_fits(w, x),
        0 <= at <= b.len(),
        tail(b, at) == lies_bytes(w, x) + y,
    ensures
        a3 == at + id_bytes(w, x).len() + method_bytes(w, x).len() + 2 + w.base,
        a3 + 2 <= b.len(),
        w.version < 2 ==> be16(b, at) == x.id,
        w.version >= 2 ==> be32(b, at) == x.id,
        w.version > 0 ==> be16(b, at + id_bytes(w, x).len()) == x.method,
        uint(b, a3 - w.base, w.base) == Some(x.base as u64),
        be16(b, a3) == x.extents.len(),
        tail(b, a3 + 2) == extents_bytes(w, x.extents) + y,
{
    let i = id_bytes(w, x);
    let m = method_bytes(w, x);
    let r = x.reference;
    let s = in_width(w.base as int, x.base);
    let n = two_bytes(x.extents.len() as int);
    let e = extents_bytes(w, x.extents) + y;
    lemma_width_len(w.base as int, x.base);
    let none: Seq<u8> = seq![];
    assert(tail(b, at) =~= none + (i + (m + (r + (s + (n + e))))));
    lemma_between(b, at, none, i, m + (r + (s + (n + e))));
    lemma_between(b, at, i, m, r + (s + (n + e)));
    let a1 = at + i.len();
    lemma_between(b, a1, m, r, s + (n + e));
    let a2 = a1 + m.len();
    lemma_between(b, a2, r, s, n + e);
    let a = a2 + 2;
    lemma_between(b, a, s, n, e);
    let a3 = a + w.base;
    if w.version < 2 {
        lemma_two(b, at, x.id);
    } else {
        lemma_four(b, at, x.id);
    }
    if w.version > 0 {
        lemma_two(b, a1, x.method);
    }
    lemma_width(b, a, w.base, x.base);
    lemma_two(b, a3, x.extents.len() as int);
    a3
}

/// The place, by the numbers that were read.
proof fn lemma_loc(w: Widths, b: Seq<u8>, at: int, a3: int, x: Lies, end: int)
    requires
        good_widths(w),
        lies_fits(w, x),
        a3 == at + id_bytes(w, x).len() + method_bytes(w, x).len() + 2 + w.base,
        a3 + 2 <= b.len(),
        w.version < 2 ==> be16(b, at) == x.id,
        w.version >= 2 ==> be32(b, at) == x.id,
        w.version > 0 ==> be16(b, at + id_bytes(w, x).len()) == x.method,
        uint(b, a3 - w.base, w.base) == Some(x.base as u64),
        be16(b, a3) == x.extents.len(),
        extents_end(format_of(w), b, a3 + 2, x.extents.len() as int) == Some(end),
        x.extents.len() > 0 ==> (extent(format_of(w), b, a3 + 2) matches Some((o, l, _)) && o
            == x.extents[0].offset && l == x.extents[0].length),
        x.extents.len() > 0 ==> 0 <= x.extents[0].offset <= u64::MAX && 0 <= x.extents[0].length
            <= u64::MAX,
        0 <= x.base <= u64::MAX,
    ensures
        loc_at(format_of(w), b, at) == Some((kept(x), end)),
{
}

proof fn lemma_lies_len(w: Widths, x: Lies)
    requires
        good_widths(w),
        x.reference.len() == 2,
    ensures
        lies_bytes(w, x).len() == id_bytes(w, x).len() + method_bytes(w, x).len() + 4 + w.base
            + extents_bytes(w, x.extents).len(),
{
    lemma_width_len(w.base as int, x.base);
}

proof fn lemma_lies(w: Widths, b: Seq<u8>, at: int, x: Lies, y: Seq<u8>)
    requires
        good_widths(w),
        lies_fits(w, x),
        0 <= at <= b.len(),
        tail(b, at) == lies_bytes(w, x) + y,
    ensures
        loc_at(format_of(w), b, at) == Some((kept(x), at + lies_bytes(w, x).len())),
        tail(b, at + lies_bytes(w, x).len()) == y,
        at + lies_bytes(w, x).len() <= b.len(),
{
    let a3 = lemma_front(w, b, at, x, y);
    lemma_extents(w, b, a3 + 2, x.extents, y);
    lemma_lies_len(w, x);
    if x.extents.len() > 0 {
        lemma_first_extent(w, b, a3 + 2, x.extents, y);
    }
    lemma_loc(w, b, at, a3, x, at + lies_bytes(w, x).len());
}

proof fn lemma_first_extent(w: Widths, b: Seq<u8>, at: int, es: Seq<Extent>, y: Seq<u8>)
    requires
        good_widths(w),
        es.len() > 0,
        forall|i: int| 0 <= i < es.len() ==> extent_fits(w, #[trigger] es[i]),
        0 <= at <= b.len(),
        tail(b, at) == extents_bytes(w, es) + y,
    ensures
        extent(format_of(w), b, at) matches Some((o, l, _)) && o == es[0].offset && l
            == es[0].length,
        0 <= es[0].offset <= u64::MAX && 0 <= es[0].length <= u64::MAX,
{
    let e = es[0];
    assert(extent_fits(w, e));
    let rest = extents_bytes(w, es.drop_first()) + y;
    assert(tail(b, at) =~= extent_bytes(w, e) + rest);
    lemma_extent(w, b, at, e, rest);
}

pub open spec fn all_lies(w: Widths, xs: Seq<Lies>) -> Seq<u8>
    decreases xs.len(),
{
    if xs.len() == 0 {
        seq![]
    } else {
        lies_bytes(w, xs[0]) + all_lies(w, xs.drop_first())
    }
}

proof fn lemma_locs(w: Widths, b: Seq<u8>, at: int, xs: Seq<Lies>)
    requires
        good_widths(w),
        forall|i: int| 0 <= i < xs.len() ==> lies_fits(w, #[trigger] xs[i]),
        0 <= at <= b.len(),
        tail(b, at) == all_lies(w, xs),
    ensures
        locs(format_of(w), b, at, xs.len() as int) == Seq::new(xs.len(), |i: int| kept(xs[i])),
    decreases xs.len(),
{
    let k = Seq::new(xs.len(), |i: int| kept(xs[i]));
    if xs.len() == 0 {
        assert(locs(format_of(w), b, at, 0) =~= k);
    } else {
        let m = xs.drop_first();
        assert(lies_fits(w, xs[0]));
        lemma_lies(w, b, at, xs[0], all_lies(w, m));
        assert forall|i: int| 0 <= i < m.len() implies lies_fits(w, #[trigger] m[i]) by {
            assert(m[i] == xs[i + 1]);
        }
        lemma_locs(w, b, at + lies_bytes(w, xs[0]).len(), m);
        assert(seq![kept(xs[0])] + Seq::new(m.len(), |i: int| kept(m[i])) =~= k);
    }
}

/// A list of places: the version, the widths, how many there are, and the places.
pub open spec fn places_bytes(w: Widths, flags: Seq<u8>, xs: Seq<Lies>) -> Seq<u8> {
    seq![w.version] + flags + seq![
        (w.offset * 16 + w.length) as u8,
        (w.base * 16 + w.index) as u8,
    ] + (if w.version < 2 {
        two_bytes(xs.len() as int)
    } else {
        four_bytes(xs.len() as int)
    }) + all_lies(w, xs)
}

/// Lists of places are read, whatever the widths of their numbers.
#[verifier::rlimit(40)]
pub proof fn places_are_read(w: Widths, flags: Seq<u8>, xs: Seq<Lies>)
    requires
        good_widths(w),
        flags.len() == 3,
        xs.len() < (if w.version < 2 {
            65536int
        } else {
            0x1_0000_0000
        }),
        forall|i: int| 0 <= i < xs.len() ==> lies_fits(w, #[trigger] xs[i]),
    ensures
        iloc(places_bytes(w, flags, xs)) == Seq::new(xs.len(), |i: int| kept(xs[i])),
{
    let p = places_bytes(w, flags, xs);
    let n = xs.len() as int;
    lemma_nibbles(w.offset, w.length);
    lemma_nibbles(w.base, w.index);
    lemma_places_front(w, flags, n, all_lies(w, xs));
    if w.version < 2 {
        lemma_locs(w, p, 8, xs);
    } else {
        lemma_locs(w, p, 10, xs);
    }
}

proof fn lemma_nibbles(a: u8, b: u8)
    requires
        a <= 8,
        b <= 8,
    ensures
        (a * 16 + b) as u8 / 0x10 == a,
        (a * 16 + b) as u8 % 0x10 == b,
{
}

proof fn lemma_places_front(w: Widths, flags: Seq<u8>, n: int, x: Seq<u8>)
    requires
        flags.len() == 3,
        0 <= n,
        n < (if w.version < 2 {
            65536int
        } else {
            0x1_0000_0000
        }),
    ensures
        ({
            let p = seq![w.version] + flags + seq![
                (w.offset * 16 + w.length) as u8,
                (w.base * 16 + w.index) as u8,
            ] + (if w.version < 2 {
                two_bytes(n)
            } else {
                four_bytes(n)
            }) + x;
            &&& p[0] == w.version
            &&& p[4] == (w.offset * 16 + w.length) as u8
            &&& p[5] == (w.base * 16 + w.index) as u8
            &&& w.version < 2 ==> p.len() == 8 + x.len() && be16(p, 6) == n && tail(p, 8) == x
            &&& w.version >= 2 ==> p.len() == 10 + x.len() && be32(p, 6) == n && tail(p, 10) == x
        }),
{
    let count = if w.version < 2 {
        two_bytes(n)
    } else {
        four_bytes(n)
    };
    let p = seq![w.version] + flags + seq![
        (w.offset * 16 + w.length) as u8,
        (w.base * 16 + w.index) as u8,
    ] + count + x;
    if w.version < 2 {
        assert(p.subrange(6, 8) =~= two_bytes(n));
        lemma_two(p, 6, n);
        assert(tail(p, 8) =~= x);
    } else {
        assert(p.subrange(6, 10) =~= four_bytes(n));
        lemma_four(p, 6, n);
        assert(tail(p, 10) =~= x);
    }
}

/// The `i`-th place is the first that is told for an item.
pub open spec fn told_first(ls: Seq<Loc>, i: int, id: u32) -> bool {
    0 <= i < ls.len() && ls[i].id == id && forall|j: int| 0 <= j < i ==> (#[trigger] ls[j]).id != id
}

proof fn lemma_told(ls: Seq<Loc>, i: int, id: u32)
    requires
        told_first(ls, i, id),
    ensures
        loc_of(ls, id) == Some(ls[i]),
    decreases ls.len(),
{
    if i > 0 {
        let m = ls.drop_first();
        assert(ls[0].id != id);
        assert forall|j: int| 0 <= j < i - 1 implies (#[trigger] m[j]).id != id by {
            assert(m[j] == ls[j + 1]);
        }
        lemma_told(m, i - 1, id);
    }
}

/// What becomes of an item, by the first place that is told for it. One in a single piece is
/// fetched from its offset in the file, or taken out of the `idat` box where its offsets count
/// from there; all others, and those that do not fit in that box, cannot be had.
pub proof fn items_are_placed(
    w: Wanted,
    ls: Seq<Loc>,
    i: int,
    idat: Option<Seq<u8>>,
)
    requires
        told_first(ls, i, w.id),
    ensures
        ls[i].extent_count != 1 ==> place(w, ls, idat) is Unreachable,
        ls[i].extent_count == 1 && ls[i].method == 0 ==> (ls[i].first_extent matches Some((off, len))
            ==> place(w, ls, idat) == Place::Away(Target { offset: off, length: len, kind: w.kind })),
        ls[i].extent_count == 1 && ls[i].method == 1 ==> (ls[i].first_extent matches Some((off, len))
            ==> match idat {
            Some(d) => if off + len <= d.len() {
                place(w, ls, idat) == Place::Inline(
                    item_payload(w.kind, d.subrange(off as int, off + len)),
                )
            } else {
                place(w, ls, idat) is Unreachable
            },
            None => place(w, ls, idat) is Unreachable,
        }),
        ls[i].extent_count == 1 && ls[i].method >= 2 ==> ls[i].first_extent is Some ==> place(
            w,
            ls,
            idat,
        ) is Unreachable,
{
    lemma_told(ls, i, w.id);
}

/// By ascending offset.
pub open spec fn ascending(ts: Seq<Target>) -> bool {
    forall|i: int, j: int| 0 <= i < j < ts.len() ==> (#[trigger] ts[i]).offset <= (#[trigger] ts[j]).offset
}

proof fn lemma_inserted(ts: Seq<Target>, t: Target)
    requires
        ascending(ts),
    ensures
        ascending(insert_target(ts, t)),
        insert_target(ts, t).to_multiset() == ts.to_multiset().insert(t),
        insert_target(ts, t).len() == ts.len() + 1,
        forall|i: int|
            0 <= i < insert_target(ts, t).len() ==> (#[trigger] insert_target(ts, t)[i]) == t
                || ts.contains(insert_target(ts, t)[i]),
    decreases ts.len(),
{
    broadcast use group_to_multiset_ensures;

    let r = insert_target(ts, t);
    if ts.len() > 0 && ts.last().offset > t.offset {
        let m = ts.drop_last();
        assert(ascending(m)) by {
            assert forall|i: int, j: int| 0 <= i < j < m.len() implies (#[trigger] m[i]).offset
                <= (#[trigger] m[j]).offset by {
                assert(ts[i].offset <= ts[j].offset);
            }
        }
        lemma_inserted(m, t);
        let s = insert_target(m, t);
        assert(ts =~= m.push(ts.last()));
        assert(r.to_multiset() =~= ts.to_multiset().insert(t));
        assert forall|i: int| 0 <= i < s.len() implies (#[trigger] s[i]).offset <= ts.last().offset by {
            if s[i] != t {
                assert(m.contains(s[i]));
                let k = choose|k: int| 0 <= k < m.len() && m[k] == s[i];
                assert(ts[k].offset <= ts[ts.len() - 1].offset);
            }
        }
        assert forall|i: int, j: int| 0 <= i < j < r.len() implies (#[trigger] r[i]).offset <= (
        #[trigger] r[j]).offset by {
            if j < s.len() {
                assert(s[i].offset <= s[j].offset);
            } else {
                assert(s[i].offset <= ts.last().offset);
            }
        }
        assert forall|i: int| 0 <= i < r.len() implies (#[trigger] r[i]) == t || ts.contains(r[i]) by {
            if i < s.len() {
                assert(s[i] == t || m.contains(s[i]));
                if m.contains(s[i]) {
                    let k = choose|k: int| 0 <= k < m.len() && m[k] == s[i];
                    assert(ts[k] == s[i]);
                }
            } else {
                assert(r[i] == ts[ts.len() - 1]);
            }
        }
    } else {
        assert forall|i: int, j: int| 0 <= i < j < r.len() implies (#[trigger] r[i]).offset <= (
        #[trigger] r[j]).offset by {
            if j < ts.len() {
                assert(ts[i].offset <= ts[j].offset);
            } else if ts.len() > 0 {
                if i < ts.len() - 1 {
                    assert(ts[i].offset <= ts[ts.len() - 1].offset);
                }
            }
        }
        assert forall|i: int| 0 <= i < r.len() implies (#[trigger] r[i]) == t || ts.contains(r[i]) by {
            if i < ts.len() {
                assert(ts[i] == r[i]);
            }
        }
    }
}

/// What is to be fetched.
pub open spec fn fetched(ws: Seq<Wanted>, ls: Seq<Loc>, idat: Option<Seq<u8>>) -> Multiset<Target>
    decreases ws.len(),
{
    if ws.len() == 0 {
        Multiset::empty()
    } else {
        let m = fetched(ws.drop_last(), ls, idat);
        match place(ws.last(), ls, idat) {
            Place::Away(t) => m.insert(t),
            _ => m,
        }
    }
}

/// What is taken out of the box, in the order of the items.
pub open spec fn taken(ws: Seq<Wanted>, ls: Seq<Loc>, idat: Option<Seq<u8>>) -> Seq<
    (PayloadKind, Seq<u8>),
>
    decreases ws.len(),
{
    if ws.len() == 0 {
        seq![]
    } else {
        let m = taken(ws.drop_last(), ls, idat);
        match place(ws.last(), ls, idat) {
            Place::Inline(d) => m.push((ws.last().kind, d)),
            _ => m,
        }
    }
}

/// How many items cannot be had.
pub open spec fn lost(ws: Seq<Wanted>, ls: Seq<Loc>, idat: Option<Seq<u8>>) -> nat
    decreases ws.len(),
{
    if ws.len() == 0 {
        0
    } else {
        lost(ws.drop_last(), ls, idat) + if place(ws.last(), ls, idat) is Unreachable {
            1nat
        } else {
            0nat
        }
    }
}

/// All items that can be fetched are, by ascending offset; all that stand in the box are taken
/// out of it; and there is a warning for each that cannot be had.
pub proof fn all_items_are_placed(
    m: PlanView,
    ws: Seq<Wanted>,
    ls: Seq<Loc>,
    idat: Option<Seq<u8>>,
    base: u64,
)
    requires
        m.targets.len() == 0,
        m.inline.len() == 0,
        m.warnings.len() == 0,
    ensures
        ({
            let r = plan_items(m, ws, ls, idat, base);
            &&& r.dims == m.dims
            &&& ascending(r.targets)
            &&& r.targets.to_multiset() == fetched(ws, ls, idat)
            &&& r.inline == taken(ws, ls, idat)
            &&& r.warnings.len() == lost(ws, ls, idat)
            &&& forall|i: int|
                0 <= i < r.warnings.len() ==> (#[trigger] r.warnings[i]) == (Warning {
                    offset: base,
                    kind: WarnKind::UnreachableSection,
                })
        }),
    decreases ws.len(),
{
    broadcast use group_to_multiset_ensures;

    if ws.len() == 0 {
        assert(m.targets =~= Seq::<Target>::empty());
        assert(m.targets.to_multiset() =~= Multiset::empty());
        assert(m.inline =~= seq![]);
    } else {
        all_items_are_placed(m, ws.drop_last(), ls, idat, base);
        let n = plan_items(m, ws.drop_last(), ls, idat, base);
        match place(ws.last(), ls, idat) {
            Place::Away(t) => {
                lemma_inserted(n.targets, t);
            },
            _ => {},
        }
    }
}

/// The data of an EXIF item: how many bytes to pass over, those bytes, and the EXIF data, with
/// or without its own mark.
pub proof fn exif_items_are_unwrapped(skipped: Seq<u8>, tiff: Seq<u8>)
    requires
        skipped.len() < 0x1_0000_0000,
        !begins(tiff, "Exif\0\0"),
    ensures
        exif_item(four_bytes(skipped.len() as int) + skipped + tiff) == tiff,
        exif_item(four_bytes(skipped.len() as int) + skipped + (lit("Exif\0\0") + tiff)) == tiff,
{
    crate::formats::jpeg::lemma_exif_marker();
    let n = skipped.len() as int;
    let marked = lit("Exif\0\0") + tiff;
    let a = four_bytes(n) + skipped + tiff;
    let b = four_bytes(n) + skipped + marked;
    assert(a.subrange(0, 4) =~= four_bytes(n));
    assert(b.subrange(0, 4) =~= four_bytes(n));
    lemma_four(a, 0, n);
    lemma_four(b, 0, n);
    assert(tail(a, 4 + n) =~= tiff);
    assert(tail(b, 4 + n) =~= marked);
    lemma_prefix(tiff, "Exif\0\0");
    assert(has_prefix(marked, lit("Exif\0\0"))) by {
        assert(marked.subrange(0, 6) =~= lit("Exif\0\0"));
    }
    assert(tail(marked, 6) =~= tiff);
}

} // verus!
