//! The `meta` box that is built for an image is read back: the size of the image, and where
//! its EXIF and XMP items are.
use vstd::prelude::*;

use crate::bytes::{be16, be16_bytes, be32, be32_bytes, find_from, lemma_find_from, lit, tail};
use crate::containers::isobmff::{children, last_payload, uint, Child};
use crate::demand::PayloadKind;
use crate::fixtures::bmff::{box_of, iloc_entry, infe_box, ispe_box, meta_box, plain_head};
use crate::fixtures::parts::low32;
use crate::formats::items::{
    assoc, content_type, extent, extents_end, iinf, iloc, infe, insert_target, ipma, ipma_entries,
    iprp, ispe, loc_at, loc_of, locs, meta, no_plan, pitm, place, plan_items, plan_step, properties,
    wanted, Assoc, IlocFormat, Loc, Place, PlanView, Target, Wanted,
};
use crate::laws::round_trips::{boxes_walk_back, built, numbers_read_back};

verus! {

/// The types of boxes and items are four letters each, and differ.
proof fn lemma_words()
    ensures
        lit("meta").len() == 4,
        lit("pitm").len() == 4,
        lit("iinf").len() == 4,
        lit("iprp").len() == 4,
        lit("iloc").len() == 4,
        lit("ipco").len() == 4,
        lit("ipma").len() == 4,
        lit("ispe").len() == 4,
        lit("infe").len() == 4,
        lit("Exif").len() == 4,
        lit("mime").len() == 4,
        lit("idat").len() == 4,
        lit("pitm") != lit("iinf"),
        lit("pitm") != lit("iprp"),
        lit("pitm") != lit("iloc"),
        lit("iinf") != lit("iprp"),
        lit("iinf") != lit("iloc"),
        lit("iprp") != lit("iloc"),
        lit("idat") != lit("pitm"),
        lit("idat") != lit("iinf"),
        lit("idat") != lit("iprp"),
        lit("idat") != lit("iloc"),
        lit("ipco") != lit("ipma"),
        lit("Exif") != lit("mime"),
{
    reveal_strlit("meta");
    reveal_strlit("pitm");
    reveal_strlit("iinf");
    reveal_strlit("iprp");
    reveal_strlit("iloc");
    reveal_strlit("ipco");
    reveal_strlit("ipma");
    reveal_strlit("ispe");
    reveal_strlit("infe");
    reveal_strlit("Exif");
    reveal_strlit("mime");
    reveal_strlit("idat");
    vstd::string::is_ascii_spec_bytes("meta");
    vstd::string::is_ascii_spec_bytes("pitm");
    vstd::string::is_ascii_spec_bytes("iinf");
    vstd::string::is_ascii_spec_bytes("iprp");
    vstd::string::is_ascii_spec_bytes("iloc");
    vstd::string::is_ascii_spec_bytes("ipco");
    vstd::string::is_ascii_spec_bytes("ipma");
    vstd::string::is_ascii_spec_bytes("ispe");
    vstd::string::is_ascii_spec_bytes("infe");
    vstd::string::is_ascii_spec_bytes("Exif");
    vstd::string::is_ascii_spec_bytes("mime");
    vstd::string::is_ascii_spec_bytes("idat");
    assert(lit("pitm")[0] == 0x70);
    assert(lit("iinf")[0] == 0x69 && lit("iinf")[1] == 0x69);
    assert(lit("iprp")[0] == 0x69 && lit("iprp")[1] == 0x70 && lit("iprp")[2] == 0x72);
    assert(lit("iloc")[0] == 0x69 && lit("iloc")[1] == 0x6C);
    assert(lit("idat")[0] == 0x69 && lit("idat")[1] == 0x64);
    assert(lit("ipco")[2] == 0x63);
    assert(lit("ipma")[2] == 0x6D);
    assert(lit("Exif")[0] == 0x45);
    assert(lit("mime")[0] == 0x6D);
}

/// The content type of XMP has no zero byte.
proof fn lemma_rdf_xml()
    ensures
        lit("application/rdf+xml").len() == 19,
        forall|i: int| 0 <= i < 19 ==> lit("application/rdf+xml")[i] != 0,
{
    reveal_strlit("application/rdf+xml");
    vstd::string::is_ascii_spec_bytes("application/rdf+xml");
}

proof fn lemma_u32_at(b: Seq<u8>, at: int, x: u32)
    requires
        0 <= at,
        at + 4 <= b.len(),
        b.subrange(at, at + 4) == be32_bytes(x),
    ensures
        be32(b, at) == x,
{
    let s = be32_bytes(x);
    numbers_read_back(x);
    assert(b.subrange(at, at + 4)[0] == s[0]);
    assert(b.subrange(at, at + 4)[1] == s[1]);
    assert(b.subrange(at, at + 4)[2] == s[2]);
    assert(b.subrange(at, at + 4)[3] == s[3]);
}

proof fn lemma_u16_at(b: Seq<u8>, at: int, x: u16)
    requires
        0 <= at,
        at + 2 <= b.len(),
        b.subrange(at, at + 2) == be16_bytes(x),
    ensures
        be16(b, at) == x,
{
    let s = be16_bytes(x);
    assert(b.subrange(at, at + 2)[0] == s[0]);
    assert(b.subrange(at, at + 2)[1] == s[1]);
}

spec fn infe_head(id: u16, typ: Seq<u8>) -> Seq<u8> {
    seq![2u8, 0u8, 0u8, 0u8] + be16_bytes(id) + be16_bytes(0) + typ + seq![0u8]
}

proof fn lemma_exif_entry(id: u16)
    ensures
        infe(infe_head(id, lit("Exif"))) == Some(Wanted { id: id as u32, kind: PayloadKind::Exif }),
        infe_head(id, lit("Exif")).len() == 13,
{
    lemma_words();
    let p = infe_head(id, lit("Exif"));
    assert(p.subrange(4, 6) =~= be16_bytes(id));
    lemma_u16_at(p, 4, id);
    assert(p.subrange(8, 12) =~= lit("Exif"));
}

proof fn lemma_xmp_entry(id: u16)
    ensures
        ({
            let p = infe_head(id, lit("mime")) + lit("application/rdf+xml") + seq![0u8];
            &&& infe(p) == Some(Wanted { id: id as u32, kind: PayloadKind::Xmp })
            &&& p.len() == 33
        }),
{
    lemma_words();
    lemma_rdf_xml();
    let ct = lit("application/rdf+xml");
    let p = infe_head(id, lit("mime")) + ct + seq![0u8];
    assert(p.subrange(4, 6) =~= be16_bytes(id));
    lemma_u16_at(p, 4, id);
    assert(p.subrange(8, 12) =~= lit("mime"));
    let b = tail(p, 12);
    assert(b =~= seq![0u8] + ct + seq![0u8]);
    assert(find_from(b, 0, 0) == 0);
    let c = tail(b, 1);
    assert(c =~= ct + seq![0u8]);
    lemma_find_from(c, 0, 0);
    let f = find_from(c, 0, 0);
    assert(c[19] == 0);
    if f < 19 {
        assert(c[f] == ct[f]);
    }
    assert(f == 19);
    assert(c.subrange(0, 19) =~= ct);
    assert(content_type(b) == Some(ct));
}

/// The two items.
spec fn two_items() -> Seq<Wanted> {
    seq![Wanted { id: 1, kind: PayloadKind::Exif }, Wanted { id: 2, kind: PayloadKind::Xmp }]
}

#[verifier::opaque]
spec fn iinf_payload() -> Seq<u8> {
    plain_head() + be16_bytes(2) + infe_box(1, lit("Exif"), None) + infe_box(
        2,
        lit("mime"),
        Some(lit("application/rdf+xml")),
    )
}

proof fn lemma_iinf()
    ensures
        iinf(iinf_payload()) == two_items(),
        iinf_payload().len() == 68,
{
    reveal(iinf_payload);
    lemma_words();
    lemma_exif_entry(1);
    lemma_xmp_entry(2);
    let e = infe_head(1, lit("Exif"));
    let x = infe_head(2, lit("mime")) + lit("application/rdf+xml") + seq![0u8];
    let k = lit("infe");
    let p = iinf_payload();
    assert(infe_box(1, lit("Exif"), None) == box_of(k, e));
    assert(infe_box(2, lit("mime"), Some(lit("application/rdf+xml"))) == box_of(k, x));
    boxes_walk_back(k, e, box_of(k, x));
    boxes_walk_back(k, x, seq![]);
    assert(tail(p, 6) =~= box_of(k, e) + box_of(k, x));
    assert(p.subrange(4, 6) =~= be16_bytes(2));
    lemma_u16_at(p, 4, 2);
    assert(p[0] == 0);
    let cs = seq![built(k, e)] + seq![built(k, x)];
    assert(children(tail(p, 6)) == cs);
    assert(cs[0] == built(k, e));
    assert(cs.drop_first() =~= seq![built(k, x)]);
    assert(seq![built(k, x)].drop_first() =~= seq![]);
    assert(wanted(seq![], 0) =~= seq![]);
    assert(wanted(seq![built(k, x)], 1) =~= seq![two_items()[1]]);
    assert(wanted(cs, 2) =~= two_items());
}

#[verifier::opaque]
spec fn pitm_payload() -> Seq<u8> {
    plain_head() + be16_bytes(1)
}

proof fn lemma_pitm()
    ensures
        pitm(pitm_payload()) == Some(1u32),
        pitm_payload().len() == 6,
{
    reveal(pitm_payload);
    let p = pitm_payload();
    assert(p.subrange(4, 6) =~= be16_bytes(1));
    lemma_u16_at(p, 4, 1);
    assert(p[0] == 0);
}

spec fn ispe_payload() -> Seq<u8> {
    plain_head() + be32_bytes(4032) + be32_bytes(3024)
}

proof fn lemma_ispe()
    ensures
        ispe(ispe_payload()) == Some((4032u32, 3024u32)),
        ispe_payload().len() == 12,
{
    let p = ispe_payload();
    assert(p.subrange(4, 8) =~= be32_bytes(4032));
    assert(p.subrange(8, 12) =~= be32_bytes(3024));
    lemma_u32_at(p, 4, 4032);
    lemma_u32_at(p, 8, 3024);
}

spec fn ipma_payload() -> Seq<u8> {
    plain_head() + be32_bytes(1) + be16_bytes(1) + seq![1u8, 1u8]
}

proof fn lemma_ipma(props: Seq<Option<(u32, u32)>>, d: (u32, u32))
    requires
        props.len() == 1,
        props[0] == Some(d),
    ensures
        ipma(ipma_payload(), 1, props) == Some(d),
        ipma_payload().len() == 12,
{
    let p = ipma_payload();
    assert(p.len() == 12);
    assert(p.subrange(0, 4) =~= be32_bytes(0));
    lemma_u32_at(p, 0, 0);
    assert(p.subrange(4, 8) =~= be32_bytes(1));
    lemma_u32_at(p, 4, 1);
    assert(p.subrange(8, 10) =~= be16_bytes(1));
    lemma_u16_at(p, 8, 1);
    assert(p[0] == 0);
    assert(p[10] == 1);
    assert(p[11] == 1);
    assert(assoc(p, 11, 1, false, true, props) == Assoc::Found(d));
    assert(ipma_entries(p, 8, 1, 1, props) == Some(d));
}

#[verifier::opaque]
spec fn iprp_payload() -> Seq<u8> {
    box_of(lit("ipco"), ispe_box(4032, 3024)) + box_of(lit("ipma"), ipma_payload())
}

proof fn lemma_iprp()
    ensures
        iprp(iprp_payload(), Some(1)) == Some((4032u32, 3024u32)),
        iprp_payload().len() == 48,
{
    reveal(iprp_payload);
    lemma_words();
    lemma_ispe();
    let size = ispe_box(4032, 3024);
    let d = (4032u32, 3024u32);
    assert(size == box_of(lit("ispe"), ispe_payload()));
    boxes_walk_back(lit("ispe"), ispe_payload(), seq![]);
    let inner = children(size);
    assert(inner == seq![built(lit("ispe"), ispe_payload())]);
    let props = properties(inner);
    assert(props.len() == 1 && props[0] == Some(d));
    lemma_ipma(props, d);
    let co = built(lit("ipco"), size);
    let ma = built(lit("ipma"), ipma_payload());
    boxes_walk_back(lit("ipco"), size, box_of(lit("ipma"), ipma_payload()));
    boxes_walk_back(lit("ipma"), ipma_payload(), seq![]);
    let cs = children(iprp_payload());
    assert(cs == seq![co] + seq![ma]);
    assert(cs.last() == ma);
    assert(cs.drop_last() =~= seq![co]);
    assert(seq![co].last() == co);
    assert(last_payload(seq![co], lit("ipco")) == Some(size));
    assert(last_payload(cs, lit("ipco")) == Some(size));
    assert(last_payload(cs, lit("ipma")) == Some(ipma_payload()));
}

#[verifier::opaque]
spec fn iloc_payload(a: u64, b: u64, c: u64, d: u64) -> Seq<u8> {
    plain_head() + seq![0x44u8, 0u8] + be16_bytes(2) + iloc_entry(1, a, b) + iloc_entry(2, c, d)
}

spec fn one_loc(id: u32, off: u64, len: u64) -> Loc {
    Loc { id, method: 0, extent_count: 1, first_extent: Some((off, len)) }
}

spec fn four_bytes() -> IlocFormat {
    IlocFormat { version: 0, offset_size: 4, length_size: 4, base_size: 0, index_size: 0 }
}

proof fn lemma_entry(p: Seq<u8>, at: int, id: u16, off: u64, len: u64)
    requires
        0 <= at,
        at + 14 <= p.len(),
        p.subrange(at, at + 14) == iloc_entry(id, off, len),
        off <= u32::MAX,
        len <= u32::MAX,
    ensures
        loc_at(four_bytes(), p, at) == Some((one_loc(id as u32, off, len), at + 14)),
{
    let f = four_bytes();
    let e = iloc_entry(id, off, len);
    assert(low32(off as int) == off && low32(len as int) == len);
    assert(p.subrange(at, at + 2) =~= be16_bytes(id)) by {
        assert(p.subrange(at, at + 2) =~= e.subrange(0, 2));
        assert(e.subrange(0, 2) =~= be16_bytes(id));
    }
    lemma_u16_at(p, at, id);
    assert(p.subrange(at + 4, at + 6) =~= be16_bytes(1)) by {
        assert(p.subrange(at + 4, at + 6) =~= e.subrange(4, 6));
        assert(e.subrange(4, 6) =~= be16_bytes(1));
    }
    lemma_u16_at(p, at + 4, 1);
    assert(p.subrange(at + 6, at + 10) =~= be32_bytes(off as u32)) by {
        assert(p.subrange(at + 6, at + 10) =~= e.subrange(6, 10));
        assert(e.subrange(6, 10) =~= be32_bytes(off as u32));
    }
    lemma_u32_at(p, at + 6, off as u32);
    assert(p.subrange(at + 10, at + 14) =~= be32_bytes(len as u32)) by {
        assert(p.subrange(at + 10, at + 14) =~= e.subrange(10, 14));
        assert(e.subrange(10, 14) =~= be32_bytes(len as u32));
    }
    lemma_u32_at(p, at + 10, len as u32);
    assert(extent(f, p, at + 6) == Some((off, len, at + 14)));
    assert(extents_end(f, p, at + 14, 0) == Some(at + 14));
    assert(extents_end(f, p, at + 6, 1) == Some(at + 14));
    assert(uint(p, at + 4, 0) == Some(0u64));
}

proof fn lemma_iloc(a: u64, b: u64, c: u64, d: u64)
    requires
        a <= u32::MAX,
        b <= u32::MAX,
        c <= u32::MAX,
        d <= u32::MAX,
    ensures
        iloc(iloc_payload(a, b, c, d)) == seq![one_loc(1, a, b), one_loc(2, c, d)],
        iloc_payload(a, b, c, d).len() == 36,
{
    let p = iloc_payload(a, b, c, d);
    lemma_iloc_bytes(a, b, c, d);
    lemma_entry(p, 8, 1, a, b);
    lemma_entry(p, 22, 2, c, d);
    lemma_two_locs(p, one_loc(1, a, b), one_loc(2, c, d));
}

proof fn lemma_iloc_bytes(a: u64, b: u64, c: u64, d: u64)
    ensures
        ({
            let p = iloc_payload(a, b, c, d);
            &&& p.len() == 36
            &&& p[0] == 0 && p[4] == 0x44 && p[5] == 0
            &&& be16(p, 6) == 2
            &&& p.subrange(8, 22) == iloc_entry(1, a, b)
            &&& p.subrange(22, 36) == iloc_entry(2, c, d)
        }),
{
    reveal(iloc_payload);
    let e = iloc_entry(1, a, b);
    let x = iloc_entry(2, c, d);
    assert(e.len() == 14);
    assert(x.len() == 14);
    lemma_slots(plain_head() + seq![0x44u8, 0u8], be16_bytes(2), e, x);
    lemma_u16_at(iloc_payload(a, b, c, d), 6, 2);
}

proof fn lemma_slots(h: Seq<u8>, n: Seq<u8>, e: Seq<u8>, x: Seq<u8>)
    requires
        h.len() == 6,
        n.len() == 2,
        e.len() == 14,
        x.len() == 14,
    ensures
        ({
            let p = h + n + e + x;
            &&& p.len() == 36
            &&& p[0] == h[0] && p[4] == h[4] && p[5] == h[5]
            &&& p.subrange(6, 8) == n
            &&& p.subrange(8, 22) == e
            &&& p.subrange(22, 36) == x
        }),
{
    let p = h + n + e + x;
    assert(p.subrange(6, 8) =~= n);
    assert(p.subrange(8, 22) =~= e);
    assert(p.subrange(22, 36) =~= x);
}

proof fn lemma_two_locs(p: Seq<u8>, l1: Loc, l2: Loc)
    requires
        p.len() == 36,
        p[0] == 0 && p[4] == 0x44 && p[5] == 0,
        be16(p, 6) == 2,
        loc_at(four_bytes(), p, 8) == Some((l1, 22int)),
        loc_at(four_bytes(), p, 22) == Some((l2, 36int)),
    ensures
        iloc(p) == seq![l1, l2],
{
    let f = four_bytes();
    assert(locs(f, p, 36, 0) =~= seq![]);
    assert(locs(f, p, 22, 1) =~= seq![l2]);
    assert(locs(f, p, 8, 2) =~= seq![l1, l2]);
}

/// Where the two items are to be had, by ascending offset.
pub open spec fn two_targets(
    exif_off: u64,
    exif_len: u64,
    xmp_off: u64,
    xmp_len: u64,
) -> Seq<Target> {
    let e = Target { offset: exif_off, length: exif_len, kind: PayloadKind::Exif };
    let x = Target { offset: xmp_off, length: xmp_len, kind: PayloadKind::Xmp };
    if exif_off <= xmp_off {
        seq![e, x]
    } else {
        seq![x, e]
    }
}

proof fn lemma_plan(start: PlanView, a: u64, b: u64, c: u64, d: u64, base: u64)
    requires
        start == (PlanView { dims: start.dims, ..no_plan() }),
    ensures
        plan_items(
            start,
            two_items(),
            seq![one_loc(1, a, b), one_loc(2, c, d)],
            None,
            base,
        ) == (PlanView { targets: two_targets(a, b, c, d), ..start }),
{
    let ls = seq![one_loc(1, a, b), one_loc(2, c, d)];
    let ws = two_items();
    let e = Target { offset: a, length: b, kind: PayloadKind::Exif };
    let x = Target { offset: c, length: d, kind: PayloadKind::Xmp };
    assert(ls.drop_first() =~= seq![one_loc(2, c, d)]);
    assert(loc_of(ls, 1) == Some(one_loc(1, a, b)));
    assert(loc_of(ls.drop_first(), 2) == Some(one_loc(2, c, d)));
    assert(loc_of(ls, 2) == Some(one_loc(2, c, d)));
    assert(place(ws[0], ls, None) == Place::Away(e));
    assert(place(ws[1], ls, None) == Place::Away(x));
    let w1 = ws.drop_last();
    assert(w1 =~= seq![ws[0]]);
    assert(w1.drop_last() =~= seq![]);
    assert(plan_items(start, seq![], ls, None, base) == start);
    assert(start.targets =~= seq![]);
    assert(insert_target(seq![], e) =~= seq![e]);
    let m1 = plan_items(start, w1, ls, None, base);
    assert(m1 == plan_step(start, ws[0], ls, None, base));
    assert(m1.targets == seq![e]);
    assert(seq![e].drop_last() =~= seq![]);
    assert(insert_target(seq![], x) =~= seq![x]);
    assert(insert_target(seq![e], x) =~= two_targets(a, b, c, d));
    assert(ws.last() == ws[1]);
    assert(plan_items(start, ws, ls, None, base) == plan_step(m1, ws[1], ls, None, base));
}

/// A walk over four boxes.
proof fn lemma_four(
    k: (Seq<u8>, Seq<u8>, Seq<u8>, Seq<u8>),
    p: (Seq<u8>, Seq<u8>, Seq<u8>, Seq<u8>),
    head: Seq<u8>,
)
    requires
        head.len() == 4,
        k.0.len() == 4 && k.1.len() == 4 && k.2.len() == 4 && k.3.len() == 4,
        p.0.len() + p.1.len() + p.2.len() + p.3.len() < 1000,
    ensures
        ({
            let b = head + box_of(k.0, p.0) + box_of(k.1, p.1) + box_of(k.2, p.2) + box_of(k.3, p.3);
            &&& b.len() == 36 + p.0.len() + p.1.len() + p.2.len() + p.3.len()
            &&& children(tail(b, 4)) == seq![
                built(k.0, p.0),
                built(k.1, p.1),
                built(k.2, p.2),
                built(k.3, p.3),
            ]
        }),
{
    let b1 = box_of(k.0, p.0);
    let b2 = box_of(k.1, p.1);
    let b3 = box_of(k.2, p.2);
    let b4 = box_of(k.3, p.3);
    boxes_walk_back(k.0, p.0, b2 + (b3 + b4));
    boxes_walk_back(k.1, p.1, b3 + b4);
    boxes_walk_back(k.2, p.2, b4);
    boxes_walk_back(k.3, p.3, seq![]);
    lemma_regroup(head, b1, b2, b3, b4);
    let (c1, c2, c3, c4) = (
        built(k.0, p.0),
        built(k.1, p.1),
        built(k.2, p.2),
        built(k.3, p.3),
    );
    assert(seq![c1] + (seq![c2] + (seq![c3] + seq![c4])) =~= seq![c1, c2, c3, c4]);
}

proof fn lemma_regroup(h: Seq<u8>, b1: Seq<u8>, b2: Seq<u8>, b3: Seq<u8>, b4: Seq<u8>)
    requires
        h.len() == 4,
    ensures
        tail(h + b1 + b2 + b3 + b4, 4) == b1 + (b2 + (b3 + b4)),
{
    assert(tail(h + b1 + b2 + b3 + b4, 4) =~= b1 + (b2 + (b3 + b4)));
}

/// The payload of the `meta` box.
#[verifier::opaque]
spec fn meta_payload(a: u64, b: u64, c: u64, d: u64) -> Seq<u8> {
    plain_head() + box_of(lit("pitm"), pitm_payload()) + box_of(lit("iinf"), iinf_payload()) + box_of(
        lit("iprp"),
        iprp_payload(),
    ) + box_of(lit("iloc"), iloc_payload(a, b, c, d))
}

spec fn same(x: Seq<u8>, y: Seq<u8>) -> bool {
    x == y
}

proof fn lemma_shape(a: u64, b: u64, c: u64, d: u64)
    ensures
        same(meta_box(a, b, c, d), box_of(lit("meta"), meta_payload(a, b, c, d))),
{
    reveal(meta_payload);
    reveal(pitm_payload);
    reveal(iinf_payload);
    reveal(iprp_payload);
    reveal(iloc_payload);
}

/// What the boxes inside the `meta` box are.
proof fn lemma_parts(a: u64, b: u64, c: u64, d: u64)
    requires
        a <= u32::MAX,
        b <= u32::MAX,
        c <= u32::MAX,
        d <= u32::MAX,
    ensures
        meta_payload(a, b, c, d).len() == 194,
        children(tail(meta_payload(a, b, c, d), 4)) == seq![
            built(lit("pitm"), pitm_payload()),
            built(lit("iinf"), iinf_payload()),
            built(lit("iprp"), iprp_payload()),
            built(lit("iloc"), iloc_payload(a, b, c, d)),
        ],
{
    lemma_words();
    lemma_pitm();
    lemma_iinf();
    lemma_iprp();
    lemma_iloc(a, b, c, d);
    reveal(meta_payload);
    lemma_four(
        (lit("pitm"), lit("iinf"), lit("iprp"), lit("iloc")),
        (pitm_payload(), iinf_payload(), iprp_payload(), iloc_payload(a, b, c, d)),
        plain_head(),
    );
}

/// What the payload of the `meta` box gives.
proof fn lemma_meta(a: u64, b: u64, c: u64, d: u64, base: u64)
    requires
        a <= u32::MAX,
        b <= u32::MAX,
        c <= u32::MAX,
        d <= u32::MAX,
    ensures
        meta(meta_payload(a, b, c, d), base) == (PlanView {
            dims: Some((4032u32, 3024u32)),
            inline: seq![],
            targets: two_targets(a, b, c, d),
            warnings: seq![],
        }),
{
    lemma_words();
    lemma_parts(a, b, c, d);
    let c1 = built(lit("pitm"), pitm_payload());
    let c2 = built(lit("iinf"), iinf_payload());
    let c3 = built(lit("iprp"), iprp_payload());
    let c4 = built(lit("iloc"), iloc_payload(a, b, c, d));
    lemma_found(c1, c2, c3, c4, lit("pitm"));
    lemma_found(c1, c2, c3, c4, lit("iinf"));
    lemma_found(c1, c2, c3, c4, lit("iprp"));
    lemma_found(c1, c2, c3, c4, lit("iloc"));
    lemma_found(c1, c2, c3, c4, lit("idat"));
    let start = PlanView { dims: Some((4032u32, 3024u32)), ..no_plan() };
    lemma_meta_of(
        meta_payload(a, b, c, d),
        seq![c1, c2, c3, c4],
        pitm_payload(),
        iinf_payload(),
        iprp_payload(),
        iloc_payload(a, b, c, d),
        base,
    );
    assert(iprp(iprp_payload(), pitm(pitm_payload())) == start.dims) by {
        lemma_pitm();
        lemma_iprp();
    }
    lemma_iinf();
    lemma_iloc(a, b, c, d);
    lemma_plan(start, a, b, c, d, base);
}

/// What a `meta` box gives that holds one box of each of four types.
proof fn lemma_meta_of(
    p: Seq<u8>,
    cs: Seq<Child>,
    p1: Seq<u8>,
    p2: Seq<u8>,
    p3: Seq<u8>,
    p4: Seq<u8>,
    base: u64,
)
    requires
        p.len() >= 4,
        children(tail(p, 4)) == cs,
        last_payload(cs, lit("pitm")) == Some(p1),
        last_payload(cs, lit("iinf")) == Some(p2),
        last_payload(cs, lit("iprp")) == Some(p3),
        last_payload(cs, lit("iloc")) == Some(p4),
        last_payload(cs, lit("idat")) is None,
    ensures
        meta(p, base) == plan_items(
            PlanView { dims: iprp(p3, pitm(p1)), ..no_plan() },
            iinf(p2),
            iloc(p4),
            None,
            base,
        ),
{
}

/// The last box of each type among four of different types.
proof fn lemma_found(c1: Child, c2: Child, c3: Child, c4: Child, kind: Seq<u8>)
    ensures
        last_payload(seq![c1, c2, c3, c4], kind) == (if c4.header.kind == kind {
            Some(c4.payload)
        } else if c3.header.kind == kind {
            Some(c3.payload)
        } else if c2.header.kind == kind {
            Some(c2.payload)
        } else if c1.header.kind == kind {
            Some(c1.payload)
        } else {
            None
        }),
{
    reveal_with_fuel(last_payload, 5);
    let s = seq![c1, c2, c3, c4];
    assert(s.drop_last() =~= seq![c1, c2, c3]);
    assert(seq![c1, c2, c3].drop_last() =~= seq![c1, c2]);
    assert(seq![c1, c2].drop_last() =~= seq![c1]);
    assert(seq![c1].drop_last() =~= seq![]);
}

/// The `meta` box that is built for an image has the same length whatever it names, and
/// reads back: the size of the image, no payload inside, no warning, and the two items at
/// the places that were named, by ascending offset.
pub proof fn built_meta_reads_back(
    exif_off: u64,
    exif_len: u64,
    xmp_off: u64,
    xmp_len: u64,
    base: u64,
)
    requires
        exif_off <= u32::MAX,
        exif_len <= u32::MAX,
        xmp_off <= u32::MAX,
        xmp_len <= u32::MAX,
    ensures
        meta_box(exif_off, exif_len, xmp_off, xmp_len).len() == 202,
        meta(tail(meta_box(exif_off, exif_len, xmp_off, xmp_len), 8), base) == (PlanView {
            dims: Some((4032u32, 3024u32)),
            inline: seq![],
            targets: two_targets(exif_off, exif_len, xmp_off, xmp_len),
            warnings: seq![],
        }),
{
    let (a, b, c, d) = (exif_off, exif_len, xmp_off, xmp_len);
    lemma_words();
    lemma_shape(a, b, c, d);
    lemma_parts(a, b, c, d);
    boxes_walk_back(lit("meta"), meta_payload(a, b, c, d), seq![]);
    lemma_meta(a, b, c, d, base);
}

} // verus!
