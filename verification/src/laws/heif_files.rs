//! HEIF and AVIF files: the size that is read is that of the primary image.
use vstd::prelude::*;

use crate::adapters::slice::metadata_of;
use crate::bytes::{lit, tail};
use crate::containers::isobmff::{children, last_payload, Child};
use crate::driver::nothing;
use crate::formats::bmff::{meta_events, opt_dims, payload_events, warning_events};
use crate::formats::items::{iprp, meta, pitm, properties, sizes};
use crate::laws::files::{
    a_box, lemma_a_box, lemma_sized, lemma_two_boxes, second_events, sized, two_boxes,
};
use crate::laws::image_items::{
    associations, fits, gives_size, lemma_two, other_sizes_do_not_count, the_primary_size_counts,
    two_bytes, Links,
};
use crate::laws::movies::four;
use crate::laws::round_trips::{boxes_walk_back, built};
use crate::limits::Limits;

verus! {

/// Boxes one after the other, each a type and a payload.
pub open spec fn boxes(ps: Seq<(Seq<u8>, Seq<u8>)>) -> Seq<u8>
    decreases ps.len(),
{
    if ps.len() == 0 {
        seq![]
    } else {
        a_box(ps[0].0, ps[0].1) + boxes(ps.drop_first())
    }
}

/// Types of four letters, and payloads that are not too long.
pub open spec fn proper(ps: Seq<(Seq<u8>, Seq<u8>)>) -> bool {
    forall|i: int| 0 <= i < ps.len() ==> (#[trigger] ps[i]).0.len() == 4 && ps[i].1.len() + 8 <= u32::MAX
}

/// A walk over boxes yields them in their order.
pub proof fn boxes_are_walked(ps: Seq<(Seq<u8>, Seq<u8>)>)
    requires
        proper(ps),
    ensures
        children(boxes(ps)).len() == ps.len(),
        forall|i: int|
            0 <= i < ps.len() ==> (#[trigger] children(boxes(ps))[i]).header.kind == ps[i].0
                && children(boxes(ps))[i].payload == ps[i].1,
    decreases ps.len(),
{
    if ps.len() > 0 {
        let m = ps.drop_first();
        assert(ps[0].0.len() == 4);
        lemma_a_box(ps[0].0, ps[0].1);
        boxes_walk_back(ps[0].0, ps[0].1, boxes(m));
        assert forall|i: int| 0 <= i < m.len() implies (#[trigger] m[i]).0.len() == 4
            && m[i].1.len() + 8 <= u32::MAX by {
            assert(m[i] == ps[i + 1]);
        }
        boxes_are_walked(m);
        let cs = children(boxes(ps));
        assert(cs == seq![built(ps[0].0, ps[0].1)] + children(boxes(m)));
        assert forall|i: int| 0 <= i < ps.len() implies (#[trigger] cs[i]).header.kind == ps[i].0
            && cs[i].payload == ps[i].1 by {
            if i > 0 {
                assert(cs[i] == children(boxes(m))[i - 1]);
                assert(m[i - 1] == ps[i]);
            }
        }
    } else {
        assert(boxes(ps).len() == 0);
    }
}

/// The sizes that properties give: those of the type `ispe`, the width before the height.
pub open spec fn sizes_of(ps: Seq<(Seq<u8>, Seq<u8>)>) -> Seq<Option<(u32, u32)>> {
    Seq::new(
        ps.len(),
        |i: int|
            if ps[i].0 == lit("ispe") && ps[i].1.len() >= 12 {
                Some((four(ps[i].1, 4) as u32, four(ps[i].1, 8) as u32))
            } else {
                None
            },
    )
}

proof fn lemma_properties(ps: Seq<(Seq<u8>, Seq<u8>)>)
    requires
        proper(ps),
    ensures
        properties(children(boxes(ps))) == sizes_of(ps),
{
    boxes_are_walked(ps);
    let cs = children(boxes(ps));
    assert forall|i: int| 0 <= i < ps.len() implies properties(cs)[i] == sizes_of(ps)[i] by {
        assert(cs[i].header.kind == ps[i].0 && cs[i].payload == ps[i].1);
        crate::laws::image_items::image_sizes_are_read(ps[i].1);
    }
    assert(properties(cs) =~= sizes_of(ps));
}

proof fn lemma_words()
    ensures
        lit("ipco").len() == 4,
        lit("ipma").len() == 4,
        lit("pitm").len() == 4,
        lit("iprp").len() == 4,
        lit("iinf").len() == 4,
        lit("iloc").len() == 4,
        lit("idat").len() == 4,
        lit("ipco") != lit("ipma"),
        lit("pitm") != lit("iprp"),
        lit("pitm") != lit("iinf"),
        lit("pitm") != lit("iloc"),
        lit("pitm") != lit("idat"),
        lit("iprp") != lit("iinf"),
        lit("iprp") != lit("iloc"),
        lit("iprp") != lit("idat"),
{
    reveal_strlit("ipco");
    reveal_strlit("ipma");
    reveal_strlit("pitm");
    reveal_strlit("iprp");
    reveal_strlit("iinf");
    reveal_strlit("iloc");
    reveal_strlit("idat");
    vstd::string::is_ascii_spec_bytes("ipco");
    vstd::string::is_ascii_spec_bytes("ipma");
    vstd::string::is_ascii_spec_bytes("pitm");
    vstd::string::is_ascii_spec_bytes("iprp");
    vstd::string::is_ascii_spec_bytes("iinf");
    vstd::string::is_ascii_spec_bytes("iloc");
    vstd::string::is_ascii_spec_bytes("idat");
    assert(lit("ipco")[2] == 0x63);
    assert(lit("ipma")[2] == 0x6D);
    assert(lit("pitm")[0] == 0x70);
    assert(lit("iprp")[0] == 0x69 && lit("iprp")[1] == 0x70);
    assert(lit("iinf")[1] == 0x69 && lit("iinf")[0] == 0x69);
    assert(lit("iloc")[1] == 0x6C && lit("iloc")[0] == 0x69);
    assert(lit("idat")[1] == 0x64 && lit("idat")[0] == 0x69);
}

/// The last of two boxes with different types.
proof fn lemma_last_of_two(a: Child, b: Child, kind: Seq<u8>)
    requires
        a.header.kind != b.header.kind,
    ensures
        last_payload(seq![a] + seq![b], kind) == (if b.header.kind == kind {
            Some(b.payload)
        } else if a.header.kind == kind {
            Some(a.payload)
        } else {
            None
        }),
{
    let cs = seq![a] + seq![b];
    reveal_with_fuel(last_payload, 3);
    assert(cs.last() == b);
    assert(cs.drop_last() =~= seq![a]);
    assert(seq![a].drop_last() =~= seq![]);
}

/// Two boxes one after the other.
pub open spec fn pair(k1: Seq<u8>, p1: Seq<u8>, k2: Seq<u8>, p2: Seq<u8>) -> Seq<u8> {
    a_box(k1, p1) + a_box(k2, p2)
}

proof fn lemma_pair(k1: Seq<u8>, p1: Seq<u8>, k2: Seq<u8>, p2: Seq<u8>)
    requires
        k1.len() == 4,
        k2.len() == 4,
        p1.len() + 8 <= u32::MAX,
        p2.len() + 8 <= u32::MAX,
    ensures
        children(pair(k1, p1, k2, p2)) == seq![built(k1, p1)] + seq![built(k2, p2)],
{
    lemma_a_box(k1, p1);
    lemma_a_box(k2, p2);
    boxes_walk_back(k1, p1, a_box(k2, p2));
    boxes_walk_back(k2, p2, seq![]);
    assert(a_box(k2, p2) + seq![] =~= a_box(k2, p2));
    assert(children(seq![]) =~= seq![]);
    assert(children(a_box(k2, p2)) =~= seq![built(k2, p2)]);
}

/// The payload of an `iprp` box: properties, and what is associated with what.
pub open spec fn item_properties(
    ps: Seq<(Seq<u8>, Seq<u8>)>,
    es: Seq<Links>,
    version: u8,
    flags: u8,
) -> Seq<u8> {
    pair(lit("ipco"), boxes(ps), lit("ipma"), associations(es, version, flags))
}

/// All of it fits.
pub open spec fn all_fits(
    ps: Seq<(Seq<u8>, Seq<u8>)>,
    es: Seq<Links>,
    version: u8,
    flags: u8,
) -> bool {
    &&& proper(ps)
    &&& fits(es, version, flags)
    &&& boxes(ps).len() + associations(es, version, flags).len() < 0xF000_0000
}

proof fn lemma_iprp(
    ps: Seq<(Seq<u8>, Seq<u8>)>,
    es: Seq<Links>,
    version: u8,
    flags: u8,
    primary: Option<u32>,
)
    requires
        all_fits(ps, es, version, flags),
    ensures
        ({
            let via = match primary {
                Some(id) => crate::formats::items::ipma(
                    associations(es, version, flags) + seq![],
                    id,
                    sizes_of(ps),
                ),
                None => None,
            };
            iprp(item_properties(ps, es, version, flags), primary) == (match via {
                Some(d) => Some(d),
                None => if sizes(sizes_of(ps)).len() == 1 {
                    Some(sizes(sizes_of(ps))[0])
                } else {
                    None
                },
            })
        }),
{
    let a = associations(es, version, flags);
    lemma_words();
    lemma_pair(lit("ipco"), boxes(ps), lit("ipma"), a);
    let (x, y) = (built(lit("ipco"), boxes(ps)), built(lit("ipma"), a));
    lemma_last_of_two(x, y, lit("ipco"));
    lemma_last_of_two(x, y, lit("ipma"));
    lemma_properties(ps);
    assert(a + seq![] =~= a);
}

/// The size of the primary image is the one of the first property of type `ispe` that is
/// associated with the primary item, whatever other items there are.
pub proof fn primary_image_size(
    ps: Seq<(Seq<u8>, Seq<u8>)>,
    es: Seq<Links>,
    version: u8,
    flags: u8,
    primary: u32,
    i: int,
    j: int,
)
    requires
        all_fits(ps, es, version, flags),
        gives_size(es, i, j, primary as int, sizes_of(ps)),
        forall|h: int, k: int| #[trigger]
            gives_size(es, h, k, primary as int, sizes_of(ps)) ==> h > i || (h == i && k >= j),
    ensures
        iprp(item_properties(ps, es, version, flags), Some(primary)) == sizes_of(
            ps,
        )[es[i].links[j].number - 1],
{
    lemma_iprp(ps, es, version, flags, Some(primary));
    the_primary_size_counts(es, version, flags, seq![], primary, sizes_of(ps), i, j);
}

/// Whether `k` is the only property that gives a size.
pub open spec fn only_size(ps: Seq<(Seq<u8>, Seq<u8>)>, k: int) -> bool {
    &&& 0 <= k < ps.len()
    &&& sizes_of(ps)[k] is Some
    &&& forall|j: int| 0 <= j < ps.len() && j != k ==> #[trigger] sizes_of(ps)[j] is None
}

proof fn lemma_no_sizes(s: Seq<Option<(u32, u32)>>)
    requires
        forall|j: int| 0 <= j < s.len() ==> #[trigger] s[j] is None,
    ensures
        sizes(s).len() == 0,
    decreases s.len(),
{
    if s.len() > 0 {
        assert(s[s.len() - 1] is None);
        assert forall|j: int| 0 <= j < s.drop_last().len() implies #[trigger] s.drop_last()[j]
            is None by {
            assert(s.drop_last()[j] == s[j]);
        }
        lemma_no_sizes(s.drop_last());
    }
}

proof fn lemma_one_size(s: Seq<Option<(u32, u32)>>, k: int)
    requires
        0 <= k < s.len(),
        s[k] is Some,
        forall|j: int| 0 <= j < s.len() && j != k ==> #[trigger] s[j] is None,
    ensures
        sizes(s).len() == 1,
        Some(sizes(s)[0]) == s[k],
    decreases s.len(),
{
    let m = s.drop_last();
    assert forall|j: int| 0 <= j < m.len() && j != k implies #[trigger] m[j] is None by {
        assert(m[j] == s[j]);
    }
    if k == s.len() - 1 {
        lemma_no_sizes(m);
    } else {
        assert(s[s.len() - 1] is None);
        assert(m[k] == s[k]);
        lemma_one_size(m, k);
    }
}

proof fn lemma_some_size(s: Seq<Option<(u32, u32)>>, k: int)
    requires
        0 <= k < s.len(),
        s[k] is Some,
    ensures
        sizes(s).len() >= 1,
    decreases s.len(),
{
    if k < s.len() - 1 {
        assert(s.drop_last()[k] == s[k]);
        lemma_some_size(s.drop_last(), k);
    }
}

proof fn lemma_two_sizes(s: Seq<Option<(u32, u32)>>, k: int, h: int)
    requires
        0 <= k < h < s.len(),
        s[k] is Some,
        s[h] is Some,
    ensures
        sizes(s).len() >= 2,
    decreases s.len(),
{
    let m = s.drop_last();
    assert(m[k] == s[k]);
    if h == s.len() - 1 {
        lemma_some_size(m, k);
    } else {
        assert(m[h] == s[h]);
        lemma_two_sizes(m, k, h);
    }
}

/// Where nothing gives the primary item a size, the size is the only one that there is;
/// where there are two or more, or none, there is no telling.
pub proof fn sizes_without_an_item(
    ps: Seq<(Seq<u8>, Seq<u8>)>,
    es: Seq<Links>,
    version: u8,
    flags: u8,
    primary: Option<u32>,
    k: int,
    h: int,
)
    requires
        all_fits(ps, es, version, flags),
        primary matches Some(id) ==> forall|a: int, b: int| !#[trigger]
            gives_size(es, a, b, id as int, sizes_of(ps)),
    ensures
        only_size(ps, k) ==> iprp(item_properties(ps, es, version, flags), primary) == sizes_of(
            ps,
        )[k],
        0 <= k < h < ps.len() && sizes_of(ps)[k] is Some && sizes_of(ps)[h] is Some ==> iprp(
            item_properties(ps, es, version, flags),
            primary,
        ) is None,
        (forall|j: int| 0 <= j < ps.len() ==> #[trigger] sizes_of(ps)[j] is None) ==> iprp(
            item_properties(ps, es, version, flags),
            primary,
        ) is None,
{
    lemma_iprp(ps, es, version, flags, primary);
    match primary {
        Some(id) => other_sizes_do_not_count(es, version, flags, seq![], id, sizes_of(ps)),
        None => {},
    }
    let s = sizes_of(ps);
    if only_size(ps, k) {
        lemma_one_size(s, k);
    }
    if 0 <= k < h < ps.len() && s[k] is Some && s[h] is Some {
        lemma_two_sizes(s, k, h);
    }
    if forall|j: int| 0 <= j < ps.len() ==> #[trigger] sizes_of(ps)[j] is None {
        lemma_no_sizes(s);
    }
}

/// The payload of a `meta` box that tells the primary item, by a number below 65536, and
/// properties.
pub open spec fn image_meta(primary: int, iprp: Seq<u8>) -> Seq<u8> {
    seq![0u8, 0u8, 0u8, 0u8] + pair(
        lit("pitm"),
        seq![0u8, 0u8, 0u8, 0u8] + two_bytes(primary),
        lit("iprp"),
        iprp,
    )
}

proof fn lemma_meta(primary: int, q: Seq<u8>, at: u64)
    requires
        0 <= primary < 65536,
        q.len() + 8 <= u32::MAX,
    ensures
        meta(image_meta(primary, q), at).dims == iprp(q, Some(primary as u32)),
        meta(image_meta(primary, q), at).targets.len() == 0,
        meta(image_meta(primary, q), at).inline.len() == 0,
        meta(image_meta(primary, q), at).warnings.len() == 0,
{
    lemma_words();
    let t = seq![0u8, 0u8, 0u8, 0u8] + two_bytes(primary);
    let p = image_meta(primary, q);
    let rest = pair(lit("pitm"), t, lit("iprp"), q);
    assert(tail(p, 4) =~= rest);
    lemma_pair(lit("pitm"), t, lit("iprp"), q);
    let (x, y) = (built(lit("pitm"), t), built(lit("iprp"), q));
    lemma_last_of_two(x, y, lit("pitm"));
    lemma_last_of_two(x, y, lit("iprp"));
    lemma_last_of_two(x, y, lit("iinf"));
    lemma_last_of_two(x, y, lit("iloc"));
    lemma_last_of_two(x, y, lit("idat"));
    assert(t.subrange(4, 6) =~= two_bytes(primary));
    lemma_two(t, 4, primary);
    assert(pitm(t) == Some(primary as u32));
}

proof fn lemma_lengths(
    ps: Seq<(Seq<u8>, Seq<u8>)>,
    es: Seq<Links>,
    version: u8,
    flags: u8,
    primary: int,
)
    requires
        all_fits(ps, es, version, flags),
    ensures
        item_properties(ps, es, version, flags).len() + 8 <= u32::MAX,
        image_meta(primary, item_properties(ps, es, version, flags)).len() + 8 <= u32::MAX,
{
    lemma_words();
    lemma_a_box(lit("ipco"), boxes(ps));
    lemma_a_box(lit("ipma"), associations(es, version, flags));
    let q = item_properties(ps, es, version, flags);
    assert(q.len() == boxes(ps).len() + associations(es, version, flags).len() + 16);
    lemma_a_box(lit("iprp"), q);
    lemma_a_box(lit("pitm"), seq![0u8, 0u8, 0u8, 0u8] + two_bytes(primary));
}

/// A file with a `meta` box that tells a size and nothing else.
proof fn lemma_image_file(x: Seq<u8>, p: Seq<u8>, more: Seq<u8>, l: Limits, d: (u32, u32))
    requires
        4 <= x.len() < 0x4000_0000,
        p.len() + 8 <= u32::MAX,
        two_boxes(x, lit("meta"), p, more).len() <= isize::MAX,
        ({
            let m = meta(p, (x.len() + 8) as u64);
            &&& m.dims == Some(d)
            &&& m.targets.len() == 0
            &&& m.inline.len() == 0
            &&& m.warnings.len() == 0
        }),
    ensures
        metadata_of(two_boxes(x, lit("meta"), p, more), l) matches Some(m) && m.unified.width
            == Some(d.0) && m.unified.height == Some(d.1),
{
    let at = (x.len() + 8) as u64;
    lemma_two_boxes(x, lit("meta"), p, more, l);
    let es = second_events(lit("meta"), p, at, l.max_tags);
    assert(es =~= sized(d.0, d.1) + seq![]) by {
        reveal(second_events);
        crate::laws::files::lemma_box_words();
        let m = meta(p, at);
        assert(payload_events(m.inline) =~= seq![]);
        assert(warning_events(m.warnings) =~= seq![]);
        assert(meta_events(m) =~= opt_dims(m.dims));
        assert(opt_dims(m.dims) =~= sized(d.0, d.1));
    }
    lemma_sized(nothing(l), d.0, d.1, seq![]);
}

/// A file whose `meta` box names a primary item is read with the size of that item: with the
/// width and the height of the first property of type `ispe` that is associated with it,
/// whatever else is in the file.
pub proof fn heif_sizes_are_read(
    x: Seq<u8>,
    ps: Seq<(Seq<u8>, Seq<u8>)>,
    es: Seq<Links>,
    version: u8,
    flags: u8,
    primary: int,
    more: Seq<u8>,
    l: Limits,
    i: int,
    j: int,
)
    requires
        4 <= x.len() < 0x4000_0000,
        0 <= primary < 65536,
        all_fits(ps, es, version, flags),
        gives_size(es, i, j, primary, sizes_of(ps)),
        forall|h: int, k: int| #[trigger]
            gives_size(es, h, k, primary, sizes_of(ps)) ==> h > i || (h == i && k >= j),
        two_boxes(
            x,
            lit("meta"),
            image_meta(primary, item_properties(ps, es, version, flags)),
            more,
        ).len() <= isize::MAX,
    ensures
        ({
            let p = ps[es[i].links[j].number - 1].1;
            metadata_of(
                two_boxes(
                    x,
                    lit("meta"),
                    image_meta(primary, item_properties(ps, es, version, flags)),
                    more,
                ),
                l,
            ) matches Some(m) && m.unified.width == Some(four(p, 4) as u32) && m.unified.height
                == Some(four(p, 8) as u32)
        }),
{
    let q = item_properties(ps, es, version, flags);
    let p = image_meta(primary, q);
    primary_image_size(ps, es, version, flags, primary as u32, i, j);
    lemma_lengths(ps, es, version, flags, primary);
    lemma_meta(primary, q, (x.len() + 8) as u64);
    lemma_image_file(x, p, more, l, sizes_of(ps)[es[i].links[j].number - 1].unwrap());
}

} // verus!
