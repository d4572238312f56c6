//! The size of the primary image of HEIF and AVIF files: among the sizes that the
//! properties give, the one that is associated with the primary item.
use vstd::prelude::*;

use crate::bytes::{be16, be32};
use crate::formats::items::{assoc, ipma, ipma_entries, ispe, pitm, Assoc};
use crate::laws::movies::{four, two};

verus! {

/// A number below 65536 in two bytes, the more significant first.
pub open spec fn two_bytes(x: int) -> Seq<u8> {
    seq![(x / 256) as u8, (x % 256) as u8]
}

/// A number below two to the 32nd in four bytes, the most significant first.
pub open spec fn four_bytes(x: int) -> Seq<u8> {
    two_bytes(x / 65536) + two_bytes(x % 65536)
}

pub proof fn lemma_two(b: Seq<u8>, at: int, x: int)
    requires
        0 <= x < 65536,
        0 <= at,
        at + 2 <= b.len(),
        b.subrange(at, at + 2) == two_bytes(x),
    ensures
        two(b, at) == x,
        be16(b, at) == x,
{
    let s = b.subrange(at, at + 2);
    assert(s[0] == b[at] && s[1] == b[at + 1]);
}

pub proof fn lemma_four(b: Seq<u8>, at: int, x: int)
    requires
        0 <= x < 0x1_0000_0000,
        0 <= at,
        at + 4 <= b.len(),
        b.subrange(at, at + 4) == four_bytes(x),
    ensures
        four(b, at) == x,
        be32(b, at) == x,
{
    let s = b.subrange(at, at + 4);
    assert(s[0] == b[at] && s[1] == b[at + 1] && s[2] == b[at + 2] && s[3] == b[at + 3]);
}

/// The number of a primary item is the one that its box holds.
pub proof fn primary_items_are_read(p: Seq<u8>)
    ensures
        p.len() >= 6 && p[0] == 0 ==> pitm(p) == Some(two(p, 4) as u32),
        p.len() >= 8 && p[0] != 0 ==> pitm(p) == Some(four(p, 4) as u32),
        p.len() < 6 ==> pitm(p) is None,
{
}

/// The width of an image stands before its height.
pub proof fn image_sizes_are_read(p: Seq<u8>)
    ensures
        p.len() >= 12 ==> ispe(p) == Some((four(p, 4) as u32, four(p, 8) as u32)),
        p.len() < 12 ==> ispe(p) is None,
{
}

/// One association of an item: whether the property is essential, and its number.
pub struct Link {
    pub essential: bool,
    pub number: int,
}

/// What is associated with one item.
pub struct Links {
    pub item: int,
    pub links: Seq<Link>,
}

/// The bytes of an association: short or long ones, whose highest bit is the flag.
pub open spec fn link_bytes(k: Link, long: bool) -> Seq<u8> {
    if long {
        two_bytes(
            k.number + if k.essential {
                0x8000int
            } else {
                0
            },
        )
    } else {
        seq![
            (k.number + if k.essential {
                0x80int
            } else {
                0
            }) as u8,
        ]
    }
}

pub open spec fn links_bytes(ks: Seq<Link>, long: bool) -> Seq<u8>
    decreases ks.len(),
{
    if ks.len() == 0 {
        seq![]
    } else {
        link_bytes(ks[0], long) + links_bytes(ks.drop_first(), long)
    }
}

/// The bytes of an entry: the number of the item, short or long, how many associations
/// there are, and these.
pub open spec fn entry_bytes(e: Links, version: u8, long: bool) -> Seq<u8> {
    (if version == 0 {
        two_bytes(e.item)
    } else {
        four_bytes(e.item)
    }) + seq![e.links.len() as u8] + links_bytes(e.links, long)
}

pub open spec fn entries_bytes(es: Seq<Links>, version: u8, long: bool) -> Seq<u8>
    decreases es.len(),
{
    if es.len() == 0 {
        seq![]
    } else {
        entry_bytes(es[0], version, long) + entries_bytes(es.drop_first(), version, long)
    }
}

/// The payload of an `ipma` box with the given entries.
pub open spec fn associations(es: Seq<Links>, version: u8, flags: u8) -> Seq<u8> {
    seq![version, 0u8, 0u8, flags] + four_bytes(es.len() as int) + entries_bytes(
        es,
        version,
        flags % 2 == 1,
    )
}

/// The numbers fit the space that they have.
pub open spec fn fits(es: Seq<Links>, version: u8, flags: u8) -> bool {
    &&& es.len() < 0x1_0000_0000
    &&& forall|i: int| 0 <= i < es.len() ==> entry_fits(#[trigger] es[i], version, flags % 2 == 1)
}

pub open spec fn entry_fits(e: Links, version: u8, long: bool) -> bool {
    &&& 0 <= e.item < if version == 0 {
        0x1_0000int
    } else {
        0x1_0000_0000
    }
    &&& e.links.len() < 256
    &&& forall|j: int|
        0 <= j < e.links.len() ==> 0 <= (#[trigger] e.links[j]).number < if long {
            0x8000int
        } else {
            0x80
        }
}

/// The `j`-th association of the `i`-th entry gives the item a size.
pub open spec fn gives_size(
    es: Seq<Links>,
    i: int,
    j: int,
    item: int,
    props: Seq<Option<(u32, u32)>>,
) -> bool {
    &&& 0 <= i < es.len()
    &&& es[i].item == item
    &&& 0 <= j < es[i].links.len()
    &&& 1 <= es[i].links[j].number <= props.len()
    &&& props[es[i].links[j].number - 1] is Some
}

/// Whether one of the associations is that of a size.
spec fn size_among(ks: Seq<Link>, props: Seq<Option<(u32, u32)>>) -> Option<(u32, u32)>
    decreases ks.len(),
{
    if ks.len() == 0 {
        None
    } else if 1 <= ks[0].number <= props.len() && props[ks[0].number - 1] is Some {
        props[ks[0].number - 1]
    } else {
        size_among(ks.drop_first(), props)
    }
}

proof fn lemma_links(
    b: Seq<u8>,
    at: int,
    ks: Seq<Link>,
    long: bool,
    primary: bool,
    props: Seq<Option<(u32, u32)>>,
)
    requires
        0 <= at <= b.len(),
        at + links_bytes(ks, long).len() <= b.len(),
        b.subrange(at, at + links_bytes(ks, long).len()) == links_bytes(ks, long),
        forall|j: int|
            0 <= j < ks.len() ==> 0 <= (#[trigger] ks[j]).number < if long {
                0x8000int
            } else {
                0x80
            },
    ensures
        ({
            let end = at + links_bytes(ks, long).len();
            assoc(b, at, ks.len() as int, long, primary, props) == (if primary {
                match size_among(ks, props) {
                    Some(d) => Assoc::Found(d),
                    None => Assoc::Next(end),
                }
            } else {
                Assoc::Next(end)
            })
        }),
    decreases ks.len(),
{
    if ks.len() > 0 {
        let x = link_bytes(ks[0], long);
        let m = ks.drop_first();
        let y = links_bytes(m, long);
        let n = if long {
            2int
        } else {
            1
        };
        let s = b.subrange(at, at + n + y.len());
        assert(x.len() == n);
        assert(s == x + y);
        assert(b.subrange(at, at + n) =~= x) by {
            assert(b.subrange(at, at + n) =~= s.subrange(0, n));
            assert((x + y).subrange(0, n) =~= x);
        }
        assert(b.subrange(at + n, at + n + y.len()) =~= y) by {
            assert(b.subrange(at + n, at + n + y.len()) =~= s.subrange(n, n + y.len()));
            assert((x + y).subrange(n, n + y.len()) =~= y);
        }
        assert forall|j: int| 0 <= j < m.len() implies 0 <= (#[trigger] m[j]).number < if long {
            0x8000int
        } else {
            0x80
        } by {
            assert(m[j] == ks[j + 1]);
        }
        assert(0 <= ks[0].number);
        if long {
            let v = ks[0].number + if ks[0].essential {
                0x8000int
            } else {
                0
            };
            lemma_two(b, at, v);
            assert(v % 0x8000 == ks[0].number);
        } else {
            assert(b.subrange(at, at + 1)[0] == b[at]);
            assert(b[at] as int % 0x80 == ks[0].number);
        }
        lemma_links(b, at + n, m, long, primary, props);
    }
}

/// The first size that an entry of the item gives.
spec fn size_for(es: Seq<Links>, item: int, props: Seq<Option<(u32, u32)>>) -> Option<(u32, u32)>
    decreases es.len(),
{
    if es.len() == 0 {
        None
    } else if es[0].item == item && size_among(es[0].links, props) is Some {
        size_among(es[0].links, props)
    } else {
        size_for(es.drop_first(), item, props)
    }
}

proof fn lemma_entries(
    b: Seq<u8>,
    at: int,
    es: Seq<Links>,
    version: u8,
    flags: u8,
    primary: u32,
    props: Seq<Option<(u32, u32)>>,
)
    requires
        8 <= at <= b.len(),
        b[0] == version,
        be32(b, 0) % 2 == flags % 2,
        at + entries_bytes(es, version, flags % 2 == 1).len() <= b.len(),
        b.subrange(at, at + entries_bytes(es, version, flags % 2 == 1).len()) == entries_bytes(
            es,
            version,
            flags % 2 == 1,
        ),
        fits(es, version, flags),
    ensures
        ipma_entries(b, at, es.len() as int, primary, props) == size_for(es, primary as int, props),
    decreases es.len(),
{
    if es.len() > 0 {
        let long = flags % 2 == 1;
        let e = es[0];
        let m = es.drop_first();
        assert(entry_fits(e, version, long));
        let x = entry_bytes(e, version, long);
        let y = entries_bytes(m, version, long);
        let k = links_bytes(e.links, long);
        let n = if version == 0 {
            2int
        } else {
            4
        };
        assert(x.len() == n + 1 + k.len());
        let s = b.subrange(at, at + x.len() + y.len());
        assert(s == x + y);
        assert(b.subrange(at, at + n) =~= x.subrange(0, n)) by {
            assert(b.subrange(at, at + n) =~= (x + y).subrange(0, n));
        }
        if version == 0 {
            assert(x.subrange(0, 2) =~= two_bytes(e.item));
            lemma_two(b, at, e.item);
        } else {
            assert(x.subrange(0, 4) =~= four_bytes(e.item));
            lemma_four(b, at, e.item);
        }
        assert(b[at + n] == e.links.len()) by {
            assert(s[n] == b[at + n]);
            assert((x + y)[n] == x[n]);
        }
        assert(b.subrange(at + n + 1, at + n + 1 + k.len()) =~= k) by {
            assert(b.subrange(at + n + 1, at + n + 1 + k.len()) =~= (x + y).subrange(
                n + 1,
                n + 1 + k.len(),
            ));
            assert((x + y).subrange(n + 1, n + 1 + k.len()) =~= k);
        }
        lemma_links(b, at + n + 1, e.links, long, e.item == primary, props);
        assert(b.subrange(at + x.len(), at + x.len() + y.len()) =~= y) by {
            assert(b.subrange(at + x.len(), at + x.len() + y.len()) =~= (x + y).subrange(
                x.len() as int,
                x.len() as int + y.len(),
            ));
        }
        assert forall|i: int| 0 <= i < m.len() implies entry_fits(#[trigger] m[i], version, long) by {
            assert(m[i] == es[i + 1]);
        }
        lemma_entries(b, at + x.len(), m, version, flags, primary, props);
    }
}

proof fn lemma_among(ks: Seq<Link>, props: Seq<Option<(u32, u32)>>)
    ensures
        match size_among(ks, props) {
            Some(d) => exists|j: int|
                #![trigger ks[j]]
                0 <= j < ks.len() && 1 <= ks[j].number <= props.len() && props[ks[j].number - 1]
                    == Some(d) && forall|h: int|
                    0 <= h < j ==> !(1 <= (#[trigger] ks[h]).number <= props.len()
                        && props[ks[h].number - 1] is Some),
            None => forall|j: int|
                0 <= j < ks.len() ==> !(1 <= (#[trigger] ks[j]).number <= props.len()
                    && props[ks[j].number - 1] is Some),
        },
    decreases ks.len(),
{
    if ks.len() > 0 {
        let m = ks.drop_first();
        lemma_among(m, props);
        if 1 <= ks[0].number <= props.len() && props[ks[0].number - 1] is Some {
            assert(props[ks[0].number - 1] == size_among(ks, props));
        } else {
            match size_among(m, props) {
                Some(d) => {
                    let j = choose|j: int|
                        #![trigger m[j]]
                        0 <= j < m.len() && 1 <= m[j].number <= props.len() && props[m[j].number
                            - 1] == Some(d) && forall|h: int|
                            0 <= h < j ==> !(1 <= (#[trigger] m[h]).number <= props.len()
                                && props[m[h].number - 1] is Some);
                    assert(ks[j + 1] == m[j]);
                    assert forall|h: int| 0 <= h < j + 1 implies !(1 <= (
                    #[trigger] ks[h]).number <= props.len() && props[ks[h].number - 1] is Some) by {
                        if h > 0 {
                            assert(ks[h] == m[h - 1]);
                        }
                    }
                },
                None => {
                    assert forall|j: int| 0 <= j < ks.len() implies !(1 <= (
                    #[trigger] ks[j]).number <= props.len() && props[ks[j].number - 1] is Some) by {
                        if j > 0 {
                            assert(ks[j] == m[j - 1]);
                        }
                    }
                },
            }
        }
    }
}

proof fn lemma_for(
    es: Seq<Links>,
    i: int,
    j: int,
    item: int,
    props: Seq<Option<(u32, u32)>>,
)
    requires
        gives_size(es, i, j, item, props),
        forall|h: int, k: int| #[trigger]
            gives_size(es, h, k, item, props) ==> h > i || (h == i && k >= j),
    ensures
        size_for(es, item, props) == props[es[i].links[j].number - 1],
    decreases es.len(),
{
    let m = es.drop_first();
    let ks = es[0].links;
    lemma_among(ks, props);
    if i == 0 {
        match size_among(ks, props) {
            Some(d) => {
                let k = choose|k: int|
                    #![trigger ks[k]]
                    0 <= k < ks.len() && 1 <= ks[k].number <= props.len() && props[ks[k].number
                        - 1] == Some(d) && forall|h: int|
                        0 <= h < k ==> !(1 <= (#[trigger] ks[h]).number <= props.len()
                            && props[ks[h].number - 1] is Some);
                assert(gives_size(es, 0, k, item, props));
                assert(!(k > j)) by {
                    if k > j {
                        assert(!(1 <= ks[j].number <= props.len() && props[ks[j].number - 1]
                            is Some));
                    }
                }
            },
            None => {},
        }
    } else {
        if es[0].item == item {
            match size_among(ks, props) {
                Some(d) => {
                    let k = choose|k: int|
                        #![trigger ks[k]]
                        0 <= k < ks.len() && 1 <= ks[k].number <= props.len()
                            && props[ks[k].number - 1] == Some(d) && forall|h: int|
                            0 <= h < k ==> !(1 <= (#[trigger] ks[h]).number <= props.len()
                                && props[ks[h].number - 1] is Some);
                    assert(gives_size(es, 0, k, item, props));
                },
                None => {},
            }
        }
        assert(m[i - 1] == es[i]);
        assert(gives_size(m, i - 1, j, item, props));
        assert forall|h: int, k: int| #[trigger] gives_size(m, h, k, item, props) implies h > i - 1
            || (h == i - 1 && k >= j) by {
            assert(m[h] == es[h + 1]);
            assert(gives_size(es, h + 1, k, item, props));
        }
        lemma_for(m, i - 1, j, item, props);
    }
}

proof fn lemma_none(es: Seq<Links>, item: int, props: Seq<Option<(u32, u32)>>)
    requires
        forall|h: int, k: int| !#[trigger] gives_size(es, h, k, item, props),
    ensures
        size_for(es, item, props) is None,
    decreases es.len(),
{
    if es.len() > 0 {
        let m = es.drop_first();
        let ks = es[0].links;
        lemma_among(ks, props);
        match size_among(ks, props) {
            Some(d) => {
                let k = choose|k: int|
                    #![trigger ks[k]]
                    0 <= k < ks.len() && 1 <= ks[k].number <= props.len() && props[ks[k].number
                        - 1] == Some(d) && forall|h: int|
                        0 <= h < k ==> !(1 <= (#[trigger] ks[h]).number <= props.len()
                            && props[ks[h].number - 1] is Some);
                assert(!gives_size(es, 0, k, item, props));
            },
            None => {},
        }
        assert forall|h: int, k: int| !#[trigger] gives_size(m, h, k, item, props) by {
            if 0 <= h < m.len() {
                assert(m[h] == es[h + 1]);
                assert(!gives_size(es, h + 1, k, item, props));
            }
        }
        lemma_none(m, item, props);
    }
}

proof fn lemma_box(
    es: Seq<Links>,
    version: u8,
    flags: u8,
    more: Seq<u8>,
    primary: u32,
    props: Seq<Option<(u32, u32)>>,
)
    requires
        fits(es, version, flags),
    ensures
        ipma(associations(es, version, flags) + more, primary, props) == size_for(
            es,
            primary as int,
            props,
        ),
{
    let x = entries_bytes(es, version, flags % 2 == 1);
    let b = associations(es, version, flags) + more;
    assert(b[0] == version && b[1] == 0 && b[2] == 0 && b[3] == flags);
    assert(be32(b, 0) as int % 2 == flags as int % 2);
    assert(b.subrange(4, 8) =~= four_bytes(es.len() as int));
    lemma_four(b, 4, es.len() as int);
    assert(b.subrange(8, 8 + x.len() as int) =~= x);
    lemma_entries(b, 8, es, version, flags, primary, props);
}

/// The size of the primary image is the first one that is associated with the primary item.
/// What is associated with other items, before it or behind it, does not count.
pub proof fn the_primary_size_counts(
    es: Seq<Links>,
    version: u8,
    flags: u8,
    more: Seq<u8>,
    primary: u32,
    props: Seq<Option<(u32, u32)>>,
    i: int,
    j: int,
)
    requires
        fits(es, version, flags),
        gives_size(es, i, j, primary as int, props),
        forall|h: int, k: int| #[trigger]
            gives_size(es, h, k, primary as int, props) ==> h > i || (h == i && k >= j),
    ensures
        ipma(associations(es, version, flags) + more, primary, props)
            == props[es[i].links[j].number - 1],
{
    lemma_box(es, version, flags, more, primary, props);
    lemma_for(es, i, j, primary as int, props);
}

/// Where nothing gives the primary item a size, there is none.
pub proof fn other_sizes_do_not_count(
    es: Seq<Links>,
    version: u8,
    flags: u8,
    more: Seq<u8>,
    primary: u32,
    props: Seq<Option<(u32, u32)>>,
)
    requires
        fits(es, version, flags),
        forall|h: int, k: int| !#[trigger] gives_size(es, h, k, primary as int, props),
    ensures
        ipma(associations(es, version, flags) + more, primary, props) is None,
{
    lemma_box(es, version, flags, more, primary, props);
    lemma_none(es, primary as int, props);
}

} // verus!
