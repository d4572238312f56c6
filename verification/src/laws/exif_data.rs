//! EXIF data, directory by directory: what is decoded are the tags that stand in the
//! directories, in the order in which these are linked.
use vstd::prelude::*;
use vstd::utf8::{decode_utf8, valid_utf8};

use crate::bytes::{find_from, lemma_find_from};
use crate::codecs::exif::{
    child, decoded, directories, directory, entries, links_of, next_link, scalar, typed, unit,
    value, Link, Progress,
};
use crate::cursor::{u16_at, u32_at, Endian};
use crate::limits::Limits;
use crate::model::{ExifTagView, IfdKind, ValueView, WarnKind, Warning};

verus! {

/// The number of two bytes at `i`, the most significant first or last.
pub open spec fn short(big: bool, b: Seq<u8>, i: int) -> int {
    if big {
        b[i] * 256 + b[i + 1]
    } else {
        b[i + 1] * 256 + b[i]
    }
}

/// The number of four bytes at `i`, the most significant first or last.
pub open spec fn long(big: bool, b: Seq<u8>, i: int) -> int {
    if big {
        ((b[i] * 256 + b[i + 1]) * 256 + b[i + 2]) * 256 + b[i + 3]
    } else {
        ((b[i + 3] * 256 + b[i + 2]) * 256 + b[i + 1]) * 256 + b[i]
    }
}

/// `x` of 32 bits, with the first of them for its sign.
pub open spec fn signed(x: int) -> int {
    if x >= 0x8000_0000 {
        x - 0x1_0000_0000
    } else {
        x
    }
}

/// How many bytes a number of the type takes: SHORT, LONG, RATIONAL and SRATIONAL.
pub open spec fn width(typ: int) -> int {
    if typ == 3 {
        2
    } else if typ == 4 {
        4
    } else {
        8
    }
}

/// The number of the type at `i`.
pub open spec fn number(big: bool, typ: int, b: Seq<u8>, i: int) -> ValueView {
    if typ == 3 {
        ValueView::U16(short(big, b, i) as u16)
    } else if typ == 4 {
        ValueView::U32(long(big, b, i) as u32)
    } else if typ == 5 {
        ValueView::Rational(long(big, b, i) as u32, long(big, b, i + 4) as u32)
    } else {
        ValueView::SRational(
            signed(long(big, b, i)) as i32,
            signed(long(big, b, i + 4)) as i32,
        )
    }
}

/// What an entry holds.
pub enum Item {
    /// ASCII: a text, and what follows its end, if anything does.
    Text { text: Seq<u8>, more: Seq<u8> },
    /// BYTE or UNDEFINED.
    Bytes { typ: int, data: Seq<u8> },
    /// Numbers of one type.
    Numbers { typ: int, count: int },
}

/// An entry of a directory.
pub struct Entry {
    pub tag: int,
    pub item: Item,
}

/// The number of a type.
pub open spec fn type_of(m: Item) -> int {
    match m {
        Item::Text { .. } => 2,
        Item::Bytes { typ, .. } => typ,
        Item::Numbers { typ, .. } => typ,
    }
}

pub open spec fn count_of(m: Item) -> int {
    match m {
        Item::Text { text, more } => (text.len() + more.len()) as int,
        Item::Bytes { data, .. } => data.len() as int,
        Item::Numbers { count, .. } => count,
    }
}

/// How many bytes it takes.
pub open spec fn size_of(m: Item) -> int {
    match m {
        Item::Numbers { typ, count } => count * width(typ),
        _ => count_of(m),
    }
}

/// Where the bytes of the entry at `at` are: in it, where they are four at most.
pub open spec fn place_of(big: bool, b: Seq<u8>, at: int, m: Item) -> int {
    if size_of(m) <= 4 {
        at + 8
    } else {
        long(big, b, at + 8)
    }
}

pub open spec fn well_made(m: Item) -> bool {
    match m {
        Item::Text { text, more } => valid_utf8(text) && (forall|i: int|
            0 <= i < text.len() ==> text[i] != 0) && (more.len() > 0 ==> more[0] == 0),
        Item::Bytes { typ, .. } => typ == 1 || typ == 7,
        Item::Numbers { typ, .. } => typ == 3 || typ == 4 || typ == 5 || typ == 10,
    }
}

/// The entry stands at `at`: the tag, the type, how many, and the bytes or where they are.
pub open spec fn stands(big: bool, b: Seq<u8>, at: int, x: Entry, max: int) -> bool {
    let p = place_of(big, b, at, x.item);
    let n = size_of(x.item);
    &&& well_made(x.item)
    &&& 0 <= at
    &&& at + 12 <= b.len()
    &&& short(big, b, at) == x.tag
    &&& short(big, b, at + 2) == type_of(x.item)
    &&& long(big, b, at + 4) == count_of(x.item)
    &&& 0 < n <= max
    &&& 0 <= p
    &&& p + n <= b.len()
    &&& match x.item {
        Item::Text { text, more } => b.subrange(p, p + n) == text + more,
        Item::Bytes { data, .. } => b.subrange(p, p + n) == data,
        Item::Numbers { .. } => true,
    }
}

/// The value that the entry at `at` has.
pub open spec fn value_at(big: bool, b: Seq<u8>, at: int, x: Entry) -> ValueView {
    let p = place_of(big, b, at, x.item);
    match x.item {
        Item::Text { text, .. } => ValueView::Text(decode_utf8(text)),
        Item::Bytes { data, .. } => ValueView::Bytes(data),
        Item::Numbers { typ, count } => if count == 1 {
            number(big, typ, b, p)
        } else {
            ValueView::List(
                Seq::new(count as nat, |i: int| number(big, typ, b, p + i * width(typ))),
            )
        },
    }
}

spec fn order(big: bool) -> Endian {
    if big {
        Endian::Big
    } else {
        Endian::Little
    }
}

proof fn lemma_numbers(big: bool, b: Seq<u8>, i: int)
    ensures
        u16_at(order(big), b, i) == short(big, b, i),
        u32_at(order(big), b, i) == long(big, b, i),
        0 <= long(big, b, i) < 0x1_0000_0000,
{
}

proof fn lemma_signed(x: u32)
    ensures
        x as i32 == signed(x as int),
        signed(x as int) as i32 == signed(x as int),
{
    assert(x < 0x8000_0000 ==> x as i32 == x) by (bit_vector);
    assert(x >= 0x8000_0000 ==> x as i32 == x - 0x1_0000_0000) by (bit_vector);
}

proof fn lemma_number(big: bool, typ: int, b: Seq<u8>, p: int, n: int, i: int)
    requires
        typ == 3 || typ == 4 || typ == 5 || typ == 10,
        0 <= p,
        p + n <= b.len(),
        0 <= i,
        i + width(typ) <= n,
    ensures
        scalar(order(big), typ as u16, b.subrange(p, p + n), i) == number(big, typ, b, p + i),
{
    let d = b.subrange(p, p + n);
    lemma_numbers(big, d, i);
    lemma_numbers(big, d, i + 4);
    lemma_numbers(big, b, p + i);
    lemma_numbers(big, b, p + i + 4);
    assert(d[i] == b[p + i] && d[i + 1] == b[p + i + 1]);
    if typ != 3 {
        assert(d[i + 2] == b[p + i + 2] && d[i + 3] == b[p + i + 3]);
    }
    if typ == 5 || typ == 10 {
        assert(d[i + 4] == b[p + i + 4] && d[i + 5] == b[p + i + 5] && d[i + 6] == b[p + i + 6]
            && d[i + 7] == b[p + i + 7]);
        lemma_signed(u32_at(order(big), d, i));
        lemma_signed(u32_at(order(big), d, i + 4));
    }
}

proof fn lemma_text(text: Seq<u8>, more: Seq<u8>)
    requires
        forall|i: int| 0 <= i < text.len() ==> text[i] != 0,
        more.len() > 0 ==> more[0] == 0,
    ensures
        (text + more).subrange(0, find_from(text + more, 0, 0)) == text,
{
    let t = text + more;
    lemma_find_from(t, 0, 0);
    let f = find_from(t, 0, 0);
    let n = text.len() as int;
    if f < n {
        assert(t[f] == text[f]);
    }
    if more.len() > 0 {
        assert(t[n] == 0);
    }
    assert(t.subrange(0, n) =~= text);
}

/// Where the bytes of an entry are, and of which type.
proof fn lemma_place(big: bool, b: Seq<u8>, at: int, x: Entry, max: int)
    requires
        stands(big, b, at, x, max),
    ensures
        ({
            let (p, n) = (place_of(big, b, at, x.item), size_of(x.item));
            let e = order(big);
            value(b, e, u16_at(e, b, at + 2), u32_at(e, b, at + 4), at + 8, max) == typed(
                e,
                type_of(x.item) as u16,
                count_of(x.item) as u32,
                b.subrange(p, p + n),
            )
        }),
        u16_at(order(big), b, at) == x.tag,
        0 <= count_of(x.item) <= u32::MAX,
{
    lemma_numbers(big, b, at);
    lemma_numbers(big, b, at + 2);
    lemma_numbers(big, b, at + 4);
    lemma_numbers(big, b, at + 8);
    match x.item {
        Item::Numbers { typ, count } => {
            assert(unit(typ as u16) == Some(width(typ)));
        },
        _ => {
            assert(unit(type_of(x.item) as u16) == Some(1int));
            assert(count_of(x.item) * 1 == count_of(x.item));
        },
    }
}

proof fn lemma_list(big: bool, b: Seq<u8>, p: int, n: int, typ: int, count: int)
    requires
        typ == 3 || typ == 4 || typ == 5 || typ == 10,
        0 < count <= u32::MAX,
        n == count * width(typ),
        0 <= p,
        p + n <= b.len(),
    ensures
        typed(order(big), typ as u16, count as u32, b.subrange(p, p + n)) == Some(
            if count == 1 {
                number(big, typ, b, p)
            } else {
                ValueView::List(
                    Seq::new(count as nat, |i: int| number(big, typ, b, p + i * width(typ))),
                )
            },
        ),
{
    let d = b.subrange(p, p + n);
    let u = width(typ);
    assert(unit(typ as u16) == Some(u));
    if count == 1 {
        lemma_number(big, typ, b, p, n, 0);
    } else {
        let e = order(big);
        let read = Seq::new(
            count as nat,
            |i: int| scalar(e, typ as u16, d, i * unit(typ as u16).unwrap()),
        );
        let meant = Seq::new(count as nat, |i: int| number(big, typ, b, p + i * width(typ)));
        assert forall|i: int| 0 <= i < count implies read[i] == meant[i] by {
            assert(0 <= i * u && i * u + u <= count * u) by (nonlinear_arith)
                requires
                    0 <= i < count,
                    u > 0,
            ;
            lemma_number(big, typ, b, p, n, i * u);
        }
        assert(read =~= meant);
    }
}

proof fn lemma_value(big: bool, b: Seq<u8>, at: int, x: Entry, max: int)
    requires
        stands(big, b, at, x, max),
    ensures
        value(
            b,
            order(big),
            u16_at(order(big), b, at + 2),
            u32_at(order(big), b, at + 4),
            at + 8,
            max,
        ) == Some(value_at(big, b, at, x)),
        u16_at(order(big), b, at) == x.tag,
{
    lemma_place(big, b, at, x, max);
    let (p, n) = (place_of(big, b, at, x.item), size_of(x.item));
    match x.item {
        Item::Text { text, more } => lemma_text(text, more),
        Item::Bytes { .. } => {},
        Item::Numbers { typ, count } => {
            if count <= 0 {
                assert(count * width(typ) <= 0) by (nonlinear_arith)
                    requires
                        count <= 0,
                        width(typ) > 0,
                ;
            }
            lemma_list(big, b, p, n, typ, count);
        },
    }
}

/// A directory: what it is for, where it is, and its entries.
pub struct Directory {
    pub kind: IfdKind,
    pub at: int,
    pub entries: Seq<Entry>,
}

/// All entries stand, one after the other, behind how many there are.
pub open spec fn all_stand(big: bool, b: Seq<u8>, d: Directory, max: int) -> bool {
    &&& 0 <= d.at < 0x1_0000_0000
    &&& d.at + 2 <= b.len()
    &&& short(big, b, d.at) == d.entries.len()
    &&& forall|i: int|
        0 <= i < d.entries.len() ==> stands(
            big,
            b,
            d.at + 2 + 12 * i,
            #[trigger] d.entries[i],
            max,
        )
}

/// The tags of entries that stand from `at` on.
pub open spec fn tags_from(big: bool, b: Seq<u8>, kind: IfdKind, at: int, xs: Seq<Entry>) -> Seq<
    ExifTagView,
> {
    Seq::new(
        xs.len(),
        |i: int|
            ExifTagView {
                ifd: kind,
                tag: xs[i].tag as u16,
                value: value_at(big, b, at + 12 * i, xs[i]),
            },
    )
}

pub open spec fn tags_of(big: bool, b: Seq<u8>, d: Directory) -> Seq<ExifTagView> {
    tags_from(big, b, d.kind, d.at + 2, d.entries)
}

/// The directory that a tag leads to: 0x8769 and 0x8825 in the first one, 0xA005 in that
/// for EXIF.
pub open spec fn leads_to(kind: IfdKind, tag: int) -> Option<IfdKind> {
    match kind {
        IfdKind::Primary => if tag == 0x8769 {
            Some(IfdKind::Exif)
        } else if tag == 0x8825 {
            Some(IfdKind::Gps)
        } else {
            None
        },
        IfdKind::Exif => if tag == 0xA005 {
            Some(IfdKind::Interop)
        } else {
            None
        },
        _ => None,
    }
}

/// The directories that tags lead to, where they give one offset.
pub open spec fn led_by(ts: Seq<ExifTagView>) -> Seq<(IfdKind, int)>
    decreases ts.len(),
{
    if ts.len() == 0 {
        seq![]
    } else {
        let t = ts.last();
        match (leads_to(t.ifd, t.tag as int), t.value) {
            (Some(k), ValueView::U32(off)) => led_by(ts.drop_last()).push((k, off as int)),
            _ => led_by(ts.drop_last()),
        }
    }
}

/// The directory for the thumbnail, whose offset stands behind the first one.
pub open spec fn follows(big: bool, b: Seq<u8>, d: Directory) -> Seq<(IfdKind, int)> {
    let at = d.at + 2 + 12 * d.entries.len();
    if d.kind == IfdKind::Primary && at + 4 <= b.len() && long(big, b, at) != 0 {
        seq![(IfdKind::Thumbnail, long(big, b, at))]
    } else {
        seq![]
    }
}

spec fn as_links(xs: Seq<(IfdKind, int)>) -> Seq<Link> {
    Seq::new(xs.len(), |i: int| Link { kind: xs[i].0, off: xs[i].1 as u32 })
}

proof fn lemma_led(ts: Seq<ExifTagView>, links: Seq<Link>)
    requires
        ts.len() > 0,
    ensures
        links + as_links(led_by(ts)) == links + as_links(led_by(ts.drop_last())) + links_of(
            ts.last().ifd,
            ts.last().tag,
            ts.last().value,
        ),
{
    let t = ts.last();
    assert(child(t.ifd, t.tag) == leads_to(t.ifd, t.tag as int));
    assert(links + as_links(led_by(ts)) =~= links + as_links(led_by(ts.drop_last())) + links_of(
        t.ifd,
        t.tag,
        t.value,
    ));
}

/// One entry that is read.
proof fn lemma_step(
    b: Seq<u8>,
    e: Endian,
    kind: IfdKind,
    pos: int,
    n: nat,
    out: Seq<ExifTagView>,
    links: Seq<Link>,
    v: ValueView,
    l: Limits,
)
    requires
        n > 0,
        out.len() < l.max_tags,
        pos + 12 <= b.len(),
        value(
            b,
            e,
            u16_at(e, b, pos + 2),
            u32_at(e, b, pos + 4),
            pos + 8,
            l.max_payload_bytes as int,
        ) == Some(v),
    ensures
        entries(b, e, kind, pos, n, out, links, l) == entries(
            b,
            e,
            kind,
            pos + 12,
            (n - 1) as nat,
            out.push(ExifTagView { ifd: kind, tag: u16_at(e, b, pos), value: v }),
            links + links_of(kind, u16_at(e, b, pos), v),
            l,
        ),
{
}

proof fn lemma_entries(
    big: bool,
    b: Seq<u8>,
    d: Directory,
    k: nat,
    out: Seq<ExifTagView>,
    links: Seq<Link>,
    l: Limits,
)
    requires
        all_stand(big, b, d, l.max_payload_bytes as int),
        k <= d.entries.len(),
        out.len() + d.entries.len() <= l.max_tags,
    ensures
        ({
            let done = tags_of(big, b, d).take(k as int);
            entries(
                b,
                order(big),
                d.kind,
                d.at + 2,
                d.entries.len(),
                out,
                links,
                l,
            ) == entries(
                b,
                order(big),
                d.kind,
                d.at + 2 + 12 * k,
                (d.entries.len() - k) as nat,
                out + done,
                links + as_links(led_by(done)),
                l,
            )
        }),
    decreases k,
{
    let ts = tags_of(big, b, d);
    if k == 0 {
        assert(out + ts.take(0) =~= out);
        assert(links + as_links(led_by(ts.take(0))) =~= links);
    } else {
        let j = (k - 1) as nat;
        lemma_entries(big, b, d, j, out, links, l);
        let x = d.entries[j as int];
        assert(stands(big, b, d.at + 2 + 12 * j, x, l.max_payload_bytes as int));
        lemma_value(big, b, d.at + 2 + 12 * j, x, l.max_payload_bytes as int);
        lemma_numbers(big, b, d.at + 2 + 12 * j);
        let t = ts[j as int];
        let (was, now) = (ts.take(j as int), ts.take(k as int));
        assert(now.drop_last() =~= was && now.last() == t);
        assert(t.tag == x.tag);
        assert(out + now =~= (out + was).push(t));
        lemma_step(
            b,
            order(big),
            d.kind,
            d.at + 2 + 12 * j,
            (d.entries.len() - j) as nat,
            out + was,
            links + as_links(led_by(was)),
            value_at(big, b, d.at + 2 + 12 * j, x),
            l,
        );
        lemma_led(ts.take(k as int), links);
    }
}

proof fn lemma_directory(big: bool, b: Seq<u8>, d: Directory, p: Progress, l: Limits)
    requires
        all_stand(big, b, d, l.max_payload_bytes as int),
        p.out.len() + d.entries.len() <= l.max_tags,
    ensures
        directory(b, order(big), d.kind, d.at as u32, p, l) == (Progress {
            out: p.out + tags_of(big, b, d),
            warnings: p.warnings,
            links: p.links + as_links(led_by(tags_of(big, b, d)) + follows(big, b, d)),
        }),
{
    let n = d.entries.len();
    lemma_numbers(big, b, d.at);
    lemma_entries(big, b, d, n, p.out, p.links, l);
    let ts = tags_of(big, b, d);
    assert(ts.take(n as int) =~= ts);
    lemma_numbers(big, b, d.at + 2 + 12 * n);
    let r = directory(b, order(big), d.kind, d.at as u32, p, l);
    assert(r.out == p.out + ts);
    assert(next_link(b, order(big), d.kind, d.at, n as u16) =~= as_links(follows(big, b, d)));
    assert(r.links =~= p.links + as_links(led_by(ts)) + as_links(follows(big, b, d)));
    assert(as_links(led_by(ts) + follows(big, b, d)) =~= as_links(led_by(ts)) + as_links(
        follows(big, b, d),
    ));
    assert(r.links =~= p.links + as_links(led_by(ts) + follows(big, b, d)));
}

/// The tags of all directories, one directory after the other.
pub open spec fn all_tags(big: bool, b: Seq<u8>, ds: Seq<Directory>) -> Seq<ExifTagView>
    decreases ds.len(),
{
    if ds.len() == 0 {
        seq![]
    } else {
        tags_of(big, b, ds[0]) + all_tags(big, b, ds.drop_first())
    }
}

/// Where the directories are.
pub open spec fn places(ds: Seq<Directory>) -> Seq<(IfdKind, int)> {
    Seq::new(ds.len(), |i: int| (ds[i].kind, ds[i].at))
}

/// The directories that the directories lead to, in order.
pub open spec fn all_led(big: bool, b: Seq<u8>, ds: Seq<Directory>) -> Seq<(IfdKind, int)>
    decreases ds.len(),
{
    if ds.len() == 0 {
        seq![]
    } else {
        led_by(tags_of(big, b, ds[0])) + follows(big, b, ds[0]) + all_led(
            big,
            b,
            ds.drop_first(),
        )
    }
}

pub open spec fn dirs_stand(big: bool, b: Seq<u8>, ds: Seq<Directory>, max: int) -> bool {
    forall|i: int| 0 <= i < ds.len() ==> all_stand(big, b, #[trigger] ds[i], max)
}

/// Each directory is led to by the first offset or by a directory before it; `n` of them are
/// known at first.
pub open spec fn reached(big: bool, b: Seq<u8>, ds: Seq<Directory>, n: int) -> bool {
    forall|k: int| 0 <= k < ds.len() ==> n + (#[trigger] all_led(big, b, ds.take(k))).len() > k
}

proof fn lemma_directories(
    big: bool,
    b: Seq<u8>,
    ds: Seq<Directory>,
    p: Progress,
    left: nat,
    q: Seq<(IfdKind, int)>,
    l: Limits,
)
    requires
        dirs_stand(big, b, ds, l.max_payload_bytes as int),
        ds.len() <= left,
        p.out.len() + all_tags(big, b, ds).len() <= l.max_tags,
        p.links == as_links(q),
        q + all_led(big, b, ds) == places(ds),
        reached(big, b, ds, q.len() as int),
    ensures
        directories(b, order(big), p, left, l).out == p.out + all_tags(big, b, ds),
        directories(b, order(big), p, left, l).warnings == p.warnings,
    decreases ds.len(),
{
    if ds.len() == 0 {
        assert(places(ds).len() == 0);
        assert(q.len() == 0);
        assert(p.links.len() == 0);
        assert(p.out + all_tags(big, b, ds) =~= p.out);
    } else {
        assert(all_led(big, b, ds.take(0)).len() == 0);
        assert(q.len() > 0);
        let d = ds[0];
        let m = ds.drop_first();
        assert(all_stand(big, b, d, l.max_payload_bytes as int));
        assert(places(ds)[0] == (d.kind, d.at));
        assert((q + all_led(big, b, ds))[0] == q[0]);
        let rest = Progress { links: p.links.subrange(1, p.links.len() as int), ..p };
        let r = q.drop_first();
        assert(rest.links =~= as_links(r));
        assert(p.links[0] == Link { kind: d.kind, off: d.at as u32 });
        lemma_directory(big, b, d, rest, l);
        let here = led_by(tags_of(big, b, d)) + follows(big, b, d);
        assert(as_links(r) + as_links(here) =~= as_links(r + here));
        let whole = q + all_led(big, b, ds);
        assert(r + here + all_led(big, b, m) =~= whole.drop_first());
        assert(places(m) =~= places(ds).drop_first());
        assert forall|i: int| 0 <= i < m.len() implies all_stand(
            big,
            b,
            #[trigger] m[i],
            l.max_payload_bytes as int,
        ) by {
            assert(m[i] == ds[i + 1]);
        }
        let np = Progress {
            out: p.out + tags_of(big, b, d),
            warnings: p.warnings,
            links: as_links(r + here),
        };
        assert forall|k: int| 0 <= k < m.len() implies (r + here).len() + (#[trigger] all_led(
            big,
            b,
            m.take(k),
        )).len() > k by {
            let t = ds.take(k + 1);
            assert(t[0] == d && t.drop_first() =~= m.take(k));
            assert(all_led(big, b, t) == here + all_led(big, b, m.take(k)));
            assert(q.len() + all_led(big, b, t).len() > k + 1);
        }
        lemma_directories(big, b, m, np, (left - 1) as nat, r + here, l);
        assert(p.out + all_tags(big, b, ds) =~= np.out + all_tags(big, b, m));
    }
}

/// EXIF data behind a header of either byte order is decoded into the tags of its directories,
/// beginning with the one that the header gives, without a warning.
pub proof fn exif_data_is_decoded(
    big: bool,
    b: Seq<u8>,
    ds: Seq<Directory>,
    out: Seq<ExifTagView>,
    warnings: Seq<Warning>,
    l: Limits,
)
    requires
        b.len() >= 8,
        b[0] == b[1],
        b[0] == (if big {
            0x4Du8
        } else {
            0x49u8
        }),
        short(big, b, 2) == 42,
        seq![(IfdKind::Primary, long(big, b, 4))] + all_led(big, b, ds) == places(ds),
        reached(big, b, ds, 1),
        dirs_stand(big, b, ds, l.max_payload_bytes as int),
        ds.len() <= l.max_ifds,
        out.len() + all_tags(big, b, ds).len() <= l.max_tags,
    ensures
        decoded(b, out, warnings, l) == (out + all_tags(big, b, ds), warnings),
{
    lemma_numbers(big, b, 2);
    lemma_numbers(big, b, 4);
    let q = seq![(IfdKind::Primary, long(big, b, 4))];
    let first = Link { kind: IfdKind::Primary, off: long(big, b, 4) as u32 };
    assert(as_links(q) =~= seq![first]);
    lemma_directories(
        big,
        b,
        ds,
        Progress { out, warnings, links: seq![first] },
        l.max_ifds as nat,
        q,
        l,
    );
}

/// Bytes that do not begin with a header of EXIF data give no tag and one warning.
pub proof fn other_data_only_warns(
    b: Seq<u8>,
    out: Seq<ExifTagView>,
    warnings: Seq<Warning>,
    l: Limits,
)
    requires
        b.len() < 8 || !(b[0] == 0x49 && b[1] == 0x49 && b[2] == 42 && b[3] == 0 || b[0] == 0x4D
            && b[1] == 0x4D && b[2] == 0 && b[3] == 42),
    ensures
        decoded(b, out, warnings, l).0 == out,
        decoded(b, out, warnings, l).1.len() == warnings.len() + 1,
        decoded(b, out, warnings, l).1.drop_last() == warnings,
        decoded(b, out, warnings, l).1.last().kind == WarnKind::BadExifHeader,
{
}

} // verus!
