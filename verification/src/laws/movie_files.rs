//! Movie files, box by box: sizes, lengths, times, places and tags are those that the boxes of
//! the movie hold.
use vstd::prelude::*;
use vstd::utf8::{decode_utf8, valid_utf8};

use crate::adapters::slice::metadata_of;
use crate::bytes::{be32, lit, tail};
use crate::containers::isobmff::{children, first_payload, Child};
use crate::demand::EventView;
use crate::driver::{finalized, handled_all, nothing};
use crate::formats::bmff::moov_events;
use crate::formats::movie::{
    atom_text, copyright_kind, ilst, ilst_step, item_value, key_list, keys, mdta, moov, moov_step,
    mvhd, tkhd, track_dims, udta, udta_step, xyz, MoovView,
};
use crate::geo::iso6709;
use crate::laws::files::{lemma_two_boxes, second_events, sized, two_boxes};
use crate::laws::heif_files::{boxes, boxes_are_walked, proper};
use crate::laws::image_items::{four_bytes, lemma_four, lemma_two, two_bytes};
use crate::laws::movies::{track_headers_are_read, two};
use crate::laws::png_files::as_chars;
use crate::limits::Limits;
use crate::model::{ContainerSource, ContainerTagView, FieldView, Gps, ValueView, WarnKind, Warning};
use crate::text::{latin1, utf8};

verus! {

/// An atom of user data.
pub enum Atom {
    /// A text: the three letters behind a copyright sign, a language, the text, and what
    /// follows it.
    Text { letters: Seq<u8>, language: Seq<u8>, text: Seq<u8>, more: Seq<u8> },
    /// An atom of another type.
    Other { kind: Seq<u8>, data: Seq<u8> },
}

/// A metadata item: the number of its key, counting from 1, the type of its value, a locale,
/// and the value.
pub struct MovieItem {
    pub key: int,
    pub typ: int,
    pub locale: Seq<u8>,
    pub value: Seq<u8>,
}

/// A box in a movie.
pub enum Part {
    /// The movie header.
    Header(Seq<u8>),
    /// A track and the boxes in it.
    Track(Seq<(Seq<u8>, Seq<u8>)>),
    /// User data.
    Atoms(Seq<Atom>),
    /// Metadata items: the handler, the names of the keys and the namespaces of these, and the
    /// items.
    Items {
        front: Seq<u8>,
        rest: Seq<u8>,
        flags: Seq<u8>,
        names: Seq<(Seq<u8>, Seq<u8>)>,
        items: Seq<MovieItem>,
    },
    /// Another box.
    Other { kind: Seq<u8>, data: Seq<u8> },
}

pub open spec fn atom_box(a: Atom) -> (Seq<u8>, Seq<u8>) {
    match a {
        Atom::Text { letters, language, text, more } => (
            seq![0xA9u8] + letters,
            two_bytes(text.len() as int) + language + text + more,
        ),
        Atom::Other { kind, data } => (kind, data),
    }
}

pub open spec fn atom_boxes(xs: Seq<Atom>) -> Seq<(Seq<u8>, Seq<u8>)> {
    Seq::new(xs.len(), |i: int| atom_box(xs[i]))
}

/// The names of keys, each with its length and its namespace.
pub open spec fn key_bytes(names: Seq<(Seq<u8>, Seq<u8>)>) -> Seq<u8>
    decreases names.len(),
{
    if names.len() == 0 {
        seq![]
    } else {
        four_bytes(names[0].1.len() as int + 8) + names[0].0 + names[0].1 + key_bytes(
            names.drop_first(),
        )
    }
}

pub open spec fn item_data(m: MovieItem) -> Seq<u8> {
    four_bytes(m.typ) + m.locale + m.value
}

pub open spec fn item_box(m: MovieItem) -> (Seq<u8>, Seq<u8>) {
    (four_bytes(m.key), boxes(seq![(lit("data"), item_data(m))]))
}

pub open spec fn item_boxes(xs: Seq<MovieItem>) -> Seq<(Seq<u8>, Seq<u8>)> {
    Seq::new(xs.len(), |i: int| item_box(xs[i]))
}

/// The box of a part: its type and its payload.
pub open spec fn part_box(p: Part) -> (Seq<u8>, Seq<u8>) {
    match p {
        Part::Header(d) => (lit("mvhd"), d),
        Part::Track(bs) => (lit("trak"), boxes(bs)),
        Part::Atoms(xs) => (lit("udta"), boxes(atom_boxes(xs))),
        Part::Items { front, rest, flags, names, items } => (
            lit("meta"),
            boxes(
                seq![
                    (lit("hdlr"), front + lit("mdta") + rest),
                    (lit("keys"), flags + four_bytes(names.len() as int) + key_bytes(names)),
                    (lit("ilst"), boxes(item_boxes(items))),
                ],
            ),
        ),
        Part::Other { kind, data } => (kind, data),
    }
}

pub open spec fn part_boxes(ps: Seq<Part>) -> Seq<(Seq<u8>, Seq<u8>)> {
    Seq::new(ps.len(), |i: int| part_box(ps[i]))
}

pub open spec fn atom_fits(a: Atom) -> bool {
    match a {
        Atom::Text { letters, language, text, .. } => letters.len() == 3 && language.len() == 2
            && text.len() < 65536,
        Atom::Other { kind, .. } => kind.len() == 4 && kind[0] != 0xA9,
    }
}

pub open spec fn item_fits(m: MovieItem) -> bool {
    &&& 0 <= m.key < 0x1_0000_0000
    &&& 0 <= m.typ < 0x1_0000_0000
    &&& m.locale.len() == 4
    &&& m.value.len() < 0x8000_0000
}

pub open spec fn part_fits(p: Part) -> bool {
    &&& part_box(p).0.len() == 4
    &&& part_box(p).1.len() + 8 <= u32::MAX
    &&& match p {
        Part::Header(_) => true,
        Part::Track(bs) => proper(bs),
        Part::Atoms(xs) => proper(atom_boxes(xs)) && forall|i: int|
            0 <= i < xs.len() ==> atom_fits(#[trigger] xs[i]),
        Part::Items { front, rest, flags, names, items } => {
            &&& front.len() == 8
            &&& flags.len() == 4
            &&& front.len() + rest.len() + 20 <= u32::MAX
            &&& key_bytes(names).len() + 16 <= u32::MAX
            &&& boxes(item_boxes(items)).len() + 8 <= u32::MAX
            &&& names.len() < 0x1_0000_0000
            &&& proper(item_boxes(items))
            &&& forall|i: int| 0 <= i < items.len() ==> item_fits(#[trigger] items[i])
            &&& forall|i: int|
                0 <= i < names.len() ==> (#[trigger] names[i]).0.len() == 4 && names[i].1.len()
                    < 0x8000_0000
        },
        Part::Other { kind, .. } => kind != lit("mvhd") && kind != lit("trak") && kind != lit(
            "udta",
        ) && kind != lit("meta"),
    }
}

pub open spec fn all_fit(ps: Seq<Part>) -> bool {
    forall|i: int| 0 <= i < ps.len() ==> part_fits(#[trigger] ps[i])
}

/// The size that a track header tells: whole points, behind which a version 1 header has twelve
/// bytes more before it. A track without a picture tells none.
pub open spec fn header_size(d: Seq<u8>) -> Option<(u32, u32)> {
    let at = if d.len() > 0 && d[0] == 1 {
        88int
    } else {
        76
    };
    if d.len() >= at + 8 && two(d, at) > 0 && two(d, at + 4) > 0 {
        Some((two(d, at) as u32, two(d, at + 4) as u32))
    } else {
        None
    }
}

/// The first size that a track header in a track tells.
pub open spec fn track_size(bs: Seq<(Seq<u8>, Seq<u8>)>) -> Option<(u32, u32)>
    decreases bs.len(),
{
    if bs.len() == 0 {
        None
    } else if bs[0].0 == lit("tkhd") && header_size(bs[0].1) is Some {
        header_size(bs[0].1)
    } else {
        track_size(bs.drop_first())
    }
}

/// What user data adds: a tag for each text, and the first place.
pub open spec fn with_atoms(m: MoovView, xs: Seq<Atom>) -> MoovView
    decreases xs.len(),
{
    if xs.len() == 0 {
        m
    } else {
        let n = with_atoms(m, xs.drop_last());
        match xs.last() {
            Atom::Text { letters, text, .. } => if valid_utf8(text) {
                MoovView {
                    tags: n.tags.push(
                        ContainerTagView {
                            source: ContainerSource::Udta,
                            key: seq!['\u{a9}'] + as_chars(letters),
                            value: ValueView::Text(decode_utf8(text)),
                        },
                    ),
                    xyz: if n.xyz is None && letters == seq![0x78u8, 0x79u8, 0x7Au8] {
                        iso6709(decode_utf8(text))
                    } else {
                        n.xyz
                    },
                    ..n
                }
            } else {
                n
            },
            Atom::Other { .. } => n,
        }
    }
}

/// The value of an item: text where it is typed as such or not at all.
pub open spec fn meant(m: MovieItem) -> ValueView {
    if (m.typ == 0 || m.typ == 1) && valid_utf8(m.value) {
        ValueView::Text(decode_utf8(m.value))
    } else {
        ValueView::Bytes(m.value)
    }
}

/// What metadata items add: a tag for each whose key has a name, and the first place.
pub open spec fn with_items(
    m: MoovView,
    names: Seq<(Seq<u8>, Seq<u8>)>,
    xs: Seq<MovieItem>,
) -> MoovView
    decreases xs.len(),
{
    if xs.len() == 0 {
        m
    } else {
        let n = with_items(m, names, xs.drop_last());
        let x = xs.last();
        if 1 <= x.key <= names.len() && valid_utf8(names[x.key - 1].1) {
            let key = decode_utf8(names[x.key - 1].1);
            MoovView {
                tags: n.tags.push(
                    ContainerTagView {
                        source: ContainerSource::QuickTimeMdta,
                        key,
                        value: meant(x),
                    },
                ),
                location: if n.location is None && key == "com.apple.quicktime.location.ISO6709"@ && meant(x)
                    is Text {
                    iso6709(decode_utf8(x.value))
                } else {
                    n.location
                },
                ..n
            }
        } else {
            n
        }
    }
}

/// What a movie of these parts tells: the last header, the first size, all tags.
pub open spec fn told(ps: Seq<Part>, at: u64) -> MoovView
    decreases ps.len(),
{
    if ps.len() == 0 {
        MoovView {
            dims: None,
            duration_ms: None,
            created: None,
            location: None,
            xyz: None,
            tags: seq![],
            warnings: seq![],
        }
    } else {
        let m = told(ps.drop_last(), at);
        match ps.last() {
            Part::Header(d) => MoovView {
                duration_ms: mvhd(d).duration_ms,
                created: mvhd(d).created,
                warnings: if mvhd(d).timescale_invalid {
                    m.warnings.push(Warning { offset: at, kind: WarnKind::UnrecognizedValue })
                } else {
                    m.warnings
                },
                ..m
            },
            Part::Track(bs) => MoovView {
                dims: if m.dims is Some {
                    m.dims
                } else {
                    track_size(bs)
                },
                ..m
            },
            Part::Atoms(xs) => with_atoms(m, xs),
            Part::Items { names, items, .. } => with_items(m, names, items),
            Part::Other { .. } => m,
        }
    }
}

proof fn lemma_words()
    ensures
        lit("mvhd").len() == 4,
        lit("trak").len() == 4,
        lit("udta").len() == 4,
        lit("meta").len() == 4,
        lit("hdlr").len() == 4,
        lit("keys").len() == 4,
        lit("ilst").len() == 4,
        lit("data").len() == 4,
        lit("mdta").len() == 4,
        lit("xyz") == seq![0x78u8, 0x79u8, 0x7Au8],
        lit("mvhd") != lit("trak"),
        lit("mvhd") != lit("udta"),
        lit("mvhd") != lit("meta"),
        lit("trak") != lit("udta"),
        lit("trak") != lit("meta"),
        lit("udta") != lit("meta"),
        lit("hdlr") != lit("keys"),
        lit("hdlr") != lit("ilst"),
        lit("keys") != lit("ilst"),
{
    reveal_strlit("mvhd");
    reveal_strlit("trak");
    reveal_strlit("udta");
    reveal_strlit("meta");
    reveal_strlit("hdlr");
    reveal_strlit("keys");
    reveal_strlit("ilst");
    reveal_strlit("data");
    reveal_strlit("mdta");
    reveal_strlit("xyz");
    vstd::string::is_ascii_spec_bytes("mvhd");
    vstd::string::is_ascii_spec_bytes("trak");
    vstd::string::is_ascii_spec_bytes("udta");
    vstd::string::is_ascii_spec_bytes("meta");
    vstd::string::is_ascii_spec_bytes("hdlr");
    vstd::string::is_ascii_spec_bytes("keys");
    vstd::string::is_ascii_spec_bytes("ilst");
    vstd::string::is_ascii_spec_bytes("data");
    vstd::string::is_ascii_spec_bytes("mdta");
    vstd::string::is_ascii_spec_bytes("xyz");
    assert(lit("mvhd")[0] == 0x6D && lit("mvhd")[1] == 0x76);
    assert(lit("trak")[0] == 0x74);
    assert(lit("udta")[0] == 0x75);
    assert(lit("meta")[0] == 0x6D && lit("meta")[1] == 0x65);
    assert(lit("hdlr")[0] == 0x68);
    assert(lit("keys")[0] == 0x6B);
    assert(lit("ilst")[0] == 0x69);
}

/// `c` is the box of the type and payload.
spec fn is_box(c: Child, b: (Seq<u8>, Seq<u8>)) -> bool {
    c.header.kind == b.0 && c.payload == b.1
}

spec fn are_boxes(cs: Seq<Child>, bs: Seq<(Seq<u8>, Seq<u8>)>) -> bool {
    cs.len() == bs.len() && forall|i: int| 0 <= i < bs.len() ==> is_box(#[trigger] cs[i], bs[i])
}

proof fn lemma_are_boxes(bs: Seq<(Seq<u8>, Seq<u8>)>)
    requires
        proper(bs),
    ensures
        are_boxes(children(boxes(bs)), bs),
{
    boxes_are_walked(bs);
}

proof fn lemma_header_size(d: Seq<u8>)
    ensures
        tkhd(d) == header_size(d),
{
    let at = if d[0] == 1 {
        88int
    } else {
        76
    };
    if d.len() >= at + 8 {
        track_headers_are_read(d);
    }
}

proof fn lemma_track(cs: Seq<Child>, bs: Seq<(Seq<u8>, Seq<u8>)>)
    requires
        are_boxes(cs, bs),
    ensures
        track_dims(cs) == track_size(bs),
    decreases bs.len(),
{
    if bs.len() > 0 {
        assert(is_box(cs[0], bs[0]));
        lemma_header_size(bs[0].1);
        let (c, b) = (cs.drop_first(), bs.drop_first());
        assert forall|i: int| 0 <= i < b.len() implies is_box(#[trigger] c[i], b[i]) by {
            assert(is_box(cs[i + 1], bs[i + 1]));
        }
        lemma_track(c, b);
    }
}

proof fn lemma_atom(letters: Seq<u8>, language: Seq<u8>, text: Seq<u8>, more: Seq<u8>)
    requires
        atom_fits(Atom::Text { letters, language, text, more }),
    ensures
        ({
            let b = atom_box(Atom::Text { letters, language, text, more });
            &&& atom_text(b.1) == utf8(text)
            &&& copyright_kind(b.0)
            &&& b.0.subrange(1, 4) == letters
            &&& latin1(b.0) == seq!['\u{a9}'] + as_chars(letters)
        }),
{
    let b = atom_box(Atom::Text { letters, language, text, more });
    assert(b.1.subrange(0, 2) =~= two_bytes(text.len() as int));
    lemma_two(b.1, 0, text.len() as int);
    assert(b.1.subrange(4, 4 + text.len() as int) =~= text);
    assert(b.0.subrange(1, 4) =~= letters);
    assert(latin1(b.0) =~= seq!['\u{a9}'] + as_chars(letters));
}

proof fn lemma_atoms(m: MoovView, cs: Seq<Child>, xs: Seq<Atom>)
    requires
        are_boxes(cs, atom_boxes(xs)),
        forall|i: int| 0 <= i < xs.len() ==> atom_fits(#[trigger] xs[i]),
    ensures
        udta(m, cs) == with_atoms(m, xs),
    decreases xs.len(),
{
    if xs.len() > 0 {
        let (c, x) = (cs.drop_last(), xs.drop_last());
        let n = xs.len() - 1;
        assert(is_box(cs[n], atom_boxes(xs)[n]));
        assert(atom_fits(xs[n]));
        assert forall|i: int| 0 <= i < x.len() implies is_box(#[trigger] c[i], atom_boxes(x)[i]) by {
            assert(is_box(cs[i], atom_boxes(xs)[i]));
        }
        assert forall|i: int| 0 <= i < x.len() implies atom_fits(#[trigger] x[i]) by {
            assert(atom_fits(xs[i]));
        }
        lemma_atoms(m, c, x);
        lemma_words();
        match xs[n] {
            Atom::Text { letters, language, text, more } => {
                lemma_atom(letters, language, text, more);
            },
            Atom::Other { .. } => {},
        }
        assert(udta_step(with_atoms(m, x), cs.last()) =~= with_atoms(m, xs));
    }
}

spec fn second(names: Seq<(Seq<u8>, Seq<u8>)>) -> Seq<Seq<u8>> {
    Seq::new(names.len(), |i: int| names[i].1)
}

spec fn names_fit(names: Seq<(Seq<u8>, Seq<u8>)>) -> bool {
    forall|i: int|
        0 <= i < names.len() ==> (#[trigger] names[i]).0.len() == 4 && names[i].1.len() < 0x8000_0000
}

proof fn lemma_names(b: Seq<u8>, at: int, names: Seq<(Seq<u8>, Seq<u8>)>)
    requires
        names_fit(names),
        0 <= at <= b.len(),
        tail(b, at) == key_bytes(names),
    ensures
        key_list(b, at, names.len() as int) == second(names),
    decreases names.len(),
{
    if names.len() > 0 {
        let m = names.drop_first();
        let k = names[0].1;
        let n = k.len() as int + 8;
        let t = tail(b, at);
        assert(names[0].0.len() == 4 && k.len() < 0x8000_0000);
        assert(t.len() == b.len() - at);
        assert(t.len() >= n);
        assert(b.subrange(at, at + 4) =~= t.subrange(0, 4));
        assert(t.subrange(0, 4) =~= four_bytes(n));
        lemma_four(b, at, n);
        assert(b.subrange(at + 8, at + n) =~= t.subrange(8, n));
        assert(t.subrange(8, n) =~= k);
        assert(tail(b, at + n) =~= tail(t, n));
        assert(tail(t, n) =~= key_bytes(m));
        assert forall|i: int| 0 <= i < m.len() implies (#[trigger] m[i]).0.len() == 4 && m[i].1.len()
            < 0x8000_0000 by {
            assert(m[i] == names[i + 1]);
        }
        lemma_names(b, at + n, m);
        assert(seq![k] + second(m) =~= second(names));
    } else {
        assert(key_list(b, at, 0) =~= second(names));
    }
}

proof fn lemma_keys(flags: Seq<u8>, names: Seq<(Seq<u8>, Seq<u8>)>)
    requires
        flags.len() == 4,
        names.len() < 0x1_0000_0000,
        names_fit(names),
    ensures
        keys(flags + four_bytes(names.len() as int) + key_bytes(names)) == second(names),
{
    let b = flags + four_bytes(names.len() as int) + key_bytes(names);
    assert(b.subrange(4, 8) =~= four_bytes(names.len() as int));
    lemma_four(b, 4, names.len() as int);
    assert(tail(b, 8) =~= key_bytes(names));
    lemma_names(b, 8, names);
}

proof fn lemma_item(x: MovieItem)
    requires
        item_fits(x),
    ensures
        be32(item_box(x).0, 0) == x.key,
        first_payload(children(item_box(x).1), lit("data")) == Some(item_data(x)),
        item_data(x).len() >= 8,
        item_value(item_data(x)) == meant(x),
{
    lemma_words();
    let d = item_data(x);
    let k = four_bytes(x.key);
    assert(k.subrange(0, 4) =~= k);
    lemma_four(k, 0, x.key);
    let bs = seq![(lit("data"), d)];
    assert(d.len() == 8 + x.value.len());
    assert forall|i: int| 0 <= i < bs.len() implies (#[trigger] bs[i]).0.len() == 4 && bs[i].1.len()
        + 8 <= u32::MAX by {}
    boxes_are_walked(bs);
    let cs = children(boxes(bs));
    assert(cs[0].header.kind == bs[0].0 && cs[0].payload == bs[0].1);
    assert(d.subrange(0, 4) =~= four_bytes(x.typ));
    lemma_four(d, 0, x.typ);
    assert(tail(d, 8) =~= x.value);
}

proof fn lemma_items(
    m: MoovView,
    cs: Seq<Child>,
    names: Seq<(Seq<u8>, Seq<u8>)>,
    xs: Seq<MovieItem>,
)
    requires
        are_boxes(cs, item_boxes(xs)),
        forall|i: int| 0 <= i < xs.len() ==> item_fits(#[trigger] xs[i]),
    ensures
        ilst(m, cs, second(names)) == with_items(m, names, xs),
    decreases xs.len(),
{
    if xs.len() > 0 {
        let (c, x) = (cs.drop_last(), xs.drop_last());
        let n = xs.len() - 1;
        assert(is_box(cs[n], item_boxes(xs)[n]));
        assert(item_fits(xs[n]));
        assert forall|i: int| 0 <= i < x.len() implies is_box(#[trigger] c[i], item_boxes(x)[i]) by {
            assert(is_box(cs[i], item_boxes(xs)[i]));
        }
        assert forall|i: int| 0 <= i < x.len() implies item_fits(#[trigger] x[i]) by {
            assert(item_fits(xs[i]));
        }
        lemma_items(m, c, names, x);
        lemma_item(xs[n]);
        lemma_item_step(with_items(m, names, x), cs[n], names, xs[n]);
        assert(with_items(m, names, xs) =~= one_item(with_items(m, names, x), names, xs[n]));
    }
}

/// What one item adds.
spec fn one_item(n: MoovView, names: Seq<(Seq<u8>, Seq<u8>)>, x: MovieItem) -> MoovView {
    with_items(n, names, seq![x])
}

proof fn lemma_item_step(
    n: MoovView,
    c: Child,
    names: Seq<(Seq<u8>, Seq<u8>)>,
    x: MovieItem,
)
    requires
        is_box(c, item_box(x)),
        item_fits(x),
    ensures
        ilst_step(n, c, second(names)) == one_item(n, names, x),
{
    lemma_item(x);
    let xs = seq![x];
    assert(xs.drop_last() =~= seq![]);
    assert(with_items(n, names, seq![]) == n);
    if 1 <= x.key <= names.len() {
        assert(second(names)[x.key - 1] == names[x.key - 1].1);
    }
    assert(ilst_step(n, c, second(names)) =~= one_item(n, names, x));
}

proof fn lemma_mdta(
    m: MoovView,
    front: Seq<u8>,
    rest: Seq<u8>,
    flags: Seq<u8>,
    names: Seq<(Seq<u8>, Seq<u8>)>,
    items: Seq<MovieItem>,
)
    requires
        part_fits(Part::Items { front, rest, flags, names, items }),
    ensures
        mdta(m, children(part_box(Part::Items { front, rest, flags, names, items }).1))
            == with_items(m, names, items),
{
    lemma_words();
    let h = front + lit("mdta") + rest;
    let k = flags + four_bytes(names.len() as int) + key_bytes(names);
    let t = boxes(item_boxes(items));
    let bs = seq![(lit("hdlr"), h), (lit("keys"), k), (lit("ilst"), t)];
    assert forall|i: int| 0 <= i < bs.len() implies (#[trigger] bs[i]).0.len() == 4 && bs[i].1.len()
        + 8 <= u32::MAX by {}
    boxes_are_walked(bs);
    let cs = children(boxes(bs));
    assert(cs[0].header.kind == bs[0].0 && cs[0].payload == bs[0].1);
    assert(cs[1].header.kind == bs[1].0 && cs[1].payload == bs[1].1);
    assert(cs[2].header.kind == bs[2].0 && cs[2].payload == bs[2].1);
    lemma_three_payloads(cs, h, k, t);
    assert(h.subrange(8, 12) =~= lit("mdta"));
    lemma_keys(flags, names);
    lemma_are_boxes(item_boxes(items));
    lemma_items(m, children(t), names, items);
}

proof fn lemma_three_payloads(cs: Seq<Child>, h: Seq<u8>, k: Seq<u8>, t: Seq<u8>)
    requires
        cs.len() == 3,
        is_box(cs[0], (lit("hdlr"), h)),
        is_box(cs[1], (lit("keys"), k)),
        is_box(cs[2], (lit("ilst"), t)),
    ensures
        first_payload(cs, lit("hdlr")) == Some(h),
        first_payload(cs, lit("keys")) == Some(k),
        first_payload(cs, lit("ilst")) == Some(t),
{
    lemma_words();
    let d = cs.drop_first();
    let e = d.drop_first();
    assert(d[0] == cs[1] && e[0] == cs[2]);
    assert(first_payload(e, lit("ilst")) == Some(t));
    assert(first_payload(d, lit("ilst")) == first_payload(e, lit("ilst")));
    assert(first_payload(d, lit("keys")) == Some(k));
}

#[verifier::rlimit(40)]
proof fn lemma_part(m: MoovView, c: Child, p: Part, at: u64)
    requires
        is_box(c, part_box(p)),
        part_fits(p),
    ensures
        match p {
            Part::Header(d) => moov_step(m, c, at) == (MoovView {
                duration_ms: mvhd(d).duration_ms,
                created: mvhd(d).created,
                warnings: if mvhd(d).timescale_invalid {
                    m.warnings.push(Warning { offset: at, kind: WarnKind::UnrecognizedValue })
                } else {
                    m.warnings
                },
                ..m
            }),
            Part::Track(bs) => moov_step(m, c, at) == (MoovView {
                dims: if m.dims is Some {
                    m.dims
                } else {
                    track_size(bs)
                },
                ..m
            }),
            Part::Atoms(xs) => moov_step(m, c, at) == with_atoms(m, xs),
            Part::Items { names, items, .. } => moov_step(m, c, at) == with_items(m, names, items),
            Part::Other { .. } => moov_step(m, c, at) == m,
        },
{
    lemma_words();
    match p {
        Part::Header(d) => {},
        Part::Track(bs) => {
            lemma_are_boxes(bs);
            lemma_track(children(boxes(bs)), bs);
        },
        Part::Atoms(xs) => {
            lemma_are_boxes(atom_boxes(xs));
            lemma_atoms(m, children(boxes(atom_boxes(xs))), xs);
        },
        Part::Items { front, rest, flags, names, items } => {
            lemma_mdta(m, front, rest, flags, names, items);
        },
        Part::Other { .. } => {},
    }
}

proof fn lemma_parts(cs: Seq<Child>, ps: Seq<Part>, at: u64)
    requires
        are_boxes(cs, part_boxes(ps)),
        all_fit(ps),
    ensures
        moov(cs, at) == told(ps, at),
    decreases ps.len(),
{
    if ps.len() > 0 {
        let (c, q) = (cs.drop_last(), ps.drop_last());
        let n = ps.len() - 1;
        assert(is_box(cs[n], part_boxes(ps)[n]));
        assert(part_fits(ps[n]));
        assert forall|i: int| 0 <= i < q.len() implies is_box(#[trigger] c[i], part_boxes(q)[i]) by {
            assert(is_box(cs[i], part_boxes(ps)[i]));
        }
        assert forall|i: int| 0 <= i < q.len() implies part_fits(#[trigger] q[i]) by {
            assert(part_fits(ps[i]));
        }
        lemma_parts(c, q, at);
        lemma_part(told(q, at), cs[n], ps[n], at);
    }
}

/// The boxes of a movie tell what stands in them.
pub proof fn movie_boxes_are_read(ps: Seq<Part>, at: u64)
    requires
        all_fit(ps),
    ensures
        moov(children(boxes(part_boxes(ps))), at) == told(ps, at),
{
    let bs = part_boxes(ps);
    assert forall|i: int| 0 <= i < bs.len() implies (#[trigger] bs[i]).0.len() == 4 && bs[i].1.len()
        + 8 <= u32::MAX by {
        assert(part_fits(ps[i]));
    }
    lemma_are_boxes(bs);
    lemma_parts(children(boxes(bs)), ps, at);
}

/// What a movie tells, as events: the size, the length, the time, the place, which is rather
/// that of the items than that of the atoms, and as many tags as the limit lets through.
pub open spec fn movie_events(m: MoovView, max_tags: usize) -> Seq<EventView> {
    (match m.dims {
        Some(d) => sized(d.0, d.1),
        None => seq![],
    }) + (match m.duration_ms {
        Some(d) => seq![EventView::Field(FieldView::Duration(d))],
        None => seq![],
    }) + (match m.created {
        Some(t) => seq![EventView::Field(FieldView::Created(t))],
        None => seq![],
    }) + (if m.location is Some {
        seq![EventView::Field(FieldView::Gps(m.location.unwrap()))]
    } else if m.xyz is Some {
        seq![EventView::Field(FieldView::Gps(m.xyz.unwrap()))]
    } else {
        seq![]
    }) + Seq::new(
        if m.tags.len() <= max_tags {
            m.tags.len()
        } else {
            max_tags as nat
        },
        |i: int| EventView::ContainerTag(m.tags[i]),
    ) + Seq::new(m.warnings.len(), |i: int| EventView::Warning(m.warnings[i]))
}

proof fn lemma_movie_events(m: MoovView, max_tags: usize)
    ensures
        moov_events(m, max_tags) == movie_events(m, max_tags),
{
    let a = crate::formats::bmff::tag_events(m.tags, max_tags);
    let b = Seq::new(
        if m.tags.len() <= max_tags {
            m.tags.len()
        } else {
            max_tags as nat
        },
        |i: int| EventView::ContainerTag(m.tags[i]),
    );
    assert(a =~= b);
}

/// A movie file is read as what the boxes of its movie tell.
pub proof fn movie_files_are_read(x: Seq<u8>, ps: Seq<Part>, more: Seq<u8>, l: Limits)
    requires
        4 <= x.len() < 0x4000_0000,
        all_fit(ps),
        boxes(part_boxes(ps)).len() + 8 <= u32::MAX,
        two_boxes(x, lit("moov"), boxes(part_boxes(ps)), more).len() <= isize::MAX,
    ensures
        metadata_of(two_boxes(x, lit("moov"), boxes(part_boxes(ps)), more), l) == Some(
            finalized(
                handled_all(
                    nothing(l),
                    movie_events(told(ps, (x.len() + 8) as u64), l.max_tags),
                ),
                crate::probe::brand(x.subrange(0, 4)),
            ),
        ),
{
    let at = (x.len() + 8) as u64;
    movie_boxes_are_read(ps, at);
    lemma_two_boxes(x, lit("moov"), boxes(part_boxes(ps)), more, l);
    lemma_movie_events(told(ps, at), l.max_tags);
    assert(second_events(lit("moov"), boxes(part_boxes(ps)), at, l.max_tags) == movie_events(
        told(ps, at),
        l.max_tags,
    )) by {
        reveal(second_events);
    }
}

} // verus!
