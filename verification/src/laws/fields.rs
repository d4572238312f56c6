//! The unified fields: which source each is taken from, and which tag of a source.
use vstd::prelude::*;
use vstd::utf8::encode_utf8;

use crate::dates::{exif_datetime, exif_offset, iso8601, png_time};
use crate::geo::xmp_coord;
use crate::model::{
    ContainerSource, ContainerTagView, DateTimeParts, ExifTagView, Gps, IfdKind, Orientation,
    RawView, StructuralView, TextTagView, TextValueView, ValueView, XmpView,
};
use crate::normalize::{
    all_xmp, container_text, exif_created, exif_gps, exif_orientation, exif_text, or, png_text,
    unified, xmp_number, xmp_orientation, xmp_text,
};
use crate::text::{decimal, unsigned};

verus! {

/// Where a text may stand.
pub enum Source {
    /// A metadata item of QuickTime.
    Item(Seq<char>),
    /// An atom of user data.
    Atom(Seq<char>),
    /// An EXIF tag.
    Tag(IfdKind, int),
    /// A property of XMP: the prefix and the name.
    Property(Seq<char>, Seq<char>),
    /// A PNG text that is not compressed.
    Keyword(Seq<char>),
}

/// How many entries of the kind there are. The properties of a sidecar follow those of the file.
pub open spec fn entries(raw: RawView, s: Source) -> int {
    match s {
        Source::Item(_) | Source::Atom(_) => raw.container.len() as int,
        Source::Tag(..) => raw.exif.len() as int,
        Source::Property(..) => (raw.xmp.len() + raw.xmp_sidecar.len()) as int,
        Source::Keyword(_) => raw.text.len() as int,
    }
}

/// The property at `i`, counting on from the file into the sidecar.
pub open spec fn property(raw: RawView, i: int) -> XmpView {
    if i < raw.xmp.len() {
        raw.xmp[i]
    } else {
        raw.xmp_sidecar[i - raw.xmp.len()]
    }
}

/// The text of the `i`-th entry, where it is one of the source.
pub open spec fn text_at(raw: RawView, s: Source, i: int) -> Option<Seq<char>> {
    match s {
        Source::Item(key) => match raw.container[i].value {
            ValueView::Text(t) if raw.container[i].source == ContainerSource::QuickTimeMdta
                && raw.container[i].key == key => Some(t),
            _ => None,
        },
        Source::Atom(key) => match raw.container[i].value {
            ValueView::Text(t) if raw.container[i].source == ContainerSource::Udta
                && raw.container[i].key == key => Some(t),
            _ => None,
        },
        Source::Tag(ifd, tag) => match raw.exif[i].value {
            ValueView::Text(t) if raw.exif[i].ifd == ifd && raw.exif[i].tag == tag => Some(t),
            _ => None,
        },
        Source::Property(prefix, name) => if property(raw, i).prefix == prefix && property(
            raw,
            i,
        ).name == name {
            Some(property(raw, i).value)
        } else {
            None
        },
        Source::Keyword(k) => match raw.text[i].value {
            TextValueView::Latin1(t) if raw.text[i].keyword == k => Some(t),
            TextValueView::Utf8(t) if raw.text[i].keyword == k => Some(t),
            _ => None,
        },
    }
}

/// The source gives nothing.
pub open spec fn silent(raw: RawView, s: Source) -> bool {
    forall|i: int| 0 <= i < entries(raw, s) ==> (#[trigger] text_at(raw, s, i)) is None
}

/// The first text of the source is `t`.
pub open spec fn says(raw: RawView, s: Source, t: Seq<char>) -> bool {
    exists|i: int|
        0 <= i < entries(raw, s) && (#[trigger] text_at(raw, s, i)) == Some(t) && forall|j: int|
            0 <= j < i ==> (#[trigger] text_at(raw, s, j)) is None
}

/// `r` is what the first of the sources that is not silent says.
pub open spec fn first_said(raw: RawView, ss: Seq<Source>, r: Option<Seq<char>>) -> bool
    decreases ss.len(),
{
    if ss.len() == 0 {
        r is None
    } else if silent(raw, ss[0]) {
        first_said(raw, ss.drop_first(), r)
    } else {
        r matches Some(t) && says(raw, ss[0], t)
    }
}

spec fn asked(raw: RawView, s: Source) -> Option<Seq<char>> {
    match s {
        Source::Item(key) => container_text(raw.container, ContainerSource::QuickTimeMdta, key),
        Source::Atom(key) => container_text(raw.container, ContainerSource::Udta, key),
        Source::Tag(ifd, tag) => exif_text(raw.exif, ifd, tag as u16),
        Source::Property(prefix, name) => xmp_text(all_xmp(raw), prefix, name),
        Source::Keyword(k) => png_text(raw.text, k),
    }
}

/// What is found under a key of a container, by where it stands.
proof fn lemma_container(ts: Seq<ContainerTagView>, source: ContainerSource, key: Seq<char>) -> (i:
    int)
    ensures
        container_text(ts, source, key) is None ==> forall|j: int|
            0 <= j < ts.len() ==> !((#[trigger] ts[j]).value is Text && ts[j].source == source
                && ts[j].key == key),
        container_text(ts, source, key) matches Some(t) ==> 0 <= i < ts.len() && ts[i].value
            == ValueView::Text(t) && ts[i].source == source && ts[i].key == key && forall|j: int|
            0 <= j < i ==> !((#[trigger] ts[j]).value is Text && ts[j].source == source
                && ts[j].key == key),
    decreases ts.len(),
{
    if ts.len() == 0 {
        0
    } else {
        let m = ts.drop_first();
        if ts[0].value is Text && ts[0].source == source && ts[0].key == key {
            0
        } else {
            let k = lemma_container(m, source, key);
            assert forall|j: int| 0 < j < ts.len() implies #[trigger] ts[j] == m[j - 1] by {}
            k + 1
        }
    }
}

proof fn lemma_tag(ts: Seq<ExifTagView>, ifd: IfdKind, tag: u16) -> (i: int)
    ensures
        exif_text(ts, ifd, tag) is None ==> forall|j: int|
            0 <= j < ts.len() ==> !((#[trigger] ts[j]).value is Text && ts[j].ifd == ifd
                && ts[j].tag == tag),
        exif_text(ts, ifd, tag) matches Some(t) ==> 0 <= i < ts.len() && ts[i].value
            == ValueView::Text(t) && ts[i].ifd == ifd && ts[i].tag == tag && forall|j: int|
            0 <= j < i ==> !((#[trigger] ts[j]).value is Text && ts[j].ifd == ifd && ts[j].tag
                == tag),
    decreases ts.len(),
{
    if ts.len() == 0 {
        0
    } else {
        let m = ts.drop_first();
        if ts[0].value is Text && ts[0].ifd == ifd && ts[0].tag == tag {
            0
        } else {
            let k = lemma_tag(m, ifd, tag);
            assert forall|j: int| 0 < j < ts.len() implies #[trigger] ts[j] == m[j - 1] by {}
            k + 1
        }
    }
}

proof fn lemma_property(ps: Seq<XmpView>, prefix: Seq<char>, name: Seq<char>) -> (i: int)
    ensures
        xmp_text(ps, prefix, name) is None ==> forall|j: int|
            0 <= j < ps.len() ==> !((#[trigger] ps[j]).prefix == prefix && ps[j].name == name),
        xmp_text(ps, prefix, name) matches Some(t) ==> 0 <= i < ps.len() && ps[i].value == t
            && ps[i].prefix == prefix && ps[i].name == name && forall|j: int|
            0 <= j < i ==> !((#[trigger] ps[j]).prefix == prefix && ps[j].name == name),
    decreases ps.len(),
{
    if ps.len() == 0 {
        0
    } else {
        let m = ps.drop_first();
        if ps[0].prefix == prefix && ps[0].name == name {
            0
        } else {
            let k = lemma_property(m, prefix, name);
            assert forall|j: int| 0 < j < ps.len() implies #[trigger] ps[j] == m[j - 1] by {}
            k + 1
        }
    }
}

spec fn plain(v: TextValueView) -> Option<Seq<char>> {
    match v {
        TextValueView::Latin1(t) => Some(t),
        TextValueView::Utf8(t) => Some(t),
        _ => None,
    }
}

proof fn lemma_keyword(ts: Seq<TextTagView>, k: Seq<char>) -> (i: int)
    ensures
        png_text(ts, k) is None ==> forall|j: int|
            0 <= j < ts.len() ==> !(plain((#[trigger] ts[j]).value) is Some && ts[j].keyword == k),
        png_text(ts, k) matches Some(t) ==> 0 <= i < ts.len() && plain(ts[i].value) == Some(t)
            && ts[i].keyword == k && forall|j: int|
            0 <= j < i ==> !(plain((#[trigger] ts[j]).value) is Some && ts[j].keyword == k),
    decreases ts.len(),
{
    if ts.len() == 0 {
        0
    } else {
        let m = ts.drop_first();
        if plain(ts[0].value) is Some && ts[0].keyword == k {
            0
        } else {
            let n = lemma_keyword(m, k);
            assert forall|j: int| 0 < j < ts.len() implies #[trigger] ts[j] == m[j - 1] by {}
            n + 1
        }
    }
}

proof fn lemma_asked(raw: RawView, s: Source)
    requires
        s matches Source::Tag(_, tag) ==> 0 <= tag < 0x1_0000,
    ensures
        match asked(raw, s) {
            None => silent(raw, s),
            Some(t) => says(raw, s, t) && !silent(raw, s),
        },
{
    let i = match s {
        Source::Item(key) => lemma_container(raw.container, ContainerSource::QuickTimeMdta, key),
        Source::Atom(key) => lemma_container(raw.container, ContainerSource::Udta, key),
        Source::Tag(ifd, tag) => lemma_tag(raw.exif, ifd, tag as u16),
        Source::Property(prefix, name) => lemma_property(all_xmp(raw), prefix, name),
        Source::Keyword(k) => lemma_keyword(raw.text, k),
    };
    assert forall|j: int| 0 <= j < entries(raw, s) && s is Property implies #[trigger] property(
        raw,
        j,
    ) == all_xmp(raw)[j] by {}
    match asked(raw, s) {
        Some(t) => {
            assert(text_at(raw, s, i) == Some(t));
        },
        None => {},
    }
}

proof fn lemma_first(raw: RawView, ss: Seq<Source>, r: Option<Seq<char>>, next: Option<Seq<char>>)
    requires
        ss.len() > 0,
        ss[0] matches Source::Tag(_, tag) ==> 0 <= tag < 0x1_0000,
        r == or(asked(raw, ss[0]), next),
        first_said(raw, ss.drop_first(), next),
    ensures
        first_said(raw, ss, r),
{
    lemma_asked(raw, ss[0]);
}

proof fn lemma_none(raw: RawView)
    ensures
        first_said(raw, seq![], None),
{
}

/// What five sources give, the first of them first.
spec fn chain(raw: RawView, ss: Seq<Source>) -> Option<Seq<char>>
    decreases ss.len(),
{
    if ss.len() == 0 {
        None
    } else {
        or(asked(raw, ss[0]), chain(raw, ss.drop_first()))
    }
}

spec fn in_two_bytes(ss: Seq<Source>) -> bool {
    forall|i: int| 0 <= i < ss.len() ==> ((#[trigger] ss[i]) matches Source::Tag(_, tag) ==> 0 <= tag
        < 0x1_0000)
}

proof fn lemma_chain(raw: RawView, ss: Seq<Source>)
    requires
        in_two_bytes(ss),
    ensures
        first_said(raw, ss, chain(raw, ss)),
    decreases ss.len(),
{
    if ss.len() > 0 {
        let m = ss.drop_first();
        assert forall|i: int| 0 <= i < m.len() implies ((#[trigger] m[i]) matches Source::Tag(_, tag)
            ==> 0 <= tag < 0x1_0000) by {
            assert(m[i] == ss[i + 1]);
        }
        assert(ss[0] matches Source::Tag(_, tag) ==> 0 <= tag < 0x1_0000);
        lemma_chain(raw, m);
        lemma_first(raw, ss, chain(raw, ss), chain(raw, m));
    }
}

proof fn lemma_or(a: Option<Seq<char>>)
    ensures
        or(a, None) == a,
{
}

proof fn lemma_two(raw: RawView, a: Source, b: Source)
    ensures
        chain(raw, seq![a, b]) == or(asked(raw, a), asked(raw, b)),
{
    let ss = seq![a, b];
    assert(ss.drop_first() =~= seq![b]);
    assert(seq![b].drop_first() =~= seq![]);
    assert(chain(raw, seq![b]) == or(asked(raw, b), chain(raw, seq![])));
    lemma_or(asked(raw, b));
}

proof fn lemma_three(raw: RawView, a: Source, b: Source, c: Source)
    ensures
        chain(raw, seq![a, b, c]) == or(asked(raw, a), or(asked(raw, b), asked(raw, c))),
{
    let ss = seq![a, b, c];
    assert(ss.drop_first() =~= seq![b, c]);
    lemma_two(raw, b, c);
}

proof fn lemma_five(raw: RawView, a: Source, b: Source, c: Source, d: Source, e: Source)
    ensures
        chain(raw, seq![a, b, c, d, e]) == or(
            asked(raw, a),
            or(asked(raw, b), or(asked(raw, c), or(asked(raw, d), asked(raw, e)))),
        ),
{
    let ss = seq![a, b, c, d, e];
    assert(ss.drop_first() =~= seq![b, c, d, e]);
    assert(seq![b, c, d, e].drop_first() =~= seq![c, d, e]);
    assert(chain(raw, seq![b, c, d, e]) == or(asked(raw, b), chain(raw, seq![c, d, e])));
    lemma_three(raw, c, d, e);
}

/// The software: QuickTime, user data, EXIF, XMP, PNG.
pub proof fn software_is_from(raw: RawView, st: StructuralView)
    ensures
        first_said(
            raw,
            seq![
                Source::Item("com.apple.quicktime.software"@),
                Source::Atom("\u{a9}swr"@),
                Source::Tag(IfdKind::Primary, 0x0131),
                Source::Property("xmp"@, "CreatorTool"@),
                Source::Keyword("Software"@),
            ],
            unified(raw, st).software,
        ),
{
    let a = Source::Item("com.apple.quicktime.software"@);
    let b = Source::Atom("\u{a9}swr"@);
    let c = Source::Tag(IfdKind::Primary, 0x0131);
    let d = Source::Property("xmp"@, "CreatorTool"@);
    let e = Source::Keyword("Software"@);
    lemma_five(raw, a, b, c, d, e);
    lemma_chain(raw, seq![a, b, c, d, e]);
}

/// The creator: QuickTime, user data, EXIF, XMP, PNG.
pub proof fn creator_is_from(raw: RawView, st: StructuralView)
    ensures
        first_said(
            raw,
            seq![
                Source::Item("com.apple.quicktime.author"@),
                Source::Atom("\u{a9}aut"@),
                Source::Tag(IfdKind::Primary, 0x013B),
                Source::Property("dc"@, "creator"@),
                Source::Keyword("Author"@),
            ],
            unified(raw, st).creator,
        ),
{
    let a = Source::Item("com.apple.quicktime.author"@);
    let b = Source::Atom("\u{a9}aut"@);
    let c = Source::Tag(IfdKind::Primary, 0x013B);
    let d = Source::Property("dc"@, "creator"@);
    let e = Source::Keyword("Author"@);
    lemma_five(raw, a, b, c, d, e);
    lemma_chain(raw, seq![a, b, c, d, e]);
}

/// The title, from XMP or PNG; the description and the copyright, from EXIF before these.
pub proof fn words_are_from(raw: RawView, st: StructuralView)
    ensures
        first_said(
            raw,
            seq![Source::Property("dc"@, "title"@), Source::Keyword("Title"@)],
            unified(raw, st).title,
        ),
        first_said(
            raw,
            seq![
                Source::Tag(IfdKind::Primary, 0x010E),
                Source::Property("dc"@, "description"@),
                Source::Keyword("Description"@),
            ],
            unified(raw, st).description,
        ),
        first_said(
            raw,
            seq![
                Source::Tag(IfdKind::Primary, 0x8298),
                Source::Property("dc"@, "rights"@),
                Source::Keyword("Copyright"@),
            ],
            unified(raw, st).copyright,
        ),
{
    let (a, b) = (Source::Property("dc"@, "title"@), Source::Keyword("Title"@));
    lemma_two(raw, a, b);
    lemma_chain(raw, seq![a, b]);
    let c = Source::Tag(IfdKind::Primary, 0x010E);
    let (d, e) = (Source::Property("dc"@, "description"@), Source::Keyword("Description"@));
    lemma_three(raw, c, d, e);
    lemma_chain(raw, seq![c, d, e]);
    let f = Source::Tag(IfdKind::Primary, 0x8298);
    let (g, h) = (Source::Property("dc"@, "rights"@), Source::Keyword("Copyright"@));
    lemma_three(raw, f, g, h);
    lemma_chain(raw, seq![f, g, h]);
}

/// The camera: what the container tells, else QuickTime, EXIF, XMP.
pub proof fn camera_is_from(raw: RawView, st: StructuralView)
    ensures
        st.camera_make is Some ==> unified(raw, st).camera_make == st.camera_make,
        st.camera_make is None ==> first_said(
            raw,
            seq![
                Source::Item("com.apple.quicktime.make"@),
                Source::Tag(IfdKind::Primary, 0x010F),
                Source::Property("tiff"@, "Make"@),
            ],
            unified(raw, st).camera_make,
        ),
        st.camera_model is Some ==> unified(raw, st).camera_model == st.camera_model,
        st.camera_model is None ==> first_said(
            raw,
            seq![
                Source::Item("com.apple.quicktime.model"@),
                Source::Tag(IfdKind::Primary, 0x0110),
                Source::Property("tiff"@, "Model"@),
            ],
            unified(raw, st).camera_model,
        ),
{
    let a = Source::Item("com.apple.quicktime.make"@);
    let b = Source::Tag(IfdKind::Primary, 0x010F);
    let c = Source::Property("tiff"@, "Make"@);
    lemma_three(raw, a, b, c);
    lemma_chain(raw, seq![a, b, c]);
    let d = Source::Item("com.apple.quicktime.model"@);
    let e = Source::Tag(IfdKind::Primary, 0x0110);
    let f = Source::Property("tiff"@, "Model"@);
    lemma_three(raw, d, e, f);
    lemma_chain(raw, seq![d, e, f]);
}

/// The time in the text of a source, in the notation of `read`.
pub open spec fn told_time(
    raw: RawView,
    s: Source,
    read: spec_fn(Seq<u8>) -> Option<DateTimeParts>,
    r: Option<DateTimeParts>,
) -> bool {
    if silent(raw, s) {
        r is None
    } else {
        exists|t: Seq<char>| #[trigger] says(raw, s, t) && r == read(encode_utf8(t))
    }
}

/// The time that EXIF tells: that of the original with its own distance from UTC, or else that
/// of the file with its own.
pub open spec fn exif_told(raw: RawView, r: Option<DateTimeParts>) -> bool {
    let original = Source::Tag(IfdKind::Exif, 0x9003);
    let file = Source::Tag(IfdKind::Primary, 0x0132);
    if silent(raw, original) {
        stamped(raw, file, Source::Tag(IfdKind::Exif, 0x9010), r)
    } else {
        stamped(raw, original, Source::Tag(IfdKind::Exif, 0x9011), r)
    }
}

/// The time in the text of `s`, with the distance from UTC in that of `z`.
pub open spec fn stamped(raw: RawView, s: Source, z: Source, r: Option<DateTimeParts>) -> bool {
    if silent(raw, s) {
        r is None
    } else {
        exists|t: Seq<char>| #[trigger] says(raw, s, t) && with_zone(raw, t, z, r)
    }
}

pub open spec fn with_zone(
    raw: RawView,
    t: Seq<char>,
    z: Source,
    r: Option<DateTimeParts>,
) -> bool {
    match exif_datetime(encode_utf8(t)) {
        None => r is None,
        Some(d) => r is Some && r.unwrap() == (DateTimeParts {
            tz_offset_min: r.unwrap().tz_offset_min,
            ..d
        }) && zone_told(raw, z, r.unwrap().tz_offset_min),
    }
}

/// The distance from UTC in the text of a source.
pub open spec fn zone_told(raw: RawView, z: Source, tz: Option<i16>) -> bool {
    if silent(raw, z) {
        tz is None
    } else {
        exists|o: Seq<char>| #[trigger] says(raw, z, o) && tz == exif_offset(encode_utf8(o))
    }
}

proof fn lemma_exif_told(raw: RawView)
    ensures
        exif_told(raw, exif_created(raw.exif)),
{
    let original = Source::Tag(IfdKind::Exif, 0x9003);
    let file = Source::Tag(IfdKind::Primary, 0x0132);
    lemma_asked(raw, original);
    lemma_asked(raw, file);
    let (s, z) = if silent(raw, original) {
        (file, Source::Tag(IfdKind::Exif, 0x9010))
    } else {
        (original, Source::Tag(IfdKind::Exif, 0x9011))
    };
    lemma_asked(raw, z);
    let r = exif_created(raw.exif);
    match asked(raw, s) {
        None => {},
        Some(t) => {
            assert(says(raw, s, t));
            match exif_datetime(encode_utf8(t)) {
                None => {
                    assert(r is None);
                },
                Some(d) => {
                    let o = asked(raw, z);
                    let tz = match o {
                        Some(o) => exif_offset(encode_utf8(o)),
                        None => None,
                    };
                    assert(r == Some(DateTimeParts { tz_offset_min: tz, ..d }));
                    assert(zone_told(raw, z, tz));
                    assert(with_zone(raw, t, z, r));
                    match o {
                        Some(o) => {
                            assert(says(raw, z, o));
                        },
                        None => {},
                    }
                },
            }
        },
    }
}

/// When it was made: the date of QuickTime, else the time that the container tells, else that
/// of EXIF, else that of a PNG text; one that cannot be read counts as none.
pub proof fn time_is_from(
    raw: RawView,
    st: StructuralView,
) -> (r: (Option<DateTimeParts>, Option<DateTimeParts>, Option<DateTimeParts>))
    ensures
        told_time(
            raw,
            Source::Item("com.apple.quicktime.creationdate"@),
            |b: Seq<u8>| iso8601(b),
            r.0,
        ),
        exif_told(raw, r.1),
        told_time(raw, Source::Keyword("Creation Time"@), |b: Seq<u8>| png_time(b), r.2),
        unified(raw, st).created == (if r.0 is Some {
            r.0
        } else if st.created is Some {
            st.created
        } else if r.1 is Some {
            r.1
        } else {
            r.2
        }),
{
    let a = Source::Item("com.apple.quicktime.creationdate"@);
    let b = Source::Keyword("Creation Time"@);
    lemma_asked(raw, a);
    lemma_asked(raw, b);
    lemma_exif_told(raw);
    let first = match asked(raw, a) {
        Some(t) => iso8601(encode_utf8(t)),
        None => None,
    };
    let last = match asked(raw, b) {
        Some(t) => png_time(encode_utf8(t)),
        None => None,
    };
    (first, exif_created(raw.exif), last)
}

/// The place: what the container tells, else EXIF, else XMP, which needs both coordinates.
pub proof fn place_is_from(raw: RawView, st: StructuralView)
    ensures
        st.gps is Some ==> unified(raw, st).gps == st.gps,
        st.gps is None && exif_gps(raw.exif) is Some ==> unified(raw, st).gps == exif_gps(raw.exif),
        st.gps is None && exif_gps(raw.exif) is None ==> forall|lat: Seq<char>, lon: Seq<char>|
            #[trigger] says(raw, Source::Property("exif"@, "GPSLatitude"@), lat)
                && #[trigger] says(raw, Source::Property("exif"@, "GPSLongitude"@), lon)
                ==> unified(raw, st).gps == match (xmp_coord(lat), xmp_coord(lon)) {
                (Some(a), Some(o)) => Some(Gps { lat_e7: a, lon_e7: o, alt_mm: None }),
                _ => None,
            },
        st.gps is None && exif_gps(raw.exif) is None && (silent(
            raw,
            Source::Property("exif"@, "GPSLatitude"@),
        ) || silent(raw, Source::Property("exif"@, "GPSLongitude"@))) ==> unified(raw, st).gps
            is None,
{
    let a = Source::Property("exif"@, "GPSLatitude"@);
    let o = Source::Property("exif"@, "GPSLongitude"@);
    lemma_asked(raw, a);
    lemma_asked(raw, o);
    assert forall|lat: Seq<char>, lon: Seq<char>|
        #[trigger] says(raw, a, lat) && #[trigger] says(raw, o, lon) implies asked(raw, a)
        == Some(lat) && asked(raw, o) == Some(lon) by {
        lemma_one_answer(raw, a, lat);
        lemma_one_answer(raw, o, lon);
    }
}

/// A source says one thing.
proof fn lemma_one_answer(raw: RawView, s: Source, t: Seq<char>)
    requires
        says(raw, s, t),
        s is Property,
    ensures
        asked(raw, s) == Some(t),
{
    lemma_asked(raw, s);
    let i = choose|i: int|
        0 <= i < entries(raw, s) && (#[trigger] text_at(raw, s, i)) == Some(t) && forall|j: int|
            0 <= j < i ==> (#[trigger] text_at(raw, s, j)) is None;
    let u = asked(raw, s).unwrap();
    let k = choose|k: int|
        0 <= k < entries(raw, s) && (#[trigger] text_at(raw, s, k)) == Some(u) && forall|j: int|
            0 <= j < k ==> (#[trigger] text_at(raw, s, j)) is None;
    if i < k {
        assert(text_at(raw, s, i) is None);
    } else if k < i {
        assert(text_at(raw, s, k) is None);
    }
}

/// The orientation with a number.
pub open spec fn numbered(v: int) -> Option<Orientation> {
    if v == 1 {
        Some(Orientation::Normal)
    } else if v == 2 {
        Some(Orientation::FlipH)
    } else if v == 3 {
        Some(Orientation::Rotate180)
    } else if v == 4 {
        Some(Orientation::FlipV)
    } else if v == 5 {
        Some(Orientation::Transpose)
    } else if v == 6 {
        Some(Orientation::Rotate90)
    } else if v == 7 {
        Some(Orientation::Transverse)
    } else if v == 8 {
        Some(Orientation::Rotate270)
    } else {
        None
    }
}

/// The orientation that the `i`-th EXIF tag gives: one number under 0x0112 of the image itself.
pub open spec fn turned(ts: Seq<ExifTagView>, i: int) -> Option<Orientation> {
    match ts[i].value {
        ValueView::U16(v) if ts[i].ifd == IfdKind::Primary && ts[i].tag == 0x0112 => numbered(
            v as int,
        ),
        _ => None,
    }
}

proof fn lemma_turned(ts: Seq<ExifTagView>, i: int)
    requires
        0 <= i < ts.len(),
        turned(ts, i) is Some,
        forall|j: int| i < j < ts.len() ==> (#[trigger] turned(ts, j)) is None,
    ensures
        exif_orientation(ts) == turned(ts, i),
    decreases ts.len(),
{
    let m = ts.drop_last();
    let n = ts.len() - 1;
    if i < n {
        assert(turned(ts, n) is None);
        assert(turned(m, i) == turned(ts, i));
        assert forall|j: int| i < j < m.len() implies (#[trigger] turned(m, j)) is None by {
            assert(turned(ts, j) is None);
        }
        lemma_turned(m, i);
    }
}

proof fn lemma_not_turned(ts: Seq<ExifTagView>)
    requires
        forall|j: int| 0 <= j < ts.len() ==> (#[trigger] turned(ts, j)) is None,
    ensures
        exif_orientation(ts) is None,
    decreases ts.len(),
{
    if ts.len() > 0 {
        let m = ts.drop_last();
        assert(turned(ts, ts.len() - 1) is None);
        assert forall|j: int| 0 <= j < m.len() implies (#[trigger] turned(m, j)) is None by {
            assert(turned(ts, j) is None);
        }
        lemma_not_turned(m);
    }
}

/// The orientation is the last one that EXIF defines; where it defines none, the first that
/// XMP does, as a number in decimal digits.
pub proof fn orientation_is_from(raw: RawView, st: StructuralView, i: int)
    ensures
        0 <= i < raw.exif.len() && turned(raw.exif, i) is Some && (forall|j: int|
            i < j < raw.exif.len() ==> (#[trigger] turned(raw.exif, j)) is None) ==> unified(
            raw,
            st,
        ).orientation == turned(raw.exif, i),
        (forall|j: int| 0 <= j < raw.exif.len() ==> (#[trigger] turned(raw.exif, j)) is None) ==> (
        0 <= i < all_xmp(raw).len() && xmp_turned(all_xmp(raw), i) is Some && (forall|j: int|
            0 <= j < i ==> (#[trigger] xmp_turned(all_xmp(raw), j)) is None) ==> unified(
            raw,
            st,
        ).orientation == xmp_turned(all_xmp(raw), i)),
        (forall|j: int| 0 <= j < raw.exif.len() ==> (#[trigger] turned(raw.exif, j)) is None) && (
        forall|j: int|
            0 <= j < all_xmp(raw).len() ==> (#[trigger] xmp_turned(all_xmp(raw), j)) is None)
            ==> unified(raw, st).orientation is None,
{
    let ts = raw.exif;
    let ps = all_xmp(raw);
    if 0 <= i < ts.len() && turned(ts, i) is Some && (forall|j: int|
        i < j < ts.len() ==> (#[trigger] turned(ts, j)) is None) {
        lemma_turned(ts, i);
    }
    if forall|j: int| 0 <= j < ts.len() ==> (#[trigger] turned(ts, j)) is None {
        lemma_not_turned(ts);
        if 0 <= i < ps.len() && xmp_turned(ps, i) is Some && (forall|j: int|
            0 <= j < i ==> (#[trigger] xmp_turned(ps, j)) is None) {
            lemma_xmp_turned(ps, i);
        }
        if forall|j: int| 0 <= j < ps.len() ==> (#[trigger] xmp_turned(ps, j)) is None {
            lemma_xmp_not_turned(ps);
        }
    }
}

/// The orientation that the `i`-th property of XMP gives.
pub open spec fn xmp_turned(ps: Seq<XmpView>, i: int) -> Option<Orientation> {
    if ps[i].prefix == "tiff"@ && ps[i].name == "Orientation"@ {
        match unsigned(ps[i].value, 65535) {
            Some(v) => numbered(v as int),
            None => None,
        }
    } else {
        None
    }
}

proof fn lemma_xmp_turned(ps: Seq<XmpView>, i: int)
    requires
        0 <= i < ps.len(),
        xmp_turned(ps, i) is Some,
        forall|j: int| 0 <= j < i ==> (#[trigger] xmp_turned(ps, j)) is None,
    ensures
        xmp_orientation(ps) == xmp_turned(ps, i),
    decreases ps.len(),
{
    if i > 0 {
        let m = ps.drop_first();
        assert(xmp_turned(ps, 0) is None);
        assert(m[i - 1] == ps[i]);
        assert(xmp_turned(m, i - 1) == xmp_turned(ps, i));
        assert forall|j: int| 0 <= j < i - 1 implies (#[trigger] xmp_turned(m, j)) is None by {
            assert(m[j] == ps[j + 1]);
            assert(xmp_turned(ps, j + 1) is None);
        }
        lemma_xmp_turned(m, i - 1);
    }
}

proof fn lemma_xmp_not_turned(ps: Seq<XmpView>)
    requires
        forall|j: int| 0 <= j < ps.len() ==> (#[trigger] xmp_turned(ps, j)) is None,
    ensures
        xmp_orientation(ps) is None,
    decreases ps.len(),
{
    if ps.len() > 0 {
        let m = ps.drop_first();
        assert(xmp_turned(ps, 0) is None);
        assert forall|j: int| 0 <= j < m.len() implies (#[trigger] xmp_turned(m, j)) is None by {
            assert(m[j] == ps[j + 1]);
            assert(xmp_turned(ps, j + 1) is None);
        }
        lemma_xmp_not_turned(m);
    }
}

/// The number that the `i`-th property of XMP gives, where it has the name.
pub open spec fn counted(ps: Seq<XmpView>, name: Seq<char>, i: int) -> Option<u32> {
    if ps[i].prefix == "tiff"@ && ps[i].name == name {
        match unsigned(ps[i].value, 0xFFFF_FFFF) {
            Some(v) => Some(v as u32),
            None => None,
        }
    } else {
        None
    }
}

proof fn lemma_counted(ps: Seq<XmpView>, name: Seq<char>, i: int)
    requires
        0 <= i < ps.len(),
        counted(ps, name, i) is Some,
        forall|j: int| 0 <= j < i ==> (#[trigger] counted(ps, name, j)) is None,
    ensures
        xmp_number(ps, "tiff"@, name) == counted(ps, name, i),
    decreases ps.len(),
{
    if i > 0 {
        let m = ps.drop_first();
        assert(counted(ps, name, 0) is None);
        assert(m[i - 1] == ps[i]);
        assert(counted(m, name, i - 1) == counted(ps, name, i));
        assert forall|j: int| 0 <= j < i - 1 implies (#[trigger] counted(m, name, j)) is None by {
            assert(m[j] == ps[j + 1]);
            assert(counted(ps, name, j + 1) is None);
        }
        lemma_counted(m, name, i - 1);
    }
}

/// The size is what the container tells, else the first number that XMP gives for it: the
/// width under `ImageWidth`, the height under `ImageLength`.
pub proof fn size_is_from(raw: RawView, st: StructuralView, i: int)
    ensures
        st.width is Some ==> unified(raw, st).width == st.width,
        st.height is Some ==> unified(raw, st).height == st.height,
        st.width is None && 0 <= i < all_xmp(raw).len() && counted(
            all_xmp(raw),
            "ImageWidth"@,
            i,
        ) is Some && (forall|j: int|
            0 <= j < i ==> (#[trigger] counted(all_xmp(raw), "ImageWidth"@, j)) is None)
            ==> unified(raw, st).width == counted(all_xmp(raw), "ImageWidth"@, i),
        st.height is None && 0 <= i < all_xmp(raw).len() && counted(
            all_xmp(raw),
            "ImageLength"@,
            i,
        ) is Some && (forall|j: int|
            0 <= j < i ==> (#[trigger] counted(all_xmp(raw), "ImageLength"@, j)) is None)
            ==> unified(raw, st).height == counted(all_xmp(raw), "ImageLength"@, i),
        unified(raw, st).duration_ms == st.duration_ms,
{
    let ps = all_xmp(raw);
    if 0 <= i < ps.len() && counted(ps, "ImageWidth"@, i) is Some && (forall|j: int|
        0 <= j < i ==> (#[trigger] counted(ps, "ImageWidth"@, j)) is None) {
        lemma_counted(ps, "ImageWidth"@, i);
    }
    if 0 <= i < ps.len() && counted(ps, "ImageLength"@, i) is Some && (forall|j: int|
        0 <= j < i ==> (#[trigger] counted(ps, "ImageLength"@, j)) is None) {
        lemma_counted(ps, "ImageLength"@, i);
    }
}

} // verus!
