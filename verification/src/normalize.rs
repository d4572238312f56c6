//! The unified fields: for each field the order in which the sources are asked.
use vstd::prelude::*;
use vstd::utf8::encode_utf8;

use crate::dates::{
    exif_datetime, exif_offset, iso8601, parse_exif_datetime, parse_exif_offset, parse_iso8601,
    parse_png_creation_time, png_time,
};
use crate::double::{nought, rounded, sum, within, Binary, Double};
use crate::geo::{deg_to_e7, meters_to_mm, nearest, parse_xmp_coord, xmp_coord};
use crate::model::{
    container_views, exif_views, opt_text, orientation_of, text_views, xmp_views, ContainerSource,
    ContainerTag, ContainerTagView, DateTimeParts, ExifTag, ExifTagView, Gps, IfdKind, Orientation,
    RawTags, RawView, StructuralFields, StructuralView, TextTag, TextTagView, TextValue,
    TextValueView, Unified, UnifiedView, Value, ValueView, WarnKind, Warning, XmpProperty, XmpView,
};
use crate::text::{parse_unsigned, str_eq, unsigned};

verus! {

pub const TAG_MAKE: u16 = 0x010F;

pub const TAG_MODEL: u16 = 0x0110;

pub const TAG_ORIENTATION: u16 = 0x0112;

pub const TAG_DATETIME: u16 = 0x0132;

pub const TAG_DATETIME_ORIGINAL: u16 = 0x9003;

pub const TAG_OFFSET_TIME: u16 = 0x9010;

pub const TAG_OFFSET_TIME_ORIGINAL: u16 = 0x9011;

pub const TAG_SOFTWARE: u16 = 0x0131;

pub const TAG_ARTIST: u16 = 0x013B;

pub const TAG_IMAGE_DESCRIPTION: u16 = 0x010E;

pub const TAG_COPYRIGHT: u16 = 0x8298;

pub const GPS_LAT_REF: u16 = 0x0001;

pub const GPS_LAT: u16 = 0x0002;

pub const GPS_LON_REF: u16 = 0x0003;

pub const GPS_LON: u16 = 0x0004;

pub const GPS_ALT_REF: u16 = 0x0005;

pub const GPS_ALT: u16 = 0x0006;

/// `a`, or `b` where there is no `a`.
pub open spec fn or<T>(a: Option<T>, b: Option<T>) -> Option<T> {
    match a {
        Some(_) => a,
        None => b,
    }
}

/// The first text under a key of a container.
pub open spec fn container_text(
    ts: Seq<ContainerTagView>,
    source: ContainerSource,
    key: Seq<char>,
) -> Option<Seq<char>>
    decreases ts.len(),
{
    if ts.len() == 0 {
        None
    } else {
        match ts[0].value {
            ValueView::Text(s) if ts[0].source == source && ts[0].key == key => Some(s),
            _ => container_text(ts.drop_first(), source, key),
        }
    }
}

/// The first text of an EXIF tag.
pub open spec fn exif_text(ts: Seq<ExifTagView>, ifd: IfdKind, tag: u16) -> Option<Seq<char>>
    decreases ts.len(),
{
    if ts.len() == 0 {
        None
    } else {
        match ts[0].value {
            ValueView::Text(s) if ts[0].ifd == ifd && ts[0].tag == tag => Some(s),
            _ => exif_text(ts.drop_first(), ifd, tag),
        }
    }
}

/// The first value of an EXIF tag, of whatever type.
pub open spec fn exif_value(ts: Seq<ExifTagView>, ifd: IfdKind, tag: u16) -> Option<ValueView>
    decreases ts.len(),
{
    if ts.len() == 0 {
        None
    } else if ts[0].ifd == ifd && ts[0].tag == tag {
        Some(ts[0].value)
    } else {
        exif_value(ts.drop_first(), ifd, tag)
    }
}

/// The first value of an XMP property.
pub open spec fn xmp_text(ps: Seq<XmpView>, prefix: Seq<char>, name: Seq<char>) -> Option<Seq<char>>
    decreases ps.len(),
{
    if ps.len() == 0 {
        None
    } else if ps[0].prefix == prefix && ps[0].name == name {
        Some(ps[0].value)
    } else {
        xmp_text(ps.drop_first(), prefix, name)
    }
}

/// The first PNG text with the given keyword that is not compressed.
pub open spec fn png_text(ts: Seq<TextTagView>, keyword: Seq<char>) -> Option<Seq<char>>
    decreases ts.len(),
{
    if ts.len() == 0 {
        None
    } else {
        match ts[0].value {
            TextValueView::Latin1(s) if ts[0].keyword == keyword => Some(s),
            TextValueView::Utf8(s) if ts[0].keyword == keyword => Some(s),
            _ => png_text(ts.drop_first(), keyword),
        }
    }
}

/// The orientation that an EXIF tag gives, where it is one: the number, defined or not.
pub open spec fn orientation_tag(t: ExifTagView) -> Option<u16> {
    match t.value {
        ValueView::U16(v) if t.ifd == IfdKind::Primary && t.tag == TAG_ORIENTATION => Some(v),
        _ => None,
    }
}

/// The last defined orientation of the primary image.
pub open spec fn exif_orientation(ts: Seq<ExifTagView>) -> Option<Orientation>
    decreases ts.len(),
{
    if ts.len() == 0 {
        None
    } else {
        match orientation_tag(ts.last()) {
            Some(v) => or(orientation_of(v), exif_orientation(ts.drop_last())),
            None => exif_orientation(ts.drop_last()),
        }
    }
}

pub open spec fn unrecognized() -> Warning {
    Warning { offset: 0, kind: WarnKind::UnrecognizedValue }
}

/// A warning for each orientation that is not defined.
pub open spec fn orientation_warnings(ts: Seq<ExifTagView>) -> Seq<Warning>
    decreases ts.len(),
{
    if ts.len() == 0 {
        seq![]
    } else {
        match orientation_tag(ts.last()) {
            Some(v) if orientation_of(v) is None => orientation_warnings(ts.drop_last()).push(
                unrecognized(),
            ),
            _ => orientation_warnings(ts.drop_last()),
        }
    }
}

/// The first defined orientation in XMP.
pub open spec fn xmp_orientation(ps: Seq<XmpView>) -> Option<Orientation>
    decreases ps.len(),
{
    if ps.len() == 0 {
        None
    } else {
        let rest = xmp_orientation(ps.drop_first());
        match unsigned(ps[0].value, u16::MAX as nat) {
            Some(v) if ps[0].prefix == "tiff"@ && ps[0].name == "Orientation"@ => or(
                orientation_of(v as u16),
                rest,
            ),
            _ => rest,
        }
    }
}

/// The first number that an XMP property gives.
pub open spec fn xmp_number(ps: Seq<XmpView>, prefix: Seq<char>, name: Seq<char>) -> Option<u32>
    decreases ps.len(),
{
    if ps.len() == 0 {
        None
    } else {
        match unsigned(ps[0].value, u32::MAX as nat) {
            Some(v) if ps[0].prefix == prefix && ps[0].name == name => Some(v as u32),
            _ => xmp_number(ps.drop_first(), prefix, name),
        }
    }
}

/// The rationals among `vs`.
pub open spec fn rationals(vs: Seq<ValueView>) -> Seq<(u32, u32)>
    decreases vs.len(),
{
    if vs.len() == 0 {
        seq![]
    } else {
        match vs.last() {
            ValueView::Rational(n, d) => rationals(vs.drop_last()).push((n, d)),
            _ => rationals(vs.drop_last()),
        }
    }
}

/// The rationals of a coordinate: those among the first three of a list, or the only one.
pub open spec fn coord_rationals(v: ValueView) -> Seq<(u32, u32)> {
    match v {
        ValueView::List(items) => rationals(
            items.take(
                if items.len() < 3 {
                    items.len() as int
                } else {
                    3
                },
            ),
        ),
        ValueView::Rational(n, d) => seq![(n, d)],
        _ => seq![],
    }
}

/// How many of the `i`-th unit make a degree: degrees, minutes, seconds.
pub open spec fn units(i: int) -> int {
    if i <= 0 {
        1
    } else if i == 1 {
        60
    } else {
        3600
    }
}

/// `n / d` divided by `k`, in double precision.
pub open spec fn term(n: int, d: int, k: int) -> Binary {
    let q = rounded(n, d, 0);
    rounded(q.m, k, q.e)
}

/// The degrees that degrees, minutes and seconds make, added up in double precision.
pub open spec fn dms_degrees(rs: Seq<(u32, u32)>) -> Binary
    decreases rs.len(),
{
    if rs.len() == 0 {
        nought()
    } else {
        let (n, d) = rs.last();
        sum(dms_degrees(rs.drop_last()), term(n as int, d as int, units(rs.len() - 1)))
    }
}

/// Degrees of a coordinate in ten millionths. A denominator of nought spoils it.
pub open spec fn exif_degrees(v: ValueView, neg: bool) -> Option<i32> {
    let rs = coord_rationals(v);
    if rs.len() == 0 || exists|i: int| 0 <= i < rs.len() && (#[trigger] rs[i]).1 == 0 {
        None
    } else {
        nearest(dms_degrees(rs), 10_000_000, neg)
    }
}

/// Whether the reference tag is the given letter, in either case.
pub open spec fn ref_is(ts: Seq<ExifTagView>, tag: u16, upper: char, lower: char) -> bool {
    match exif_value(ts, IfdKind::Gps, tag) {
        Some(ValueView::Text(s)) => s.len() == 1 && (s[0] == upper || s[0] == lower),
        _ => false,
    }
}

/// The height in millimetres; below the sea where the reference says so.
pub open spec fn exif_altitude(ts: Seq<ExifTagView>) -> Option<i32> {
    match exif_value(ts, IfdKind::Gps, GPS_ALT) {
        Some(ValueView::Rational(n, d)) if d != 0 => nearest(
            rounded(n as int, d as int, 0),
            1000,
            match exif_value(ts, IfdKind::Gps, GPS_ALT_REF) {
                Some(ValueView::Bytes(b)) => b.len() > 0 && b[0] == 1,
                _ => false,
            },
        ),
        _ => None,
    }
}

/// The place that EXIF gives: both coordinates, or nothing.
pub open spec fn exif_gps(ts: Seq<ExifTagView>) -> Option<Gps> {
    match (exif_value(ts, IfdKind::Gps, GPS_LAT), exif_value(ts, IfdKind::Gps, GPS_LON)) {
        (Some(lat), Some(lon)) => match (
            exif_degrees(lat, ref_is(ts, GPS_LAT_REF, 'S', 's')),
            exif_degrees(lon, ref_is(ts, GPS_LON_REF, 'W', 'w')),
        ) {
            (Some(lat_e7), Some(lon_e7)) => Some(
                Gps { lat_e7, lon_e7, alt_mm: exif_altitude(ts) },
            ),
            _ => None,
        },
        _ => None,
    }
}

/// The place that XMP gives: both coordinates, or nothing.
pub open spec fn xmp_gps(ps: Seq<XmpView>) -> Option<Gps> {
    match (xmp_text(ps, "exif"@, "GPSLatitude"@), xmp_text(ps, "exif"@, "GPSLongitude"@)) {
        (Some(lat), Some(lon)) => match (xmp_coord(lat), xmp_coord(lon)) {
            (Some(lat_e7), Some(lon_e7)) => Some(Gps { lat_e7, lon_e7, alt_mm: None }),
            _ => None,
        },
        _ => None,
    }
}

/// The time that EXIF gives: that of the original, else that of the file.
pub open spec fn exif_created(ts: Seq<ExifTagView>) -> Option<DateTimeParts> {
    let original = exif_text(ts, IfdKind::Exif, TAG_DATETIME_ORIGINAL);
    let (text, offset) = match original {
        Some(_) => (original, exif_text(ts, IfdKind::Exif, TAG_OFFSET_TIME_ORIGINAL)),
        None => (
            exif_text(ts, IfdKind::Primary, TAG_DATETIME),
            exif_text(ts, IfdKind::Exif, TAG_OFFSET_TIME),
        ),
    };
    match text {
        Some(s) => match exif_datetime(encode_utf8(s)) {
            Some(t) => Some(
                DateTimeParts {
                    tz_offset_min: match offset {
                        Some(o) => exif_offset(encode_utf8(o)),
                        None => None,
                    },
                    ..t
                },
            ),
            None => None,
        },
        None => None,
    }
}

/// The time in an optional text, in the notation of `f`.
pub open spec fn time_in(
    s: Option<Seq<char>>,
    f: spec_fn(Seq<u8>) -> Option<DateTimeParts>,
) -> Option<DateTimeParts> {
    match s {
        Some(s) => f(encode_utf8(s)),
        None => None,
    }
}

/// All XMP properties: those of the file, then those of a sidecar.
pub open spec fn all_xmp(raw: RawView) -> Seq<XmpView> {
    raw.xmp + raw.xmp_sidecar
}

pub open spec fn mdta(raw: RawView, key: Seq<char>) -> Option<Seq<char>> {
    container_text(raw.container, ContainerSource::QuickTimeMdta, key)
}

pub open spec fn primary(raw: RawView, tag: u16) -> Option<Seq<char>> {
    exif_text(raw.exif, IfdKind::Primary, tag)
}

/// The unified fields.
pub open spec fn unified(raw: RawView, st: StructuralView) -> UnifiedView {
    let xmp = all_xmp(raw);
    UnifiedView {
        width: or(st.width, xmp_number(xmp, "tiff"@, "ImageWidth"@)),
        height: or(st.height, xmp_number(xmp, "tiff"@, "ImageLength"@)),
        orientation: or(exif_orientation(raw.exif), xmp_orientation(xmp)),
        camera_make: or(
            st.camera_make,
            or(
                mdta(raw, "com.apple.quicktime.make"@),
                or(primary(raw, TAG_MAKE), xmp_text(xmp, "tiff"@, "Make"@)),
            ),
        ),
        camera_model: or(
            st.camera_model,
            or(
                mdta(raw, "com.apple.quicktime.model"@),
                or(primary(raw, TAG_MODEL), xmp_text(xmp, "tiff"@, "Model"@)),
            ),
        ),
        duration_ms: st.duration_ms,
        created: or(
            time_in(mdta(raw, "com.apple.quicktime.creationdate"@), |b: Seq<u8>| iso8601(b)),
            or(
                st.created,
                or(
                    exif_created(raw.exif),
                    time_in(png_text(raw.text, "Creation Time"@), |b: Seq<u8>| png_time(b)),
                ),
            ),
        ),
        gps: or(st.gps, or(exif_gps(raw.exif), xmp_gps(xmp))),
        software: or(
            mdta(raw, "com.apple.quicktime.software"@),
            or(
                container_text(raw.container, ContainerSource::Udta, "\u{a9}swr"@),
                or(
                    primary(raw, TAG_SOFTWARE),
                    or(xmp_text(xmp, "xmp"@, "CreatorTool"@), png_text(raw.text, "Software"@)),
                ),
            ),
        ),
        creator: or(
            mdta(raw, "com.apple.quicktime.author"@),
            or(
                container_text(raw.container, ContainerSource::Udta, "\u{a9}aut"@),
                or(
                    primary(raw, TAG_ARTIST),
                    or(xmp_text(xmp, "dc"@, "creator"@), png_text(raw.text, "Author"@)),
                ),
            ),
        ),
        title: or(xmp_text(xmp, "dc"@, "title"@), png_text(raw.text, "Title"@)),
        description: or(
            primary(raw, TAG_IMAGE_DESCRIPTION),
            or(xmp_text(xmp, "dc"@, "description"@), png_text(raw.text, "Description"@)),
        ),
        copyright: or(
            primary(raw, TAG_COPYRIGHT),
            or(xmp_text(xmp, "dc"@, "rights"@), png_text(raw.text, "Copyright"@)),
        ),
    }
}

/// Whether EXIF holds a coordinate.
pub open spec fn has_coordinate(ts: Seq<ExifTagView>) -> bool {
    exif_value(ts, IfdKind::Gps, GPS_LAT) is Some || exif_value(ts, IfdKind::Gps, GPS_LON) is Some
}

/// What is wrong with the EXIF values: orientations that are not defined, and coordinates
/// that give no place.
pub open spec fn value_warnings(raw: RawView) -> Seq<Warning> {
    orientation_warnings(raw.exif) + if exif_gps(raw.exif) is None && has_coordinate(raw.exif) {
        seq![unrecognized()]
    } else {
        seq![]
    }
}

pub open spec fn opt_str(s: Option<&str>) -> Option<Seq<char>> {
    match s {
        Some(s) => Some(s@),
        None => None,
    }
}

fn find_container<'a>(ts: &'a Vec<ContainerTag>, source: ContainerSource, key: &str) -> (r: Option<
    &'a str,
>)
    ensures
        opt_str(r) == container_text(container_views(ts@), source, key@),
{
    let ghost all = container_views(ts@);
    let mut i: usize = 0;
    assert(all.subrange(0, all.len() as int) =~= all);
    while i < ts.len()
        invariant
            i <= ts@.len(),
            all == container_views(ts@),
            container_text(all.subrange(i as int, all.len() as int), source, key@)
                == container_text(all, source, key@),
        decreases ts@.len() - i,
    {
        let t = &ts[i];
        assert(t@ == all[i as int]);
        match &t.value {
            Value::Text(s) => {
                if t.source == source && str_eq(t.key.as_str(), key) {
                    return Some(s.as_str());
                }
            },
            _ => {},
        }
        assert(all.subrange(i as int, all.len() as int).drop_first() =~= all.subrange(
            i + 1,
            all.len() as int,
        ));
        i += 1;
    }
    None
}

fn find_exif_text<'a>(ts: &'a Vec<ExifTag>, ifd: IfdKind, tag: u16) -> (r: Option<&'a str>)
    ensures
        opt_str(r) == exif_text(exif_views(ts@), ifd, tag),
{
    let ghost all = exif_views(ts@);
    let mut i: usize = 0;
    assert(all.subrange(0, all.len() as int) =~= all);
    while i < ts.len()
        invariant
            i <= ts@.len(),
            all == exif_views(ts@),
            exif_text(all.subrange(i as int, all.len() as int), ifd, tag) == exif_text(
                all,
                ifd,
                tag,
            ),
        decreases ts@.len() - i,
    {
        let t = &ts[i];
        assert(t@ == all[i as int]);
        match &t.value {
            Value::Text(s) => {
                if t.ifd == ifd && t.tag == tag {
                    return Some(s.as_str());
                }
            },
            _ => {},
        }
        assert(all.subrange(i as int, all.len() as int).drop_first() =~= all.subrange(
            i + 1,
            all.len() as int,
        ));
        i += 1;
    }
    None
}

fn find_exif<'a>(ts: &'a Vec<ExifTag>, ifd: IfdKind, tag: u16) -> (r: Option<&'a Value>)
    ensures
        match r {
            Some(v) => exif_value(exif_views(ts@), ifd, tag) == Some(v@),
            None => exif_value(exif_views(ts@), ifd, tag) is None,
        },
{
    let ghost all = exif_views(ts@);
    let mut i: usize = 0;
    assert(all.subrange(0, all.len() as int) =~= all);
    while i < ts.len()
        invariant
            i <= ts@.len(),
            all == exif_views(ts@),
            exif_value(all.subrange(i as int, all.len() as int), ifd, tag) == exif_value(
                all,
                ifd,
                tag,
            ),
        decreases ts@.len() - i,
    {
        let t = &ts[i];
        assert(t@ == all[i as int]);
        if t.ifd == ifd && t.tag == tag {
            return Some(&t.value);
        }
        assert(all.subrange(i as int, all.len() as int).drop_first() =~= all.subrange(
            i + 1,
            all.len() as int,
        ));
        i += 1;
    }
    None
}

fn find_in_xmp<'a>(ps: &'a Vec<XmpProperty>, prefix: &str, name: &str) -> (r: Option<&'a str>)
    ensures
        opt_str(r) == xmp_text(xmp_views(ps@), prefix@, name@),
{
    let ghost all = xmp_views(ps@);
    let mut i: usize = 0;
    assert(all.subrange(0, all.len() as int) =~= all);
    while i < ps.len()
        invariant
            i <= ps@.len(),
            all == xmp_views(ps@),
            xmp_text(all.subrange(i as int, all.len() as int), prefix@, name@) == xmp_text(
                all,
                prefix@,
                name@,
            ),
        decreases ps@.len() - i,
    {
        let p = &ps[i];
        assert(p@ == all[i as int]);
        if str_eq(p.prefix.as_str(), prefix) && str_eq(p.name.as_str(), name) {
            return Some(p.value.as_str());
        }
        assert(all.subrange(i as int, all.len() as int).drop_first() =~= all.subrange(
            i + 1,
            all.len() as int,
        ));
        i += 1;
    }
    None
}

proof fn lemma_xmp_text_split(a: Seq<XmpView>, b: Seq<XmpView>, prefix: Seq<char>, name: Seq<char>)
    ensures
        xmp_text(a + b, prefix, name) == or(xmp_text(a, prefix, name), xmp_text(b, prefix, name)),
    decreases a.len(),
{
    if a.len() == 0 {
        assert(a + b =~= b);
    } else {
        assert((a + b).drop_first() =~= a.drop_first() + b);
        lemma_xmp_text_split(a.drop_first(), b, prefix, name);
    }
}

proof fn lemma_xmp_number_split(
    a: Seq<XmpView>,
    b: Seq<XmpView>,
    prefix: Seq<char>,
    name: Seq<char>,
)
    ensures
        xmp_number(a + b, prefix, name) == or(
            xmp_number(a, prefix, name),
            xmp_number(b, prefix, name),
        ),
    decreases a.len(),
{
    if a.len() == 0 {
        assert(a + b =~= b);
    } else {
        assert((a + b).drop_first() =~= a.drop_first() + b);
        lemma_xmp_number_split(a.drop_first(), b, prefix, name);
    }
}

proof fn lemma_xmp_orientation_split(a: Seq<XmpView>, b: Seq<XmpView>)
    ensures
        xmp_orientation(a + b) == or(xmp_orientation(a), xmp_orientation(b)),
    decreases a.len(),
{
    if a.len() == 0 {
        assert(a + b =~= b);
    } else {
        assert((a + b).drop_first() =~= a.drop_first() + b);
        lemma_xmp_orientation_split(a.drop_first(), b);
    }
}

fn find_xmp<'a>(raw: &'a RawTags, prefix: &str, name: &str) -> (r: Option<&'a str>)
    ensures
        opt_str(r) == xmp_text(all_xmp(raw@), prefix@, name@),
{
    proof {
        lemma_xmp_text_split(raw@.xmp, raw@.xmp_sidecar, prefix@, name@);
    }
    match find_in_xmp(&raw.xmp, prefix, name) {
        Some(s) => Some(s),
        None => find_in_xmp(&raw.xmp_sidecar, prefix, name),
    }
}

fn find_number(ps: &Vec<XmpProperty>, prefix: &str, name: &str) -> (r: Option<u32>)
    ensures
        r == xmp_number(xmp_views(ps@), prefix@, name@),
{
    let ghost all = xmp_views(ps@);
    let mut i: usize = 0;
    assert(all.subrange(0, all.len() as int) =~= all);
    while i < ps.len()
        invariant
            i <= ps@.len(),
            all == xmp_views(ps@),
            xmp_number(all.subrange(i as int, all.len() as int), prefix@, name@) == xmp_number(
                all,
                prefix@,
                name@,
            ),
        decreases ps@.len() - i,
    {
        let p = &ps[i];
        assert(p@ == all[i as int]);
        if str_eq(p.prefix.as_str(), prefix) && str_eq(p.name.as_str(), name) {
            match parse_unsigned(p.value.as_str(), u32::MAX) {
                Some(v) => return Some(v),
                None => {},
            }
        }
        assert(all.subrange(i as int, all.len() as int).drop_first() =~= all.subrange(
            i + 1,
            all.len() as int,
        ));
        i += 1;
    }
    None
}

fn find_orientation(ps: &Vec<XmpProperty>) -> (r: Option<Orientation>)
    ensures
        r == xmp_orientation(xmp_views(ps@)),
{
    let ghost all = xmp_views(ps@);
    let mut i: usize = 0;
    assert(all.subrange(0, all.len() as int) =~= all);
    while i < ps.len()
        invariant
            i <= ps@.len(),
            all == xmp_views(ps@),
            xmp_orientation(all.subrange(i as int, all.len() as int)) == xmp_orientation(all),
        decreases ps@.len() - i,
    {
        let p = &ps[i];
        assert(p@ == all[i as int]);
        if str_eq(p.prefix.as_str(), "tiff") && str_eq(p.name.as_str(), "Orientation") {
            match parse_unsigned(p.value.as_str(), 0xFFFF) {
                Some(v) => {
                    match Orientation::from_u16(v as u16) {
                        Some(o) => return Some(o),
                        None => {},
                    }
                },
                None => {},
            }
        }
        assert(all.subrange(i as int, all.len() as int).drop_first() =~= all.subrange(
            i + 1,
            all.len() as int,
        ));
        i += 1;
    }
    None
}

fn find_png<'a>(ts: &'a Vec<TextTag>, keyword: &str) -> (r: Option<&'a str>)
    ensures
        opt_str(r) == png_text(text_views(ts@), keyword@),
{
    let ghost all = text_views(ts@);
    let mut i: usize = 0;
    assert(all.subrange(0, all.len() as int) =~= all);
    while i < ts.len()
        invariant
            i <= ts@.len(),
            all == text_views(ts@),
            png_text(all.subrange(i as int, all.len() as int), keyword@) == png_text(
                all,
                keyword@,
            ),
        decreases ts@.len() - i,
    {
        let t = &ts[i];
        assert(t@ == all[i as int]);
        if str_eq(t.keyword.as_str(), keyword) {
            match &t.value {
                TextValue::Latin1(s) => return Some(s.as_str()),
                TextValue::Utf8(s) => return Some(s.as_str()),
                _ => {},
            }
        }
        assert(all.subrange(i as int, all.len() as int).drop_first() =~= all.subrange(
            i + 1,
            all.len() as int,
        ));
        i += 1;
    }
    None
}

/// `a`, or `b` where there is no `a`.
fn or_str<'a>(a: Option<&'a str>, b: Option<&'a str>) -> (r: Option<&'a str>)
    ensures
        opt_str(r) == or(opt_str(a), opt_str(b)),
{
    match a {
        Some(s) => Some(s),
        None => b,
    }
}

fn owned(s: Option<&str>) -> (r: Option<String>)
    ensures
        opt_text(r) == opt_str(s),
{
    match s {
        Some(s) => Some(s.to_owned()),
        None => None,
    }
}

/// Takes the orientation from EXIF, with a warning for each one that is not defined.
fn read_orientation(ts: &Vec<ExifTag>, warnings: &mut Vec<Warning>) -> (r: Option<Orientation>)
    ensures
        r == exif_orientation(exif_views(ts@)),
        final(warnings)@ == old(warnings)@ + orientation_warnings(exif_views(ts@)),
{
    let ghost all = exif_views(ts@);
    let ghost before = warnings@;
    let mut found: Option<Orientation> = None;
    let mut i: usize = 0;
    assert(before + orientation_warnings(all.take(0)) =~= before);
    while i < ts.len()
        invariant
            i <= ts@.len(),
            all == exif_views(ts@),
            found == exif_orientation(all.take(i as int)),
            warnings@ == before + orientation_warnings(all.take(i as int)),
        decreases ts@.len() - i,
    {
        let t = &ts[i];
        assert(t@ == all[i as int]);
        assert(all.take(i + 1).drop_last() =~= all.take(i as int));
        if t.ifd == IfdKind::Primary && t.tag == TAG_ORIENTATION {
            match &t.value {
                Value::U16(v) => {
                    match Orientation::from_u16(*v) {
                        Some(o) => {
                            found = Some(o);
                        },
                        None => {
                            let ghost prior = orientation_warnings(all.take(i as int));
                            warnings.push(
                                Warning { offset: 0, kind: WarnKind::UnrecognizedValue },
                            );
                            assert((before + prior).push(unrecognized()) =~= before + prior.push(
                                unrecognized(),
                            ));
                        },
                    }
                },
                _ => {},
            }
        }
        i += 1;
    }
    assert(all.take(all.len() as int) =~= all);
    found
}

/// The rationals of a coordinate.
fn read_rationals(v: &Value) -> (r: Vec<(u32, u32)>)
    ensures
        r@ == coord_rationals(v@),
        r@.len() <= 3,
{
    let mut out: Vec<(u32, u32)> = Vec::new();
    match v {
        Value::List(items) => {
            let ghost all = v@->List_0;
            let n: usize = if items.len() < 3 {
                items.len()
            } else {
                3
            };
            let mut i: usize = 0;
            while i < n
                invariant
                    i <= n <= items@.len(),
                    n <= 3,
                    all.len() == items@.len(),
                    forall|j: int| 0 <= j < all.len() ==> all[j] == (#[trigger] items@[j])@,
                    out@ == rationals(all.take(i as int)),
                    out@.len() <= i,
                decreases n - i,
            {
                assert(all.take(i + 1).drop_last() =~= all.take(i as int));
                assert(items@[i as int]@ == all[i as int]);
                match &items[i] {
                    Value::Rational(a, b) => {
                        out.push((*a, *b));
                    },
                    _ => {},
                }
                i += 1;
            }
        },
        Value::Rational(a, b) => {
            out.push((*a, *b));
            assert(out@ =~= coord_rationals(v@));
        },
        _ => {},
    }
    out
}

/// Reads a coordinate in ten millionths of a degree.
fn read_degrees(v: &Value, neg: bool) -> (r: Option<i32>)
    ensures
        r == exif_degrees(v@, neg),
{
    let rs = read_rationals(v);
    if rs.len() == 0 {
        return None;
    }
    let mut deg: Double = Double::zero();
    let mut i: usize = 0;
    assert(rs@.take(0) =~= seq![]);
    while i < rs.len()
        invariant
            i <= rs@.len() <= 3,
            rs@ == coord_rationals(v@),
            forall|j: int| 0 <= j < i ==> (#[trigger] rs@[j]).1 != 0,
            deg@ == dms_degrees(rs@.take(i as int)),
            within(deg@, 256 + 128 * i),
        decreases rs@.len() - i,
    {
        let (n, d): (u32, u32) = rs[i];
        if d == 0 {
            assert(rs@[i as int].1 == 0);
            assert(exif_degrees(v@, neg) is None);
            return None;
        }
        let k: u32 = if i == 0 {
            1
        } else if i == 1 {
            60
        } else {
            3600
        };
        deg = deg.plus(Double::ratio(n, d).over(k));
        assert(rs@.take(i + 1).drop_last() =~= rs@.take(i as int));
        i += 1;
    }
    assert(rs@.take(i as int) =~= rs@);
    deg_to_e7(deg, neg)
}

fn is_ref(ts: &Vec<ExifTag>, tag: u16, upper: char, lower: char) -> (r: bool)
    ensures
        r == ref_is(exif_views(ts@), tag, upper, lower),
{
    match find_exif(ts, IfdKind::Gps, tag) {
        Some(Value::Text(s)) => {
            let c = crate::text::chars_of(s.as_str());
            c.len() == 1 && (c[0] == upper || c[0] == lower)
        },
        _ => false,
    }
}

fn read_altitude(ts: &Vec<ExifTag>) -> (r: Option<i32>)
    ensures
        r == exif_altitude(exif_views(ts@)),
{
    match find_exif(ts, IfdKind::Gps, GPS_ALT) {
        Some(Value::Rational(n, d)) => {
            if *d == 0 {
                return None;
            }
            let neg: bool = match find_exif(ts, IfdKind::Gps, GPS_ALT_REF) {
                Some(Value::Bytes(b)) => b.len() > 0 && b[0] == 1,
                _ => false,
            };
            meters_to_mm(Double::ratio(*n, *d), neg)
        },
        _ => None,
    }
}

/// Takes the place from EXIF.
pub fn gps_from_exif(ts: &Vec<ExifTag>) -> (r: Option<Gps>)
    ensures
        r == exif_gps(exif_views(ts@)),
{
    match (find_exif(ts, IfdKind::Gps, GPS_LAT), find_exif(ts, IfdKind::Gps, GPS_LON)) {
        (Some(lat), Some(lon)) => {
            match (
                read_degrees(lat, is_ref(ts, GPS_LAT_REF, 'S', 's')),
                read_degrees(lon, is_ref(ts, GPS_LON_REF, 'W', 'w')),
            ) {
                (Some(lat_e7), Some(lon_e7)) => Some(
                    Gps { lat_e7, lon_e7, alt_mm: read_altitude(ts) },
                ),
                _ => None,
            }
        },
        _ => None,
    }
}

/// Takes the place from XMP.
pub fn gps_from_xmp(raw: &RawTags) -> (r: Option<Gps>)
    ensures
        r == xmp_gps(all_xmp(raw@)),
{
    match (find_xmp(raw, "exif", "GPSLatitude"), find_xmp(raw, "exif", "GPSLongitude")) {
        (Some(lat), Some(lon)) => match (parse_xmp_coord(lat), parse_xmp_coord(lon)) {
            (Some(lat_e7), Some(lon_e7)) => Some(Gps { lat_e7, lon_e7, alt_mm: None }),
            _ => None,
        },
        _ => None,
    }
}

fn created_from_exif(ts: &Vec<ExifTag>) -> (r: Option<DateTimeParts>)
    ensures
        r == exif_created(exif_views(ts@)),
{
    let original = find_exif_text(ts, IfdKind::Exif, TAG_DATETIME_ORIGINAL);
    let (text, offset) = match original {
        Some(_) => (original, find_exif_text(ts, IfdKind::Exif, TAG_OFFSET_TIME_ORIGINAL)),
        None => (
            find_exif_text(ts, IfdKind::Primary, TAG_DATETIME),
            find_exif_text(ts, IfdKind::Exif, TAG_OFFSET_TIME),
        ),
    };
    match text {
        Some(s) => match parse_exif_datetime(s) {
            Some(t) => {
                let tz = match offset {
                    Some(o) => parse_exif_offset(o),
                    None => None,
                };
                Some(
                    DateTimeParts {
                        year: t.year,
                        month: t.month,
                        day: t.day,
                        hour: t.hour,
                        minute: t.minute,
                        second: t.second,
                        tz_offset_min: tz,
                    },
                )
            },
            None => None,
        },
        None => None,
    }
}

fn find_mdta<'a>(raw: &'a RawTags, key: &str) -> (r: Option<&'a str>)
    ensures
        opt_str(r) == mdta(raw@, key@),
{
    find_container(&raw.container, ContainerSource::QuickTimeMdta, key)
}

fn find_primary<'a>(raw: &'a RawTags, tag: u16) -> (r: Option<&'a str>)
    ensures
        opt_str(r) == primary(raw@, tag),
{
    find_exif_text(&raw.exif, IfdKind::Primary, tag)
}

fn created_of(raw: &RawTags, structural: &StructuralFields) -> (r: Option<DateTimeParts>)
    ensures
        r == unified(raw@, structural@).created,
{
    match find_mdta(raw, "com.apple.quicktime.creationdate") {
        Some(s) => {
            match parse_iso8601(s) {
                Some(t) => return Some(t),
                None => {},
            }
        },
        None => {},
    }
    match structural.created {
        Some(t) => return Some(t),
        None => {},
    }
    match created_from_exif(&raw.exif) {
        Some(t) => return Some(t),
        None => {},
    }
    match find_png(&raw.text, "Creation Time") {
        Some(s) => parse_png_creation_time(s),
        None => None,
    }
}

/// The number of an XMP property of the file, else of a sidecar.
fn number_of(raw: &RawTags, name: &str) -> (r: Option<u32>)
    ensures
        r == xmp_number(all_xmp(raw@), "tiff"@, name@),
{
    proof {
        lemma_xmp_number_split(raw@.xmp, raw@.xmp_sidecar, "tiff"@, name@);
    }
    match find_number(&raw.xmp, "tiff", name) {
        Some(v) => Some(v),
        None => find_number(&raw.xmp_sidecar, "tiff", name),
    }
}

fn copied(s: &Option<String>) -> (r: Option<&str>)
    ensures
        opt_str(r) == opt_text(*s),
{
    match s {
        Some(s) => Some(s.as_str()),
        None => None,
    }
}

/// Derives the unified fields from the raw tags and the structural fields. A value that is
/// there but not defined is dropped with a warning.
pub fn normalize(
    raw: &RawTags,
    structural: &StructuralFields,
    warnings: &mut Vec<Warning>,
) -> (r: Unified)
    ensures
        r@ == unified(raw@, structural@),
        final(warnings)@ == old(warnings)@ + value_warnings(raw@),
{
    let ghost before = warnings@;
    let exif_o = read_orientation(&raw.exif, warnings);
    let orientation = match exif_o {
        Some(o) => Some(o),
        None => {
            proof {
                lemma_xmp_orientation_split(raw@.xmp, raw@.xmp_sidecar);
            }
            match find_orientation(&raw.xmp) {
                Some(o) => Some(o),
                None => find_orientation(&raw.xmp_sidecar),
            }
        },
    };
    let exif_place = gps_from_exif(&raw.exif);
    if exif_place.is_none() && (find_exif(&raw.exif, IfdKind::Gps, GPS_LAT).is_some() || find_exif(
        &raw.exif,
        IfdKind::Gps,
        GPS_LON,
    ).is_some()) {
        warnings.push(Warning { offset: 0, kind: WarnKind::UnrecognizedValue });
    }
    assert(warnings@ =~= before + value_warnings(raw@));
    let gps = match structural.gps {
        Some(g) => Some(g),
        None => match exif_place {
            Some(g) => Some(g),
            None => gps_from_xmp(raw),
        },
    };
    let width = match structural.width {
        Some(w) => Some(w),
        None => number_of(raw, "ImageWidth"),
    };
    let height = match structural.height {
        Some(h) => Some(h),
        None => number_of(raw, "ImageLength"),
    };
    let make = or_str(
        copied(&structural.camera_make),
        or_str(
            find_mdta(raw, "com.apple.quicktime.make"),
            or_str(find_primary(raw, TAG_MAKE), find_xmp(raw, "tiff", "Make")),
        ),
    );
    let model = or_str(
        copied(&structural.camera_model),
        or_str(
            find_mdta(raw, "com.apple.quicktime.model"),
            or_str(find_primary(raw, TAG_MODEL), find_xmp(raw, "tiff", "Model")),
        ),
    );
    let software = or_str(
        find_mdta(raw, "com.apple.quicktime.software"),
        or_str(
            find_container(&raw.container, ContainerSource::Udta, "\u{a9}swr"),
            or_str(
                find_primary(raw, TAG_SOFTWARE),
                or_str(find_xmp(raw, "xmp", "CreatorTool"), find_png(&raw.text, "Software")),
            ),
        ),
    );
    let creator = or_str(
        find_mdta(raw, "com.apple.quicktime.author"),
        or_str(
            find_container(&raw.container, ContainerSource::Udta, "\u{a9}aut"),
            or_str(
                find_primary(raw, TAG_ARTIST),
                or_str(find_xmp(raw, "dc", "creator"), find_png(&raw.text, "Author")),
            ),
        ),
    );
    let title = or_str(find_xmp(raw, "dc", "title"), find_png(&raw.text, "Title"));
    let description = or_str(
        find_primary(raw, TAG_IMAGE_DESCRIPTION),
        or_str(find_xmp(raw, "dc", "description"), find_png(&raw.text, "Description")),
    );
    let copyright = or_str(
        find_primary(raw, TAG_COPYRIGHT),
        or_str(find_xmp(raw, "dc", "rights"), find_png(&raw.text, "Copyright")),
    );
    Unified {
        width,
        height,
        orientation,
        camera_make: owned(make),
        camera_model: owned(model),
        duration_ms: structural.duration_ms,
        created: created_of(raw, structural),
        gps,
        software: owned(software),
        creator: owned(creator),
        title: owned(title),
        description: owned(description),
        copyright: owned(copyright),
    }
}

} // verus!
