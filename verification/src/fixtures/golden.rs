//! What real sample files hold. A sample names its file, and says what must be found in it;
//! more may be found.
use vstd::prelude::*;

use crate::compare::{same_text, same_value};
use crate::model::{
    container_views, exif_views, text_views, xmp_views, ContainerSource, ContainerTagView,
    DateTimeParts, ExifTagView, FileFormat, Gps, IfdKind, Metadata, MetadataView, Orientation,
    RawTags, RawView, TextTagView, TextValue, TextValueView, Unified, UnifiedView, Value,
    ValueView, XmpView,
};
use crate::text::str_eq;

verus! {

/// A raw tag that must be there with this value.
#[derive(Debug, Clone)]
pub enum GoldenRawTag {
    Exif { ifd: IfdKind, tag: u16, value: Value },
    Xmp { prefix: &'static str, name: &'static str, value: &'static str },
    Container { source: ContainerSource, key: &'static str, value: Value },
    Text { keyword: &'static str, value: &'static str },
}

pub enum GoldenTagView {
    Exif(ExifTagView),
    Xmp(XmpView),
    Container(ContainerTagView),
    Text { keyword: Seq<char>, value: Seq<char> },
}

impl View for GoldenRawTag {
    type V = GoldenTagView;

    open spec fn view(&self) -> GoldenTagView {
        match *self {
            GoldenRawTag::Exif { ifd, tag, value } => GoldenTagView::Exif(
                ExifTagView { ifd, tag, value: value@ },
            ),
            GoldenRawTag::Xmp { prefix, name, value } => GoldenTagView::Xmp(
                XmpView { prefix: prefix@, name: name@, value: value@ },
            ),
            GoldenRawTag::Container { source, key, value } => GoldenTagView::Container(
                ContainerTagView { source, key: key@, value: value@ },
            ),
            GoldenRawTag::Text { keyword, value } => GoldenTagView::Text {
                keyword: keyword@,
                value: value@,
            },
        }
    }
}

/// A sample file, and what must be found in it. Fields that are `None` say nothing.
#[derive(Debug)]
pub struct GoldenSample {
    pub name: &'static str,
    /// The file that holds the sample's bytes.
    pub file: &'static str,
    pub format: FileFormat,
    pub unified: Unified,
    pub raw_subset: Vec<GoldenRawTag>,
}

pub struct GoldenView {
    pub name: Seq<char>,
    pub file: Seq<char>,
    pub format: FileFormat,
    pub unified: UnifiedView,
    pub raw_subset: Seq<GoldenTagView>,
}

pub open spec fn golden_tag_views(s: Seq<GoldenRawTag>) -> Seq<GoldenTagView> {
    Seq::new(s.len(), |i: int| s[i]@)
}

impl View for GoldenSample {
    type V = GoldenView;

    open spec fn view(&self) -> GoldenView {
        GoldenView {
            name: self.name@,
            file: self.file@,
            format: self.format,
            unified: self.unified@,
            raw_subset: golden_tag_views(self.raw_subset@),
        }
    }
}

/// Unified fields that say nothing.
pub open spec fn unsaid() -> UnifiedView {
    UnifiedView {
        width: None,
        height: None,
        orientation: None,
        camera_make: None,
        camera_model: None,
        duration_ms: None,
        created: None,
        gps: None,
        software: None,
        creator: None,
        title: None,
        description: None,
        copyright: None,
    }
}

pub open spec fn make_tag(tag: u16, text: Seq<char>) -> GoldenTagView {
    GoldenTagView::Exif(ExifTagView { ifd: IfdKind::Primary, tag, value: ValueView::Text(text) })
}

pub open spec fn creator_tag() -> GoldenTagView {
    GoldenTagView::Xmp(XmpView { prefix: "dc"@, name: "creator"@, value: "GoldenAuthor"@ })
}

pub open spec fn jpeg_sample() -> GoldenView {
    GoldenView {
        name: "jpeg_exif_gps"@,
        file: "jpeg_exif_gps.jpg"@,
        format: FileFormat::Jpeg,
        unified: UnifiedView {
            width: Some(64),
            height: Some(48),
            orientation: Some(Orientation::Rotate90),
            camera_make: Some("OmniTest"@),
            camera_model: Some("GoldenCam"@),
            created: Some(
                DateTimeParts {
                    year: 2020,
                    month: 1,
                    day: 2,
                    hour: 3,
                    minute: 4,
                    second: 5,
                    tz_offset_min: None,
                },
            ),
            gps: Some(Gps { lat_e7: 355_000_000, lon_e7: 1_395_000_000, alt_mm: None }),
            ..unsaid()
        },
        raw_subset: seq![make_tag(0x010F, "OmniTest"@), make_tag(0x0110, "GoldenCam"@)],
    }
}

pub open spec fn png_sample() -> GoldenView {
    GoldenView {
        name: "png_exif"@,
        file: "png_exif.png"@,
        format: FileFormat::Png,
        unified: UnifiedView {
            width: Some(80),
            height: Some(60),
            creator: Some("GoldenAuthor"@),
            ..unsaid()
        },
        raw_subset: seq![creator_tag()],
    }
}

pub open spec fn gif_sample() -> GoldenView {
    GoldenView {
        name: "gif_xmp"@,
        file: "gif_xmp.gif"@,
        format: FileFormat::Gif,
        unified: UnifiedView {
            width: Some(48),
            height: Some(32),
            creator: Some("GoldenAuthor"@),
            ..unsaid()
        },
        raw_subset: seq![creator_tag()],
    }
}

pub open spec fn webp_sample() -> GoldenView {
    GoldenView {
        name: "webp_exif"@,
        file: "webp_exif.webp"@,
        format: FileFormat::Webp,
        unified: UnifiedView {
            width: Some(72),
            height: Some(54),
            camera_make: Some("OmniTest"@),
            ..unsaid()
        },
        raw_subset: seq![make_tag(0x010F, "OmniTest"@)],
    }
}

fn exif_text(tag: u16, text: &'static str) -> (r: GoldenRawTag)
    ensures
        r@ == make_tag(tag, text@),
{
    GoldenRawTag::Exif { ifd: IfdKind::Primary, tag, value: Value::Text(text.to_owned()) }
}

fn creator_property() -> (r: GoldenRawTag)
    ensures
        r@ == creator_tag(),
{
    GoldenRawTag::Xmp { prefix: "dc", name: "creator", value: "GoldenAuthor" }
}

fn jpeg_exif_gps() -> (r: GoldenSample)
    ensures
        r@ == jpeg_sample(),
{
    let mut unified = Unified::default();
    unified.width = Some(64);
    unified.height = Some(48);
    unified.orientation = Some(Orientation::Rotate90);
    unified.camera_make = Some("OmniTest".to_owned());
    unified.camera_model = Some("GoldenCam".to_owned());
    unified.created = Some(
        DateTimeParts {
            year: 2020,
            month: 1,
            day: 2,
            hour: 3,
            minute: 4,
            second: 5,
            tz_offset_min: None,
        },
    );
    unified.gps = Some(Gps { lat_e7: 355_000_000, lon_e7: 1_395_000_000, alt_mm: None });
    let mut raw_subset: Vec<GoldenRawTag> = Vec::new();
    raw_subset.push(exif_text(0x010F, "OmniTest"));
    raw_subset.push(exif_text(0x0110, "GoldenCam"));
    assert(golden_tag_views(raw_subset@) =~= jpeg_sample().raw_subset);
    GoldenSample {
        name: "jpeg_exif_gps",
        file: "jpeg_exif_gps.jpg",
        format: FileFormat::Jpeg,
        unified,
        raw_subset,
    }
}

fn png_exif() -> (r: GoldenSample)
    ensures
        r@ == png_sample(),
{
    let mut unified = Unified::default();
    unified.width = Some(80);
    unified.height = Some(60);
    unified.creator = Some("GoldenAuthor".to_owned());
    let mut raw_subset: Vec<GoldenRawTag> = Vec::new();
    raw_subset.push(creator_property());
    assert(golden_tag_views(raw_subset@) =~= png_sample().raw_subset);
    GoldenSample {
        name: "png_exif",
        file: "png_exif.png",
        format: FileFormat::Png,
        unified,
        raw_subset,
    }
}

fn gif_xmp() -> (r: GoldenSample)
    ensures
        r@ == gif_sample(),
{
    let mut unified = Unified::default();
    unified.width = Some(48);
    unified.height = Some(32);
    unified.creator = Some("GoldenAuthor".to_owned());
    let mut raw_subset: Vec<GoldenRawTag> = Vec::new();
    raw_subset.push(creator_property());
    assert(golden_tag_views(raw_subset@) =~= gif_sample().raw_subset);
    GoldenSample {
        name: "gif_xmp",
        file: "gif_xmp.gif",
        format: FileFormat::Gif,
        unified,
        raw_subset,
    }
}

fn webp_exif() -> (r: GoldenSample)
    ensures
        r@ == webp_sample(),
{
    let mut unified = Unified::default();
    unified.width = Some(72);
    unified.height = Some(54);
    unified.camera_make = Some("OmniTest".to_owned());
    let mut raw_subset: Vec<GoldenRawTag> = Vec::new();
    raw_subset.push(exif_text(0x010F, "OmniTest"));
    assert(golden_tag_views(raw_subset@) =~= webp_sample().raw_subset);
    GoldenSample {
        name: "webp_exif",
        file: "webp_exif.webp",
        format: FileFormat::Webp,
        unified,
        raw_subset,
    }
}

/// All of the samples.
pub fn golden_corpus() -> (r: Vec<GoldenSample>)
    ensures
        r@.len() == 4,
        r@[0]@ == jpeg_sample(),
        r@[1]@ == png_sample(),
        r@[2]@ == gif_sample(),
        r@[3]@ == webp_sample(),
{
    vec![jpeg_exif_gps(), png_exif(), gif_xmp(), webp_exif()]
}

/// What is asked for, if anything, is what was found.
pub open spec fn met<T>(wanted: Option<T>, found: Option<T>) -> bool {
    wanted is Some ==> wanted == found
}

/// The unified fields hold all that is asked for.
pub open spec fn unified_met(wanted: UnifiedView, found: UnifiedView) -> bool {
    &&& met(wanted.width, found.width)
    &&& met(wanted.height, found.height)
    &&& met(wanted.orientation, found.orientation)
    &&& met(wanted.camera_make, found.camera_make)
    &&& met(wanted.camera_model, found.camera_model)
    &&& met(wanted.duration_ms, found.duration_ms)
    &&& met(wanted.created, found.created)
    &&& met(wanted.gps, found.gps)
    &&& met(wanted.software, found.software)
    &&& met(wanted.creator, found.creator)
}

/// The raw tags hold the tag. A text counts whatever its encoding, unless it is compressed.
pub open spec fn tag_met(wanted: GoldenTagView, raw: RawView) -> bool {
    match wanted {
        GoldenTagView::Exif(t) => raw.exif.contains(t),
        GoldenTagView::Xmp(p) => raw.xmp.contains(p),
        GoldenTagView::Container(c) => raw.container.contains(c),
        GoldenTagView::Text { keyword, value } => {
            ||| raw.text.contains(TextTagView { keyword, value: TextValueView::Latin1(value) })
            ||| raw.text.contains(TextTagView { keyword, value: TextValueView::Utf8(value) })
        },
    }
}

/// All that the sample asks for was found.
pub open spec fn sample_met(s: GoldenView, m: MetadataView) -> bool {
    &&& m.format == s.format
    &&& unified_met(s.unified, m.unified)
    &&& forall|i: int|
        0 <= i < s.raw_subset.len() ==> tag_met(#[trigger] s.raw_subset[i], m.raw)
}

fn text_met(wanted: &Option<String>, found: &Option<String>) -> (r: bool)
    ensures
        r == met(crate::model::opt_text(*wanted), crate::model::opt_text(*found)),
{
    wanted.is_none() || same_text(wanted, found)
}

/// Whether the unified fields hold all that is asked for.
pub fn holds_unified(wanted: &Unified, found: &Unified) -> (r: bool)
    ensures
        r == unified_met(wanted@, found@),
{
    (wanted.width.is_none() || wanted.width == found.width) && (wanted.height.is_none()
        || wanted.height == found.height) && (wanted.orientation.is_none() || wanted.orientation
        == found.orientation) && text_met(&wanted.camera_make, &found.camera_make) && text_met(
        &wanted.camera_model,
        &found.camera_model,
    ) && (wanted.duration_ms.is_none() || wanted.duration_ms == found.duration_ms) && (
    wanted.created.is_none() || wanted.created == found.created) && (wanted.gps.is_none()
        || wanted.gps == found.gps) && text_met(&wanted.software, &found.software) && text_met(
        &wanted.creator,
        &found.creator,
    )
}

fn is_exif(raw: &RawTags, i: usize, ifd: IfdKind, tag: u16, value: &Value) -> (r: bool)
    requires
        i < raw.exif@.len(),
    ensures
        r == (exif_views(raw.exif@)[i as int] == (ExifTagView { ifd, tag, value: value@ })),
{
    let t = &raw.exif[i];
    t.ifd == ifd && t.tag == tag && same_value(&t.value, value)
}

fn holds_exif(raw: &RawTags, ifd: IfdKind, tag: u16, value: &Value) -> (r: bool)
    ensures
        r == raw@.exif.contains(ExifTagView { ifd, tag, value: value@ }),
{
    let ghost want = ExifTagView { ifd, tag, value: value@ };
    let mut i: usize = 0;
    while i < raw.exif.len()
        invariant
            i <= raw.exif@.len(),
            want == (ExifTagView { ifd, tag, value: value@ }),
            forall|j: int| 0 <= j < i ==> #[trigger] exif_views(raw.exif@)[j] != want,
        decreases raw.exif@.len() - i,
    {
        if is_exif(raw, i, ifd, tag, value) {
            assert(raw@.exif[i as int] == want);
            return true;
        }
        i += 1;
    }
    false
}

fn holds_xmp(raw: &RawTags, prefix: &str, name: &str, value: &str) -> (r: bool)
    ensures
        r == raw@.xmp.contains(XmpView { prefix: prefix@, name: name@, value: value@ }),
{
    let ghost want = XmpView { prefix: prefix@, name: name@, value: value@ };
    let mut i: usize = 0;
    while i < raw.xmp.len()
        invariant
            i <= raw.xmp@.len(),
            want == (XmpView { prefix: prefix@, name: name@, value: value@ }),
            forall|j: int| 0 <= j < i ==> #[trigger] xmp_views(raw.xmp@)[j] != want,
        decreases raw.xmp@.len() - i,
    {
        let p = &raw.xmp[i];
        if str_eq(p.prefix.as_str(), prefix) && str_eq(p.name.as_str(), name) && str_eq(
            p.value.as_str(),
            value,
        ) {
            assert(raw@.xmp[i as int] == want);
            return true;
        }
        i += 1;
    }
    false
}

fn holds_container(raw: &RawTags, source: ContainerSource, key: &str, value: &Value) -> (r: bool)
    ensures
        r == raw@.container.contains(ContainerTagView { source, key: key@, value: value@ }),
{
    let ghost want = ContainerTagView { source, key: key@, value: value@ };
    let mut i: usize = 0;
    while i < raw.container.len()
        invariant
            i <= raw.container@.len(),
            want == (ContainerTagView { source, key: key@, value: value@ }),
            forall|j: int| 0 <= j < i ==> #[trigger] container_views(raw.container@)[j] != want,
        decreases raw.container@.len() - i,
    {
        let c = &raw.container[i];
        if c.source == source && str_eq(c.key.as_str(), key) && same_value(&c.value, value) {
            assert(raw@.container[i as int] == want);
            return true;
        }
        i += 1;
    }
    false
}

fn holds_text(raw: &RawTags, keyword: &str, value: &str) -> (r: bool)
    ensures
        r == tag_met(GoldenTagView::Text { keyword: keyword@, value: value@ }, raw@),
{
    let ghost narrow = TextTagView { keyword: keyword@, value: TextValueView::Latin1(value@) };
    let ghost wide = TextTagView { keyword: keyword@, value: TextValueView::Utf8(value@) };
    let mut i: usize = 0;
    while i < raw.text.len()
        invariant
            i <= raw.text@.len(),
            narrow == (TextTagView { keyword: keyword@, value: TextValueView::Latin1(value@) }),
            wide == (TextTagView { keyword: keyword@, value: TextValueView::Utf8(value@) }),
            forall|j: int|
                0 <= j < i ==> #[trigger] text_views(raw.text@)[j] != narrow && text_views(
                    raw.text@,
                )[j] != wide,
        decreases raw.text@.len() - i,
    {
        let t = &raw.text[i];
        let hit = match &t.value {
            TextValue::Latin1(s) => str_eq(s.as_str(), value),
            TextValue::Utf8(s) => str_eq(s.as_str(), value),
            _ => false,
        };
        if hit && str_eq(t.keyword.as_str(), keyword) {
            assert(raw@.text[i as int] == narrow || raw@.text[i as int] == wide);
            return true;
        }
        i += 1;
    }
    false
}

/// Whether the raw tags hold the tag.
pub fn holds_tag(wanted: &GoldenRawTag, raw: &RawTags) -> (r: bool)
    ensures
        r == tag_met(wanted@, raw@),
{
    match wanted {
        GoldenRawTag::Exif { ifd, tag, value } => holds_exif(raw, *ifd, *tag, value),
        GoldenRawTag::Xmp { prefix, name, value } => holds_xmp(raw, prefix, name, value),
        GoldenRawTag::Container { source, key, value } => holds_container(
            raw,
            *source,
            key,
            value,
        ),
        GoldenRawTag::Text { keyword, value } => holds_text(raw, keyword, value),
    }
}

/// Whether all that the sample asks for was found.
pub fn holds_sample(s: &GoldenSample, m: &Metadata) -> (r: bool)
    ensures
        r == sample_met(s@, m@),
{
    if m.format != s.format || !holds_unified(&s.unified, &m.unified) {
        return false;
    }
    let mut i: usize = 0;
    while i < s.raw_subset.len()
        invariant
            i <= s.raw_subset@.len(),
            forall|j: int| 0 <= j < i ==> tag_met(#[trigger] s@.raw_subset[j], m.raw@),
        decreases s.raw_subset@.len() - i,
    {
        if !holds_tag(&s.raw_subset[i], &m.raw) {
            assert(!tag_met(s@.raw_subset[i as int], m@.raw));
            return false;
        }
        i += 1;
    }
    true
}

} // verus!
