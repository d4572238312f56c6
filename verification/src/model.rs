//! The two layers of the result: raw tags as found, and unified fields derived
//! from them. Each type that holds text or lists has a view over sequences.
use vstd::prelude::*;

verus! {

#[derive(Debug, Clone, Copy, PartialEq, Eq, Structural)]
pub enum FileFormat {
    Jpeg,
    Png,
    Webp,
    Gif,
    Heif,
    Avif,
    Mp4,
    Mov,
    Mkv,
    Webm,
    Unknown,
}

impl Default for FileFormat {
    fn default() -> (r: Self)
        ensures
            r == FileFormat::Unknown,
    {
        FileFormat::Unknown
    }
}

/// The EXIF orientations, numbered from one in this order.
#[derive(Debug, Clone, Copy, PartialEq, Eq, Structural)]
pub enum Orientation {
    Normal,
    FlipH,
    Rotate180,
    FlipV,
    Transpose,
    Rotate90,
    Transverse,
    Rotate270,
}

/// The orientation with the EXIF number `v`.
pub open spec fn orientation_of(v: u16) -> Option<Orientation> {
    if v == 1 {
        Some(Orientation::Normal)
    } else if v == 2 {
        Some(Orientation::FlipH)
    } else if v == 3 {
        Some(Orientation::Rotate180)
    } else if v == 4 {
        Some(Orientation::FlipV)
    } else if v == 5 {
        Some(Orientation::Transpose)
    } else if v == 6 {
        Some(Orientation::Rotate90)
    } else if v == 7 {
        Some(Orientation::Transverse)
    } else if v == 8 {
        Some(Orientation::Rotate270)
    } else {
        None
    }
}

impl Orientation {
    pub fn from_u16(v: u16) -> (r: Option<Self>)
        ensures
            r == orientation_of(v),
            r is Some <==> 1 <= v <= 8,
    {
        match v {
            1 => Some(Orientation::Normal),
            2 => Some(Orientation::FlipH),
            3 => Some(Orientation::Rotate180),
            4 => Some(Orientation::FlipV),
            5 => Some(Orientation::Transpose),
            6 => Some(Orientation::Rotate90),
            7 => Some(Orientation::Transverse),
            8 => Some(Orientation::Rotate270),
            _ => None,
        }
    }
}

/// A typed tag value.
#[derive(Debug, PartialEq, Eq)]
pub enum Value {
    U16(u16),
    U32(u32),
    Text(String),
    /// Numerator and denominator.
    Rational(u32, u32),
    /// Numerator and denominator.
    SRational(i32, i32),
    Bytes(Vec<u8>),
    /// Several numbers of one type.
    List(Vec<Value>),
}

pub enum ValueView {
    U16(u16),
    U32(u32),
    Text(Seq<char>),
    Rational(u32, u32),
    SRational(i32, i32),
    Bytes(Seq<u8>),
    List(Seq<ValueView>),
}

impl Value {
    pub open spec fn model(self) -> ValueView
        decreases self,
    {
        match self {
            Value::U16(v) => ValueView::U16(v),
            Value::U32(v) => ValueView::U32(v),
            Value::Text(s) => ValueView::Text(s@),
            Value::Rational(n, d) => ValueView::Rational(n, d),
            Value::SRational(n, d) => ValueView::SRational(n, d),
            Value::Bytes(b) => ValueView::Bytes(b@),
            Value::List(v) => ValueView::List(
                Seq::new(
                    v@.len(),
                    |i: int|
                        if 0 <= i < v@.len() {
                            v@[i].model()
                        } else {
                            arbitrary()
                        },
                ),
            ),
        }
    }
}

impl Clone for Value {
    fn clone(&self) -> (r: Self)
        ensures
            r@ == self@,
        decreases self,
    {
        match self {
            Value::U16(v) => Value::U16(*v),
            Value::U32(v) => Value::U32(*v),
            Value::Text(s) => Value::Text(s.clone()),
            Value::Rational(n, d) => Value::Rational(*n, *d),
            Value::SRational(n, d) => Value::SRational(*n, *d),
            Value::Bytes(b) => Value::Bytes(vstd::slice::slice_to_vec(b.as_slice())),
            Value::List(items) => {
                let mut out: Vec<Value> = Vec::new();
                let mut i: usize = 0;
                while i < items.len()
                    invariant
                        i <= items@.len(),
                        out@.len() == i,
                        decreases_to!(self => items@),
                        forall|j: int| 0 <= j < i ==> (#[trigger] out@[j])@ == items@[j]@,
                    decreases items@.len() - i,
                {
                    assert(decreases_to!(items@ => items@[i as int]));
                    out.push(items[i].clone());
                    i += 1;
                }
                let r = Value::List(out);
                assert(r@->List_0 =~= self@->List_0);
                r
            },
        }
    }
}

impl View for Value {
    type V = ValueView;

    open spec fn view(&self) -> ValueView {
        self.model()
    }
}

/// A civil point in time. `tz_offset_min` is the offset from UTC in minutes, where
/// the source gives one.
#[derive(Debug, Clone, Copy, PartialEq, Eq, Structural)]
pub struct DateTimeParts {
    pub year: u16,
    pub month: u8,
    pub day: u8,
    pub hour: u8,
    pub minute: u8,
    pub second: u8,
    pub tz_offset_min: Option<i16>,
}

/// A place: degrees times ten million, and height in millimetres above sea level.
#[derive(Debug, Clone, Copy, PartialEq, Eq, Structural)]
pub struct Gps {
    pub lat_e7: i32,
    pub lon_e7: i32,
    pub alt_mm: Option<i32>,
}

/// Where a container tag was found.
#[derive(Debug, Clone, Copy, PartialEq, Eq, Structural)]
pub enum ContainerSource {
    /// QuickTime `moov/meta/ilst`; the key is the full reverse-DNS name.
    QuickTimeMdta,
    /// QuickTime `moov/udta`; the key is the four-character code of a `©` atom.
    Udta,
}

/// A tag native to a container.
#[derive(Debug, Clone, PartialEq, Eq)]
pub struct ContainerTag {
    pub source: ContainerSource,
    pub key: String,
    pub value: Value,
}

pub struct ContainerTagView {
    pub source: ContainerSource,
    pub key: Seq<char>,
    pub value: ValueView,
}

impl View for ContainerTag {
    type V = ContainerTagView;

    open spec fn view(&self) -> ContainerTagView {
        ContainerTagView { source: self.source, key: self.key@, value: self.value@ }
    }
}

/// A field that a parser reads straight from a header.
#[derive(Debug, Clone, PartialEq, Eq)]
pub enum Field {
    Width(u32),
    Height(u32),
    /// Length of the media in milliseconds.
    Duration(u64),
    Created(DateTimeParts),
    Gps(Gps),
    CameraMake(String),
    CameraModel(String),
}

pub enum FieldView {
    Width(u32),
    Height(u32),
    Duration(u64),
    Created(DateTimeParts),
    Gps(Gps),
    CameraMake(Seq<char>),
    CameraModel(Seq<char>),
}

impl View for Field {
    type V = FieldView;

    open spec fn view(&self) -> FieldView {
        match *self {
            Field::Width(w) => FieldView::Width(w),
            Field::Height(h) => FieldView::Height(h),
            Field::Duration(d) => FieldView::Duration(d),
            Field::Created(c) => FieldView::Created(c),
            Field::Gps(g) => FieldView::Gps(g),
            Field::CameraMake(s) => FieldView::CameraMake(s@),
            Field::CameraModel(s) => FieldView::CameraModel(s@),
        }
    }
}

/// One XMP property under its customary prefix; namespaces are not resolved.
#[derive(Debug, Clone, PartialEq, Eq)]
pub struct XmpProperty {
    pub prefix: String,
    pub name: String,
    pub value: String,
}

pub struct XmpView {
    pub prefix: Seq<char>,
    pub name: Seq<char>,
    pub value: Seq<char>,
}

impl View for XmpProperty {
    type V = XmpView;

    open spec fn view(&self) -> XmpView {
        XmpView { prefix: self.prefix@, name: self.name@, value: self.value@ }
    }
}

/// One keyword and value of a PNG text chunk.
#[derive(Debug, Clone, PartialEq, Eq)]
pub struct TextTag {
    pub keyword: String,
    pub value: TextValue,
}

/// A PNG text value. Compressed values are kept as the bytes found.
#[derive(Debug, Clone, PartialEq, Eq)]
pub enum TextValue {
    Latin1(String),
    Utf8(String),
    CompressedLatin1(Vec<u8>),
    CompressedUtf8(Vec<u8>),
}

pub struct TextTagView {
    pub keyword: Seq<char>,
    pub value: TextValueView,
}

pub enum TextValueView {
    Latin1(Seq<char>),
    Utf8(Seq<char>),
    CompressedLatin1(Seq<u8>),
    CompressedUtf8(Seq<u8>),
}

impl View for TextValue {
    type V = TextValueView;

    open spec fn view(&self) -> TextValueView {
        match *self {
            TextValue::Latin1(s) => TextValueView::Latin1(s@),
            TextValue::Utf8(s) => TextValueView::Utf8(s@),
            TextValue::CompressedLatin1(b) => TextValueView::CompressedLatin1(b@),
            TextValue::CompressedUtf8(b) => TextValueView::CompressedUtf8(b@),
        }
    }
}

impl View for TextTag {
    type V = TextTagView;

    open spec fn view(&self) -> TextTagView {
        TextTagView { keyword: self.keyword@, value: self.value@ }
    }
}

/// The directory that an EXIF tag belongs to.
#[derive(Debug, Clone, Copy, PartialEq, Eq, Structural)]
pub enum IfdKind {
    /// The first directory.
    Primary,
    /// The directory linked from the first one.
    Thumbnail,
    /// The directory that tag 0x8769 points to.
    Exif,
    /// The directory that tag 0x8825 points to.
    Gps,
    /// The directory that tag 0xA005 points to.
    Interop,
}

#[derive(Debug, Clone, PartialEq, Eq)]
pub struct ExifTag {
    pub ifd: IfdKind,
    pub tag: u16,
    pub value: Value,
}

pub struct ExifTagView {
    pub ifd: IfdKind,
    pub tag: u16,
    pub value: ValueView,
}

impl View for ExifTag {
    type V = ExifTagView;

    open spec fn view(&self) -> ExifTagView {
        ExifTagView { ifd: self.ifd, tag: self.tag, value: self.value@ }
    }
}

/// What the parsers read from binary headers, as opposed to text tags. Kept beside
/// the raw tags, so that the unified fields can be derived anew.
#[derive(Debug, Clone, PartialEq, Eq)]
pub struct StructuralFields {
    pub width: Option<u32>,
    pub height: Option<u32>,
    pub duration_ms: Option<u64>,
    pub created: Option<DateTimeParts>,
    pub gps: Option<Gps>,
    pub camera_make: Option<String>,
    pub camera_model: Option<String>,
}

pub struct StructuralView {
    pub width: Option<u32>,
    pub height: Option<u32>,
    pub duration_ms: Option<u64>,
    pub created: Option<DateTimeParts>,
    pub gps: Option<Gps>,
    pub camera_make: Option<Seq<char>>,
    pub camera_model: Option<Seq<char>>,
}

/// The characters of an optional string.
pub open spec fn opt_text(o: Option<String>) -> Option<Seq<char>> {
    match o {
        Some(s) => Some(s@),
        None => None,
    }
}

impl View for StructuralFields {
    type V = StructuralView;

    open spec fn view(&self) -> StructuralView {
        StructuralView {
            width: self.width,
            height: self.height,
            duration_ms: self.duration_ms,
            created: self.created,
            gps: self.gps,
            camera_make: opt_text(self.camera_make),
            camera_model: opt_text(self.camera_model),
        }
    }
}

pub open spec fn no_structural() -> StructuralView {
    StructuralView {
        width: None,
        height: None,
        duration_ms: None,
        created: None,
        gps: None,
        camera_make: None,
        camera_model: None,
    }
}

impl Default for StructuralFields {
    fn default() -> (r: Self)
        ensures
            r@ == no_structural(),
    {
        StructuralFields {
            width: None,
            height: None,
            duration_ms: None,
            created: None,
            gps: None,
            camera_make: None,
            camera_model: None,
        }
    }
}

/// The raw tags, by origin.
#[derive(Debug, Clone, PartialEq, Eq)]
pub struct RawTags {
    pub exif: Vec<ExifTag>,
    pub xmp: Vec<XmpProperty>,
    /// Properties of `.xmp` files that stand beside the image.
    pub xmp_sidecar: Vec<XmpProperty>,
    pub container: Vec<ContainerTag>,
    pub text: Vec<TextTag>,
}

pub struct RawView {
    pub exif: Seq<ExifTagView>,
    pub xmp: Seq<XmpView>,
    pub xmp_sidecar: Seq<XmpView>,
    pub container: Seq<ContainerTagView>,
    pub text: Seq<TextTagView>,
}

pub open spec fn exif_views(s: Seq<ExifTag>) -> Seq<ExifTagView> {
    Seq::new(s.len(), |i: int| s[i]@)
}

pub open spec fn xmp_views(s: Seq<XmpProperty>) -> Seq<XmpView> {
    Seq::new(s.len(), |i: int| s[i]@)
}

pub open spec fn container_views(s: Seq<ContainerTag>) -> Seq<ContainerTagView> {
    Seq::new(s.len(), |i: int| s[i]@)
}

pub open spec fn text_views(s: Seq<TextTag>) -> Seq<TextTagView> {
    Seq::new(s.len(), |i: int| s[i]@)
}

pub broadcast proof fn exif_views_push(s: Seq<ExifTag>, t: ExifTag)
    ensures
        #[trigger] exif_views(s.push(t)) == exif_views(s).push(t@),
{
    assert(exif_views(s.push(t)) =~= exif_views(s).push(t@));
}

pub broadcast proof fn xmp_views_push(s: Seq<XmpProperty>, t: XmpProperty)
    ensures
        #[trigger] xmp_views(s.push(t)) == xmp_views(s).push(t@),
{
    assert(xmp_views(s.push(t)) =~= xmp_views(s).push(t@));
}

pub broadcast proof fn container_views_push(s: Seq<ContainerTag>, t: ContainerTag)
    ensures
        #[trigger] container_views(s.push(t)) == container_views(s).push(t@),
{
    assert(container_views(s.push(t)) =~= container_views(s).push(t@));
}

pub broadcast proof fn text_views_push(s: Seq<TextTag>, t: TextTag)
    ensures
        #[trigger] text_views(s.push(t)) == text_views(s).push(t@),
{
    assert(text_views(s.push(t)) =~= text_views(s).push(t@));
}

pub broadcast group group_views {
    exif_views_push,
    xmp_views_push,
    container_views_push,
    text_views_push,
}

impl View for RawTags {
    type V = RawView;

    open spec fn view(&self) -> RawView {
        RawView {
            exif: exif_views(self.exif@),
            xmp: xmp_views(self.xmp@),
            xmp_sidecar: xmp_views(self.xmp_sidecar@),
            container: container_views(self.container@),
            text: text_views(self.text@),
        }
    }
}

impl Default for RawTags {
    fn default() -> (r: Self)
        ensures
            r.exif@.len() == 0,
            r.xmp@.len() == 0,
            r.xmp_sidecar@.len() == 0,
            r.container@.len() == 0,
            r.text@.len() == 0,
    {
        RawTags {
            exif: Vec::new(),
            xmp: Vec::new(),
            xmp_sidecar: Vec::new(),
            container: Vec::new(),
            text: Vec::new(),
        }
    }
}

/// The unified fields. A field that no source gives is `None`.
#[derive(Debug, Clone, PartialEq, Eq)]
pub struct Unified {
    pub width: Option<u32>,
    pub height: Option<u32>,
    pub orientation: Option<Orientation>,
    pub camera_make: Option<String>,
    pub camera_model: Option<String>,
    pub duration_ms: Option<u64>,
    pub created: Option<DateTimeParts>,
    pub gps: Option<Gps>,
    pub software: Option<String>,
    pub creator: Option<String>,
    pub title: Option<String>,
    pub description: Option<String>,
    pub copyright: Option<String>,
}

pub struct UnifiedView {
    pub width: Option<u32>,
    pub height: Option<u32>,
    pub orientation: Option<Orientation>,
    pub camera_make: Option<Seq<char>>,
    pub camera_model: Option<Seq<char>>,
    pub duration_ms: Option<u64>,
    pub created: Option<DateTimeParts>,
    pub gps: Option<Gps>,
    pub software: Option<Seq<char>>,
    pub creator: Option<Seq<char>>,
    pub title: Option<Seq<char>>,
    pub description: Option<Seq<char>>,
    pub copyright: Option<Seq<char>>,
}

impl View for Unified {
    type V = UnifiedView;

    open spec fn view(&self) -> UnifiedView {
        UnifiedView {
            width: self.width,
            height: self.height,
            orientation: self.orientation,
            camera_make: opt_text(self.camera_make),
            camera_model: opt_text(self.camera_model),
            duration_ms: self.duration_ms,
            created: self.created,
            gps: self.gps,
            software: opt_text(self.software),
            creator: opt_text(self.creator),
            title: opt_text(self.title),
            description: opt_text(self.description),
            copyright: opt_text(self.copyright),
        }
    }
}

impl Default for Unified {
    fn default() -> (r: Self)
        ensures
            r@ == (UnifiedView {
                width: None,
                height: None,
                orientation: None,
                camera_make: None,
                camera_model: None,
                duration_ms: None,
                created: None,
                gps: None,
                software: None,
                creator: None,
                title: None,
                description: None,
                copyright: None,
            }),
    {
        Unified {
            width: None,
            height: None,
            orientation: None,
            camera_make: None,
            camera_model: None,
            duration_ms: None,
            created: None,
            gps: None,
            software: None,
            creator: None,
            title: None,
            description: None,
            copyright: None,
        }
    }
}

#[derive(Debug, Clone, Copy, PartialEq, Eq, Structural)]
pub enum WarnKind {
    /// The data ends before the structure does.
    Truncated,
    BadExifHeader,
    UnreachableSection,
    /// A tag is there, but its value is outside what is defined; it was dropped.
    UnrecognizedValue,
    /// A compressed chunk was left alone.
    CompressedChunkSkipped,
    /// An ambiguous part was kept by the stripper.
    StripSkippedAmbiguous,
}

#[derive(Debug, Clone, Copy, PartialEq, Eq, Structural)]
pub struct Warning {
    pub offset: u64,
    pub kind: WarnKind,
}

/// The result of reading a file.
#[derive(Debug, Clone, PartialEq, Eq)]
pub struct Metadata {
    pub unified: Unified,
    pub raw: RawTags,
    pub warnings: Vec<Warning>,
    pub format: FileFormat,
    /// What the unified fields were derived from besides `raw`.
    pub structural: StructuralFields,
}

pub struct MetadataView {
    pub unified: UnifiedView,
    pub raw: RawView,
    pub warnings: Seq<Warning>,
    pub format: FileFormat,
    pub structural: StructuralView,
}

impl View for Metadata {
    type V = MetadataView;

    open spec fn view(&self) -> MetadataView {
        MetadataView {
            unified: self.unified@,
            raw: self.raw@,
            warnings: self.warnings@,
            format: self.format,
            structural: self.structural@,
        }
    }
}

} // verus!
