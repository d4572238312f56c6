//! The model of metadata.
use omni_meta::model::Field;
use omni_meta::{
    ContainerSource, ContainerTag, DateTimeParts, FileFormat, Gps, Orientation, RawTags, TextTag,
    TextValue, Unified, Value, XmpProperty,
};

#[test]
fn orientation_maps_known_values() {
    assert_eq!(Orientation::from_u16(1), Some(Orientation::Normal));
    assert_eq!(Orientation::from_u16(2), Some(Orientation::FlipH));
    assert_eq!(Orientation::from_u16(3), Some(Orientation::Rotate180));
    assert_eq!(Orientation::from_u16(4), Some(Orientation::FlipV));
    assert_eq!(Orientation::from_u16(5), Some(Orientation::Transpose));
    assert_eq!(Orientation::from_u16(6), Some(Orientation::Rotate90));
    assert_eq!(Orientation::from_u16(7), Some(Orientation::Transverse));
    assert_eq!(Orientation::from_u16(8), Some(Orientation::Rotate270));
    assert_eq!(Orientation::from_u16(0), None);
    assert_eq!(Orientation::from_u16(9), None);
}

#[test]
fn unified_defaults_to_all_none() {
    let u = Unified::default();
    assert_eq!(u.orientation, None);
    assert_eq!(u.camera_make, None);
    assert_eq!(u.camera_model, None);
}

#[test]
fn unified_has_dimensions_defaulting_none() {
    let u = Unified::default();
    assert_eq!(u.width, None);
    assert_eq!(u.height, None);
}

#[test]
fn rawtags_has_empty_xmp_by_default() {
    let r = RawTags::default();
    assert!(r.xmp.is_empty());
}

#[test]
fn fileformat_has_bmff_family() {
    let all = [
        FileFormat::Heif,
        FileFormat::Avif,
        FileFormat::Mp4,
        FileFormat::Mov,
    ];
    assert_eq!(all[0], FileFormat::Heif);
    assert_ne!(FileFormat::Heif, FileFormat::Avif);
    assert_ne!(FileFormat::Mp4, FileFormat::Mov);
}

#[test]
fn field_and_xmp_property_construct() {
    let f = Field::Width(1920);
    assert_eq!(f, Field::Width(1920));
    let p = XmpProperty {
        prefix: String::from("tiff"),
        name: String::from("Orientation"),
        value: String::from("1"),
    };
    assert_eq!(p.name, "Orientation");
}

#[test]
fn datetime_parts_construct_and_eq() {
    let a = DateTimeParts {
        year: 1970,
        month: 1,
        day: 1,
        hour: 0,
        minute: 0,
        second: 0,
        tz_offset_min: Some(0),
    };
    let b = DateTimeParts {
        year: 1970,
        month: 1,
        day: 1,
        hour: 0,
        minute: 0,
        second: 0,
        tz_offset_min: None,
    };
    assert_eq!(a.tz_offset_min, Some(0));
    assert_eq!(b.tz_offset_min, None);
    assert_ne!(a, b);
}

#[test]
fn field_has_duration_and_created() {
    let d = Field::Duration(1_501_500);
    assert_eq!(d, Field::Duration(1_501_500));
    let c = Field::Created(DateTimeParts {
        year: 2018,
        month: 1,
        day: 1,
        hour: 0,
        minute: 0,
        second: 0,
        tz_offset_min: Some(0),
    });
    assert_ne!(
        c,
        Field::Created(DateTimeParts {
            year: 2019,
            month: 1,
            day: 1,
            hour: 0,
            minute: 0,
            second: 0,
            tz_offset_min: Some(0),
        })
    );
}

#[test]
fn unified_has_duration_and_created_defaulting_none() {
    let u = Unified::default();
    assert_eq!(u.duration_ms, None);
    assert_eq!(u.created, None);
}

#[test]
fn fileformat_has_ebml_family() {
    assert_ne!(FileFormat::Mkv, FileFormat::Webm);
    assert_ne!(FileFormat::Mkv, FileFormat::Unknown);
}

#[test]
fn gps_constructs_and_eq() {
    let a = Gps {
        lat_e7: 275_916_000,
        lon_e7: 865_640_000,
        alt_mm: Some(8_850_000),
    };
    let b = Gps {
        lat_e7: 275_916_000,
        lon_e7: 865_640_000,
        alt_mm: None,
    };
    assert_eq!(a.lat_e7, 275_916_000);
    assert_ne!(a, b);
}

#[test]
fn unified_has_gps_defaulting_none() {
    let u = Unified::default();
    assert_eq!(u.gps, None);
}

#[test]
fn field_has_gps_variant() {
    let g = Field::Gps(Gps {
        lat_e7: 1,
        lon_e7: 2,
        alt_mm: None,
    });
    assert_eq!(
        g,
        Field::Gps(Gps {
            lat_e7: 1,
            lon_e7: 2,
            alt_mm: None
        })
    );
}

#[test]
fn container_tag_constructs_and_eq() {
    let a = ContainerTag {
        source: ContainerSource::QuickTimeMdta,
        key: String::from("com.apple.quicktime.software"),
        value: Value::Text(String::from("13.5.1")),
    };
    let b = ContainerTag {
        source: ContainerSource::QuickTimeMdta,
        key: String::from("com.apple.quicktime.software"),
        value: Value::Text(String::from("13.5.1")),
    };
    assert_eq!(a, b);
    assert_ne!(a.source, ContainerSource::Udta);
}

#[test]
fn rawtags_default_has_empty_container() {
    let r = RawTags::default();
    assert!(r.container.is_empty());
}

#[test]
fn unified_has_software_and_creator_default_none() {
    let u = Unified::default();
    assert!(u.software.is_none());
    assert!(u.creator.is_none());
}

#[test]
fn text_tag_constructs_and_value_variants() {
    let t = TextTag {
        keyword: String::from("Author"),
        value: TextValue::Latin1(String::from("Ada")),
    };
    assert_eq!(t.keyword, "Author");
    assert_eq!(t.value, TextValue::Latin1(String::from("Ada")));
    assert_ne!(
        TextValue::Utf8(String::from("x")),
        TextValue::Latin1(String::from("x"))
    );
    assert_ne!(
        TextValue::CompressedLatin1(vec![1, 2]),
        TextValue::CompressedUtf8(vec![1, 2])
    );
}

#[test]
fn rawtags_default_has_empty_text() {
    let r = RawTags::default();
    assert!(r.text.is_empty());
}

#[test]
fn unified_has_title_description_copyright_default_none() {
    let u = Unified::default();
    assert!(u.title.is_none());
    assert!(u.description.is_none());
    assert!(u.copyright.is_none());
}
