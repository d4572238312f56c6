//! The unified fields.
use omni_meta::dates::parse_iso8601;
use omni_meta::model::StructuralFields;
use omni_meta::normalize::normalize;
use omni_meta::{
    ContainerSource, ContainerTag, DateTimeParts, ExifTag, Gps, IfdKind, Orientation, RawTags, TextTag,
    TextValue, Value, WarnKind, XmpProperty,
};

#[test]
fn normalize_projects_exif_tags_to_unified() {
    let raw = RawTags {
        exif: Vec::from([
            ExifTag {
                ifd: IfdKind::Primary,
                tag: 0x010F,
                value: Value::Text(String::from("Acme")),
            },
            ExifTag {
                ifd: IfdKind::Primary,
                tag: 0x0110,
                value: Value::Text(String::from("X100")),
            },
            ExifTag {
                ifd: IfdKind::Primary,
                tag: 0x0112,
                value: Value::U16(6),
            },
        ]),
        xmp: Vec::new(),
        container: Vec::new(),
        xmp_sidecar: Vec::new(),
        text: Vec::new(),
    };
    let mut warnings = Vec::new();
    let u = normalize(&raw, &StructuralFields::default(), &mut warnings);
    assert_eq!(u.camera_make.as_deref(), Some("Acme"));
    assert_eq!(u.camera_model.as_deref(), Some("X100"));
    assert_eq!(u.orientation, Some(Orientation::Rotate90));
    assert!(warnings.is_empty(), "warnings: {:?}", warnings);
}

#[test]
fn unknown_orientation_value_is_dropped_with_warning() {
    let raw = RawTags {
        exif: Vec::from([ExifTag {
            ifd: IfdKind::Primary,
            tag: 0x0112,
            value: Value::U16(99),
        }]),
        xmp: Vec::new(),
        container: Vec::new(),
        xmp_sidecar: Vec::new(),
        text: Vec::new(),
    };
    let mut warnings = Vec::new();
    let u = normalize(&raw, &StructuralFields::default(), &mut warnings);
    assert_eq!(u.orientation, None);
    assert_eq!(warnings.len(), 1);
    assert_eq!(warnings[0].kind, WarnKind::UnrecognizedValue);
}

fn xmp(prefix: &str, name: &str, value: &str) -> XmpProperty {
    XmpProperty {
        prefix: String::from(prefix),
        name: String::from(name),
        value: String::from(value),
    }
}

#[test]
fn xmp_fills_when_exif_absent() {
    let raw = RawTags {
        exif: Vec::new(),
        xmp: Vec::from([
            xmp("tiff", "Make", "XmpMake"),
            xmp("tiff", "Model", "XmpModel"),
            xmp("tiff", "Orientation", "6"),
            xmp("tiff", "ImageWidth", "1280"),
            xmp("tiff", "ImageLength", "720"),
        ]),
        container: Vec::new(),
        xmp_sidecar: Vec::new(),
        text: Vec::new(),
    };
    let mut warnings = Vec::new();
    let u = normalize(&raw, &StructuralFields::default(), &mut warnings);
    assert_eq!(u.camera_make.as_deref(), Some("XmpMake"));
    assert_eq!(u.camera_model.as_deref(), Some("XmpModel"));
    assert_eq!(u.orientation, Some(Orientation::Rotate90));
    assert_eq!(u.width, Some(1280));
    assert_eq!(u.height, Some(720));
}

#[test]
fn exif_wins_over_xmp() {
    let raw = RawTags {
        exif: Vec::from([ExifTag {
            ifd: IfdKind::Primary,
            tag: 0x010F,
            value: Value::Text(String::from("ExifMake")),
        }]),
        xmp: Vec::from([xmp("tiff", "Make", "XmpMake")]),
        container: Vec::new(),
        xmp_sidecar: Vec::new(),
        text: Vec::new(),
    };
    let mut warnings = Vec::new();
    let u = normalize(&raw, &StructuralFields::default(), &mut warnings);
    assert_eq!(u.camera_make.as_deref(), Some("ExifMake"));
}

#[test]
fn thumbnail_ifd_does_not_pollute_unified() {
    let raw = RawTags {
        exif: Vec::from([
            ExifTag {
                ifd: IfdKind::Primary,
                tag: 0x0112,
                value: Value::U16(1),
            },
            ExifTag {
                ifd: IfdKind::Thumbnail,
                tag: 0x0112,
                value: Value::U16(6),
            },
        ]),
        xmp: Vec::new(),
        container: Vec::new(),
        xmp_sidecar: Vec::new(),
        text: Vec::new(),
    };
    let mut warnings = Vec::new();
    let u = normalize(&raw, &StructuralFields::default(), &mut warnings);
    assert_eq!(u.orientation, Some(Orientation::Normal));
    assert!(warnings.is_empty(), "warnings: {:?}", warnings);
}

fn exif_tag(ifd: IfdKind, tag: u16, text: &str) -> ExifTag {
    ExifTag {
        ifd,
        tag,
        value: Value::Text(String::from(text)),
    }
}

#[test]
fn created_from_datetime_original_no_offset_is_naive() {
    let raw = RawTags {
        exif: Vec::from([exif_tag(IfdKind::Exif, 0x9003, "2003:01:24 09:20:00")]),
        xmp: Vec::new(),
        container: Vec::new(),
        xmp_sidecar: Vec::new(),
        text: Vec::new(),
    };
    let mut w = Vec::new();
    let u = normalize(&raw, &StructuralFields::default(), &mut w);
    let c = u.created.expect("created");
    assert_eq!(
        (c.year, c.month, c.day, c.hour, c.minute, c.second),
        (2003, 1, 24, 9, 20, 0)
    );
    assert_eq!(c.tz_offset_min, None);
}

#[test]
fn created_from_datetime_original_with_offset() {
    let raw = RawTags {
        exif: Vec::from([
            exif_tag(IfdKind::Exif, 0x9003, "2003:01:24 09:20:00"),
            exif_tag(IfdKind::Exif, 0x9011, "+09:00"),
        ]),
        xmp: Vec::new(),
        container: Vec::new(),
        xmp_sidecar: Vec::new(),
        text: Vec::new(),
    };
    let mut w = Vec::new();
    let u = normalize(&raw, &StructuralFields::default(), &mut w);
    assert_eq!(u.created.unwrap().tz_offset_min, Some(540));
}

#[test]
fn created_falls_back_to_ifd0_datetime() {
    let raw = RawTags {
        exif: Vec::from([
            exif_tag(IfdKind::Primary, 0x0132, "1999:12:31 23:59:59"),
            exif_tag(IfdKind::Exif, 0x9010, "-05:00"),
        ]),
        xmp: Vec::new(),
        container: Vec::new(),
        xmp_sidecar: Vec::new(),
        text: Vec::new(),
    };
    let mut w = Vec::new();
    let u = normalize(&raw, &StructuralFields::default(), &mut w);
    let c = u.created.expect("created");
    assert_eq!((c.year, c.month, c.day), (1999, 12, 31));
    assert_eq!(c.tz_offset_min, Some(-300));
}

#[test]
fn created_original_wins_over_ifd0_datetime() {
    let raw = RawTags {
        exif: Vec::from([
            exif_tag(IfdKind::Primary, 0x0132, "1999:12:31 23:59:59"),
            exif_tag(IfdKind::Exif, 0x9003, "2003:01:24 09:20:00"),
        ]),
        xmp: Vec::new(),
        container: Vec::new(),
        xmp_sidecar: Vec::new(),
        text: Vec::new(),
    };
    let mut w = Vec::new();
    let u = normalize(&raw, &StructuralFields::default(), &mut w);
    assert_eq!(u.created.unwrap().year, 2003);
}

#[test]
fn created_malformed_is_none() {
    for bad in [
        "not-a-date",
        "2003-01-24 09:20:00",
        "2003:13:40 25:99:99",
        "",
        "0000:01:01 00:00:00",
    ] {
        let raw = RawTags {
            exif: Vec::from([exif_tag(IfdKind::Exif, 0x9003, bad)]),
            xmp: Vec::new(),
            container: Vec::new(),
            xmp_sidecar: Vec::new(),
        text: Vec::new(),
        };
        let mut w = Vec::new();
        let u = normalize(&raw, &StructuralFields::default(), &mut w);
        assert_eq!(u.created, None);
    }
}

fn rat(n: u32, d: u32) -> Value {
    Value::Rational(n, d)
}

#[test]
fn gps_from_exif_dms_four_quadrants() {
    let raw = RawTags {
        exif: Vec::from([
            ExifTag {
                ifd: IfdKind::Gps,
                tag: 0x0001,
                value: Value::Text(String::from("N")),
            },
            ExifTag {
                ifd: IfdKind::Gps,
                tag: 0x0002,
                value: Value::List(Vec::from([rat(27, 1), rat(35, 1), rat(2976, 100)])),
            },
            ExifTag {
                ifd: IfdKind::Gps,
                tag: 0x0003,
                value: Value::Text(String::from("W")),
            },
            ExifTag {
                ifd: IfdKind::Gps,
                tag: 0x0004,
                value: Value::List(Vec::from([rat(86, 1), rat(33, 1), rat(504, 10)])),
            },
        ]),
        xmp: Vec::new(),
        container: Vec::new(),
        xmp_sidecar: Vec::new(),
        text: Vec::new(),
    };
    let mut w = Vec::new();
    let g = normalize(&raw, &StructuralFields::default(), &mut w)
        .gps
        .expect("gps");
    assert!((g.lat_e7 - 275_916_000).abs() <= 2, "lat_e7={}", g.lat_e7);
    assert!((g.lon_e7 + 865_640_000).abs() <= 2, "lon_e7={}", g.lon_e7);
    assert_eq!(g.alt_mm, None);
}

#[test]
fn gps_altitude_below_sea_level_is_negative() {
    let raw = RawTags {
        exif: Vec::from([
            ExifTag {
                ifd: IfdKind::Gps,
                tag: 0x0001,
                value: Value::Text(String::from("N")),
            },
            ExifTag {
                ifd: IfdKind::Gps,
                tag: 0x0002,
                value: Value::List(Vec::from([rat(10, 1), rat(0, 1), rat(0, 1)])),
            },
            ExifTag {
                ifd: IfdKind::Gps,
                tag: 0x0003,
                value: Value::Text(String::from("E")),
            },
            ExifTag {
                ifd: IfdKind::Gps,
                tag: 0x0004,
                value: Value::List(Vec::from([rat(20, 1), rat(0, 1), rat(0, 1)])),
            },
            ExifTag {
                ifd: IfdKind::Gps,
                tag: 0x0005,
                value: Value::Bytes(Vec::from([1u8])),
            },
            ExifTag {
                ifd: IfdKind::Gps,
                tag: 0x0006,
                value: rat(105, 10),
            },
        ]),
        xmp: Vec::new(),
        container: Vec::new(),
        xmp_sidecar: Vec::new(),
        text: Vec::new(),
    };
    let mut w = Vec::new();
    let g = normalize(&raw, &StructuralFields::default(), &mut w)
        .gps
        .expect("gps");
    assert_eq!(g.lat_e7, 100_000_000);
    assert_eq!(g.lon_e7, 200_000_000);
    assert_eq!(g.alt_mm, Some(-10_500));
}

#[test]
fn gps_only_latitude_yields_none_with_warning() {
    let raw = RawTags {
        exif: Vec::from([
            ExifTag {
                ifd: IfdKind::Gps,
                tag: 0x0001,
                value: Value::Text(String::from("N")),
            },
            ExifTag {
                ifd: IfdKind::Gps,
                tag: 0x0002,
                value: Value::List(Vec::from([rat(10, 1), rat(0, 1), rat(0, 1)])),
            },
        ]),
        xmp: Vec::new(),
        container: Vec::new(),
        xmp_sidecar: Vec::new(),
        text: Vec::new(),
    };
    let mut w = Vec::new();
    let u = normalize(&raw, &StructuralFields::default(), &mut w);
    assert_eq!(u.gps, None);
    assert_eq!(
        w.iter()
            .filter(|x| x.kind == WarnKind::UnrecognizedValue)
            .count(),
        1
    );
}

fn xmp_p(prefix: &str, name: &str, value: &str) -> XmpProperty {
    XmpProperty {
        prefix: String::from(prefix),
        name: String::from(name),
        value: String::from(value),
    }
}

#[test]
fn gps_from_xmp_decimal_minutes_form() {
    let raw = RawTags {
        exif: Vec::new(),
        xmp: Vec::from([
            xmp_p("exif", "GPSLatitude", "39,57.0900N"),
            xmp_p("exif", "GPSLongitude", "116,23.4000E"),
        ]),
        container: Vec::new(),
        xmp_sidecar: Vec::new(),
        text: Vec::new(),
    };
    let mut w = Vec::new();
    let g = normalize(&raw, &StructuralFields::default(), &mut w)
        .gps
        .expect("gps");
    assert!((g.lat_e7 - 399_515_000).abs() <= 2, "lat_e7={}", g.lat_e7);
    assert!((g.lon_e7 - 1_163_900_000).abs() <= 2, "lon_e7={}", g.lon_e7);
}

#[test]
fn iso8601_with_offset_and_z_and_naive() {
    let a = parse_iso8601("2017-07-22T16:06:06+10:00").unwrap();
    assert_eq!(
        (a.year, a.month, a.day, a.hour, a.minute, a.second),
        (2017, 7, 22, 16, 6, 6)
    );
    assert_eq!(a.tz_offset_min, Some(600));
    let z = parse_iso8601("2020-01-02T03:04:05Z").unwrap();
    assert_eq!(z.tz_offset_min, Some(0));
    let naive = parse_iso8601("2020-01-02T03:04:05").unwrap();
    assert_eq!(naive.tz_offset_min, None);
}

#[test]
fn iso8601_malformed_is_none() {
    for bad in [
        "",
        "2020-13-02T03:04:05Z",
        "2020-01-02 03:04:05",
        "not-a-date",
        "2020-01-02T25:00:00Z",
        "2020-01-02T03:04:05Z ",
        "2020-01-02T03:04:05+10",
    ] {
        assert_eq!(parse_iso8601(bad), None, "input {bad:?}");
    }
}

#[test]
fn iso8601_offset_without_colon() {
    let a = parse_iso8601("2017-07-22T16:06:06+1000").unwrap();
    assert_eq!(
        (a.year, a.month, a.day, a.hour, a.minute, a.second),
        (2017, 7, 22, 16, 6, 6)
    );
    assert_eq!(a.tz_offset_min, Some(600));
    let neg = parse_iso8601("2020-01-02T03:04:05-0530").unwrap();
    assert_eq!(neg.tz_offset_min, Some(-330));

    assert_eq!(parse_iso8601("2020-01-02T03:04:05+10:0"), None);
}

#[test]
fn gps_exif_wins_over_xmp() {
    let raw = RawTags {
        exif: Vec::from([
            ExifTag {
                ifd: IfdKind::Gps,
                tag: 0x0001,
                value: Value::Text(String::from("N")),
            },
            ExifTag {
                ifd: IfdKind::Gps,
                tag: 0x0002,
                value: Value::List(Vec::from([rat(10, 1), rat(0, 1), rat(0, 1)])),
            },
            ExifTag {
                ifd: IfdKind::Gps,
                tag: 0x0003,
                value: Value::Text(String::from("E")),
            },
            ExifTag {
                ifd: IfdKind::Gps,
                tag: 0x0004,
                value: Value::List(Vec::from([rat(20, 1), rat(0, 1), rat(0, 1)])),
            },
        ]),
        xmp: Vec::from([
            xmp_p("exif", "GPSLatitude", "39,57.0900N"),
            xmp_p("exif", "GPSLongitude", "116,23.4000E"),
        ]),
        container: Vec::new(),
        xmp_sidecar: Vec::new(),
        text: Vec::new(),
    };
    let mut w = Vec::new();
    let g = normalize(&raw, &StructuralFields::default(), &mut w)
        .gps
        .expect("gps");
    assert_eq!(g.lat_e7, 100_000_000);
}

#[test]
fn gps_from_xmp_decimal_degrees_form() {
    let raw = RawTags {
        exif: Vec::new(),
        xmp: Vec::from([
            xmp_p("exif", "GPSLatitude", "39.9515N"),
            xmp_p("exif", "GPSLongitude", "116.3900E"),
        ]),
        container: Vec::new(),
        xmp_sidecar: Vec::new(),
        text: Vec::new(),
    };
    let mut w = Vec::new();
    let g = normalize(&raw, &StructuralFields::default(), &mut w)
        .gps
        .expect("gps");
    assert_eq!(g.lat_e7, 399_515_000);
    assert_eq!(g.lon_e7, 1_163_900_000);
}

#[test]
fn gps_from_xmp_comma_form_still_works() {
    let raw = RawTags {
        exif: Vec::new(),
        xmp: Vec::from([
            xmp_p("exif", "GPSLatitude", "39,57.0900N"),
            xmp_p("exif", "GPSLongitude", "116,23.4000E"),
        ]),
        container: Vec::new(),
        xmp_sidecar: Vec::new(),
        text: Vec::new(),
    };
    let mut w = Vec::new();
    let g = normalize(&raw, &StructuralFields::default(), &mut w)
        .gps
        .expect("gps");
    assert!((g.lat_e7 - 399_515_000).abs() <= 2);
    assert!((g.lon_e7 - 1_163_900_000).abs() <= 2);
}

#[test]
fn software_precedence_container_over_exif_over_xmp() {
    let mut warnings = Vec::new();
    let raw = RawTags {
        exif: vec![ExifTag {
            ifd: IfdKind::Primary,
            tag: 0x0131,
            value: Value::Text(String::from("ExifSW"))
        }],
        xmp: vec![XmpProperty {
            prefix: String::from("xmp"),
            name: String::from("CreatorTool"),
            value: String::from("XmpSW")
        }],
        container: vec![ContainerTag {
            source: ContainerSource::QuickTimeMdta,
            key: String::from("com.apple.quicktime.software"),
            value: Value::Text(String::from("ContainerSW"))
        }],
        xmp_sidecar: Vec::new(),
        text: Vec::new(),
    };
    let u = normalize(&raw, &StructuralFields::default(), &mut warnings);
    assert_eq!(u.software.as_deref(), Some("ContainerSW"));
}

#[test]
fn software_falls_back_exif_then_xmp() {
    let mut warnings = Vec::new();
    let raw_exif = RawTags {
        exif: vec![ExifTag {
            ifd: IfdKind::Primary,
            tag: 0x0131,
            value: Value::Text(String::from("ExifSW"))
        }],
        xmp: Vec::new(),
        container: Vec::new(),
        xmp_sidecar: Vec::new(),
        text: Vec::new(),
    };
    assert_eq!(
        normalize(&raw_exif, &StructuralFields::default(), &mut warnings)
            .software
            .as_deref(),
        Some("ExifSW")
    );
    let raw_xmp = RawTags {
        exif: Vec::new(),
        xmp: vec![XmpProperty {
            prefix: String::from("xmp"),
            name: String::from("CreatorTool"),
            value: String::from("XmpSW")
        }],
        container: Vec::new(),
        xmp_sidecar: Vec::new(),
        text: Vec::new(),
    };
    assert_eq!(
        normalize(&raw_xmp, &StructuralFields::default(), &mut warnings)
            .software
            .as_deref(),
        Some("XmpSW")
    );
}

fn raw_with_text(keyword: &str, value: &str) -> RawTags {
    RawTags {
        text: vec![TextTag {
            keyword: keyword.into(),
            value: TextValue::Latin1(value.into()),
        }],
        ..Default::default()
    }
}

#[test]
fn png_author_projects_creator_as_fallback() {
    let mut w = Vec::new();
    let u = normalize(
        &raw_with_text("Author", "Ada"),
        &StructuralFields::default(),
        &mut w,
    );
    assert_eq!(u.creator.as_deref(), Some("Ada"));
}

#[test]
fn png_software_projects_software_as_fallback() {
    let mut w = Vec::new();
    let u = normalize(
        &raw_with_text("Software", "OmniTool"),
        &StructuralFields::default(),
        &mut w,
    );
    assert_eq!(u.software.as_deref(), Some("OmniTool"));
}

#[test]
fn png_new_fields_project() {
    let mut w = Vec::new();
    assert_eq!(
        normalize(
            &raw_with_text("Title", "T"),
            &StructuralFields::default(),
            &mut w
        )
        .title
        .as_deref(),
        Some("T")
    );
    assert_eq!(
        normalize(
            &raw_with_text("Description", "D"),
            &StructuralFields::default(),
            &mut w
        )
        .description
        .as_deref(),
        Some("D")
    );
    assert_eq!(
        normalize(
            &raw_with_text("Copyright", "C"),
            &StructuralFields::default(),
            &mut w
        )
        .copyright
        .as_deref(),
        Some("C")
    );
}

#[test]
fn png_creator_does_not_override_xmp() {
    let raw = RawTags {
        xmp: vec![XmpProperty {
            prefix: "dc".into(),
            name: "creator".into(),
            value: "FromXmp".into(),
        }],
        text: vec![TextTag {
            keyword: "Author".into(),
            value: TextValue::Latin1("FromPng".into())
        }],
        ..Default::default()
    };
    let mut w = Vec::new();
    assert_eq!(
        normalize(&raw, &StructuralFields::default(), &mut w)
            .creator
            .as_deref(),
        Some("FromXmp")
    );
}

#[test]
fn png_creation_time_iso_rfc1123_baredate() {
    for (input, y, mo, d, h) in [
        ("2021-07-06T09:30:00Z", 2021u16, 7u8, 6u8, 9u8),
        ("Tue, 06 Jul 2021 09:30:00 GMT", 2021, 7, 6, 9),
        ("2021-07-06", 2021, 7, 6, 0),
    ] {
        let mut w = Vec::new();
        let u = normalize(
            &raw_with_text("Creation Time", input),
            &StructuralFields::default(),
            &mut w,
        );
        let c = u.created.unwrap_or_else(|| panic!("未解析: {input}"));
        assert_eq!((c.year, c.month, c.day, c.hour), (y, mo, d, h), "{input}");
    }
}

#[test]
fn png_creation_time_unparseable_stays_raw_no_warning() {
    let mut w = Vec::new();
    let u = normalize(
        &raw_with_text("Creation Time", "sometime last summer"),
        &StructuralFields::default(),
        &mut w,
    );
    assert!(u.created.is_none());
    assert!(w.is_empty());
}

#[test]
fn png_compressed_value_not_projected() {
    let raw = RawTags {
        text: vec![TextTag {
            keyword: "Author".into(),
            value: TextValue::CompressedLatin1(vec![1, 2, 3]),
        }],
        ..Default::default()
    };
    let mut w = Vec::new();
    assert!(
        normalize(&raw, &StructuralFields::default(), &mut w)
            .creator
            .is_none()
    );
}

#[test]
fn creator_from_container_udta_and_exif_artist() {
    let mut warnings = Vec::new();
    let raw_udta = RawTags {
        exif: Vec::new(),
        xmp: Vec::new(),
        container: vec![ContainerTag {
            source: ContainerSource::Udta,
            key: String::from("©aut"),
            value: Value::Text(String::from("Auteur"))
        }],
        xmp_sidecar: Vec::new(),
        text: Vec::new(),
    };
    assert_eq!(
        normalize(&raw_udta, &StructuralFields::default(), &mut warnings)
            .creator
            .as_deref(),
        Some("Auteur")
    );
    let raw_artist = RawTags {
        exif: vec![ExifTag {
            ifd: IfdKind::Primary,
            tag: 0x013B,
            value: Value::Text(String::from("Shooter"))
        }],
        xmp: Vec::new(),
        container: Vec::new(),
        xmp_sidecar: Vec::new(),
        text: Vec::new(),
    };
    assert_eq!(
        normalize(&raw_artist, &StructuralFields::default(), &mut warnings)
            .creator
            .as_deref(),
        Some("Shooter")
    );
}

fn make_exif_tag(ifd: IfdKind, tag: u16, text: &str) -> ExifTag {
    ExifTag {
        ifd,
        tag,
        value: Value::Text(String::from(text)),
    }
}

#[test]
fn container_mdta_make_model_outrank_exif() {
    let mut raw = RawTags::default();
    raw.exif
        .push(make_exif_tag(IfdKind::Primary, 0x010F, "ExifMake"));
    raw.exif
        .push(make_exif_tag(IfdKind::Primary, 0x0110, "ExifModel"));
    raw.container.push(ContainerTag {
        source: ContainerSource::QuickTimeMdta,
        key: String::from("com.apple.quicktime.make"),
        value: Value::Text(String::from("Apple")),
    });
    raw.container.push(ContainerTag {
        source: ContainerSource::QuickTimeMdta,
        key: String::from("com.apple.quicktime.model"),
        value: Value::Text(String::from("iPhone 15")),
    });
    let mut w = Vec::new();
    let u = normalize(&raw, &StructuralFields::default(), &mut w);
    assert_eq!(u.camera_make.as_deref(), Some("Apple"));
    assert_eq!(u.camera_model.as_deref(), Some("iPhone 15"));
}

#[test]
fn structural_created_outranks_exif_derived() {

    let mut raw = RawTags::default();
    raw.exif
        .push(exif_tag(IfdKind::Primary, 0x0132, "2003:01:02 03:04:05"));
    let structural = StructuralFields {
        created: Some(DateTimeParts {
            year: 2018,
            month: 1,
            day: 1,
            hour: 0,
            minute: 0,
            second: 0,
            tz_offset_min: Some(0),
        }),
        ..StructuralFields::default()
    };
    let mut w = Vec::new();
    let u = normalize(&raw, &structural, &mut w);
    assert_eq!(u.created.map(|d| d.year), Some(2018));
}

#[test]
fn container_creationdate_outranks_structural_created() {
    let mut raw = RawTags::default();
    raw.container.push(ContainerTag {
        source: ContainerSource::QuickTimeMdta,
        key: String::from("com.apple.quicktime.creationdate"),
        value: Value::Text(String::from("2018-05-06T12:00:00+09:00")),
    });

    let structural = StructuralFields {
        created: Some(DateTimeParts {
            year: 2001,
            month: 1,
            day: 1,
            hour: 0,
            minute: 0,
            second: 0,
            tz_offset_min: Some(0),
        }),
        ..StructuralFields::default()
    };
    let mut w = Vec::new();
    let u = normalize(&raw, &structural, &mut w);
    assert_eq!(u.created.map(|d| d.year), Some(2018));
    assert_eq!(u.created.and_then(|d| d.tz_offset_min), Some(540));
}

#[test]
fn container_mdta_make_model_outrank_xmp_no_exif() {
    let mut raw = RawTags::default();

    raw.xmp.push(xmp("tiff", "Make", "XmpMake"));
    raw.xmp.push(xmp("tiff", "Model", "XmpModel"));

    raw.container.push(ContainerTag {
        source: ContainerSource::QuickTimeMdta,
        key: String::from("com.apple.quicktime.make"),
        value: Value::Text(String::from("Apple")),
    });
    raw.container.push(ContainerTag {
        source: ContainerSource::QuickTimeMdta,
        key: String::from("com.apple.quicktime.model"),
        value: Value::Text(String::from("iPhone 15")),
    });
    let mut w = Vec::new();
    let u = normalize(&raw, &StructuralFields::default(), &mut w);
    assert_eq!(u.camera_make.as_deref(), Some("Apple"));
    assert_eq!(u.camera_model.as_deref(), Some("iPhone 15"));
}

#[test]
fn container_mdta_creationdate_outranks_exif_dto_no_structural() {
    let mut raw = RawTags::default();

    raw.exif
        .push(exif_tag(IfdKind::Exif, 0x9003, "2003:01:24 09:20:00"));

    raw.container.push(ContainerTag {
        source: ContainerSource::QuickTimeMdta,
        key: String::from("com.apple.quicktime.creationdate"),
        value: Value::Text(String::from("2018-05-06T12:00:00+09:00")),
    });
    let mut w = Vec::new();

    let u = normalize(&raw, &StructuralFields::default(), &mut w);
    assert_eq!(u.created.map(|d| d.year), Some(2018));
}

#[test]
fn structural_gps_outranks_exif_gps() {
    let raw = RawTags {
        exif: Vec::from([
            ExifTag {
                ifd: IfdKind::Gps,
                tag: 0x0001,
                value: Value::Text(String::from("N")),
            },
            ExifTag {
                ifd: IfdKind::Gps,
                tag: 0x0002,
                value: Value::List(Vec::from([rat(10, 1), rat(0, 1), rat(0, 1)])),
            },
            ExifTag {
                ifd: IfdKind::Gps,
                tag: 0x0003,
                value: Value::Text(String::from("E")),
            },
            ExifTag {
                ifd: IfdKind::Gps,
                tag: 0x0004,
                value: Value::List(Vec::from([rat(20, 1), rat(0, 1), rat(0, 1)])),
            },
        ]),
        xmp: Vec::new(),
        container: Vec::new(),
        xmp_sidecar: Vec::new(),
        text: Vec::new(),
    };

    let structural = StructuralFields {
        gps: Some(Gps {
            lat_e7: 500_000_000,
            lon_e7: 1_000_000_000,
            alt_mm: None,
        }),
        ..StructuralFields::default()
    };
    let mut w = Vec::new();
    let g = normalize(&raw, &structural, &mut w).gps.expect("gps");

    assert_eq!(g.lat_e7, 500_000_000);
    assert_eq!(g.lon_e7, 1_000_000_000);
}

#[test]
fn unknown_orientation_value_is_dropped() {
    let raw = RawTags {
        exif: Vec::from([ExifTag { ifd: IfdKind::Primary, tag: 0x0112, value: Value::U16(99) }]),
        ..Default::default()
    };
    let mut w = Vec::new();
    assert_eq!(normalize(&raw, &StructuralFields::default(), &mut w).orientation, None);
}

#[test]
fn projects_exif_tags_to_unified() {
    let raw = RawTags {
        exif: Vec::from([
            exif_tag(IfdKind::Primary, 0x010F, "Acme"),
            ExifTag { ifd: IfdKind::Primary, tag: 0x0112, value: Value::U16(6) },
        ]),
        ..Default::default()
    };
    let mut w = Vec::new();
    let u = normalize(&raw, &StructuralFields::default(), &mut w);
    assert_eq!(u.camera_make.as_deref(), Some("Acme"));
    assert_eq!(u.camera_model, None);
    assert_eq!(u.orientation, Some(Orientation::Rotate90));
}
