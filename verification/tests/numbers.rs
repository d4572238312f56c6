//! Dates, coordinates and text, by their exact values.
use omni_meta::codecs::xmp;
use omni_meta::dates::{
    parse_bare_date, parse_exif_datetime, parse_exif_offset, parse_iso8601,
    parse_png_creation_time, parse_rfc1123,
};
use omni_meta::double::Double;
use omni_meta::geo::{deg_to_e7, meters_to_mm, parse_iso6709, parse_scaled_decimal, parse_xmp_coord};
use omni_meta::model::DateTimeParts;
use omni_meta::text::{
    chars_are, chars_of, is_white, latin1_to_string, parse_unsigned, string_of, trimmed,
};
use omni_meta::{Gps, Limits};

fn date(year: u16, month: u8, day: u8) -> DateTimeParts {
    DateTimeParts { year, month, day, hour: 0, minute: 0, second: 0, tz_offset_min: None }
}

fn degrees(n: u32, d: u32, neg: bool) -> Option<i32> {
    deg_to_e7(Double::ratio(n, d), neg)
}

fn metres(n: u32, d: u32, neg: bool) -> Option<i32> {
    meters_to_mm(Double::ratio(n, d), neg)
}

/// Ten to the thirtieth, but for its last digits.
fn huge() -> Double {
    Double::ratio(1_000_000_000, 1).times(1_000_000_000).times(1_000_000_000).times(1000)
}

#[test]
fn degrees_round_to_the_nearest() {
    assert_eq!(degrees(71, 2, false), Some(355_000_000));
    assert_eq!(degrees(71, 2, true), Some(-355_000_000));
    assert_eq!(degrees(1, 3, false), Some(3_333_333));
    assert_eq!(degrees(2, 3, false), Some(6_666_667));
    assert_eq!(degrees(1, 20_000_000, false), Some(1));
    assert_eq!(degrees(215, 1, false), None);
    assert_eq!(degrees(214, 1, false), Some(2_140_000_000));
}

#[test]
fn heights_round_to_the_nearest() {
    assert_eq!(metres(12, 1, false), Some(12_000));
    assert_eq!(metres(1, 3, true), Some(-333));
    assert_eq!(metres(u32::MAX, 1, false), None);
    assert_eq!(metres(2_147_483_647, 1000, true), Some(-2_147_483_647));
    assert_eq!(metres(2_147_483_648, 1000, true), None);
    for neg in [false, true] {
        assert_eq!(metres(u32::MAX, 2000, neg), machine(u32::MAX as f64 / 2000.0, 1000.0, neg));
    }
}

#[test]
fn deg_to_e7_rounds_and_signs() {
    assert_eq!(degrees(275_916, 10_000, false), Some(275_916_000));
    assert_eq!(degrees(865_640, 10_000, true), Some(-865_640_000));
    assert_eq!(degrees(0, 1, false), Some(0));
    assert_eq!(deg_to_e7(huge(), false), None);
}

#[test]
fn meters_to_mm_rounds() {
    assert_eq!(metres(8850, 1, false), Some(8_850_000));
    assert_eq!(metres(21, 2, true), Some(-10_500));
    assert_eq!(meters_to_mm(huge(), false), None);
}

/// The same in the arithmetic of the machine.
fn machine(x: f64, scale: f64, neg: bool) -> Option<i32> {
    let x = if neg { -x } else { x };
    let s = x * scale + if x < 0.0 { -0.5 } else { 0.5 };
    if s >= i32::MIN as f64 && s < i32::MAX as f64 + 1.0 {
        Some(s as i32)
    } else {
        None
    }
}

/// Numbers that look random, of all magnitudes.
fn numbers(count: usize) -> Vec<u32> {
    let mut x: u64 = 0x9E37_79B9_7F4A_7C15;
    let mut out = Vec::new();
    for i in 0..count {
        x = x.wrapping_mul(6364136223846793005).wrapping_add(1442695040888963407);
        out.push(((x >> 32) as u32) >> (i % 32));
    }
    out
}

#[test]
fn doubles_round_as_the_machine_does() {
    let v = numbers(60_000);
    for w in v.chunks(6) {
        let d = [w[1].max(1), w[3].max(1), w[5].max(1)];
        let n = [w[0], w[2], w[4]];
        let one = Double::ratio(n[0], d[0]);
        let x = n[0] as f64 / d[0] as f64;
        let sum = Double::zero()
            .plus(one.over(1))
            .plus(Double::ratio(n[1], d[1]).over(60))
            .plus(Double::ratio(n[2], d[2]).over(3600));
        let mut y = 0.0f64;
        y += x / 1.0;
        y += (n[1] as f64 / d[1] as f64) / 60.0;
        y += (n[2] as f64 / d[2] as f64) / 3600.0;
        for neg in [false, true] {
            assert_eq!(meters_to_mm(one, neg), machine(x, 1000.0, neg), "{n:?} {d:?}");
            assert_eq!(deg_to_e7(one, neg), machine(x, 1e7, neg), "{n:?} {d:?}");
            assert_eq!(deg_to_e7(sum, neg), machine(y, 1e7, neg), "{n:?} {d:?}");
        }
    }
}

#[test]
fn doubles_split() {
    assert_eq!(Double::zero().split(), Some((0, true)));
    assert_eq!(Double::one_half().split(), Some((0, false)));
    assert_eq!(Double::ratio(7, 2).split(), Some((3, false)));
    assert_eq!(Double::ratio(8, 2).split(), Some((4, true)));
    assert_eq!(Double::ratio(1, u32::MAX).over(3600).split(), Some((0, false)));
    assert_eq!(huge().split(), None);
}

#[test]
fn decimals_scale() {
    assert_eq!(parse_scaled_decimal(&['+', '3', '5', '.', '5'], 7), Some(355_000_000));
    assert_eq!(parse_scaled_decimal(&['-', '0', '.', '5'], 3), Some(-500));
    assert_eq!(parse_scaled_decimal(&[], 7), None);
    assert_eq!(parse_scaled_decimal(&['x'], 7), None);
}

#[test]
fn iso6709_positions() {
    assert_eq!(
        parse_iso6709("+35.5000+139.5000+010.000/"),
        Some(Gps { lat_e7: 355_000_000, lon_e7: 1_395_000_000, alt_mm: Some(10_000) })
    );
    assert_eq!(
        parse_iso6709("-35.5-139.5/"),
        Some(Gps { lat_e7: -355_000_000, lon_e7: -1_395_000_000, alt_mm: None })
    );
    assert_eq!(parse_iso6709("35.5"), None);
    assert_eq!(parse_iso6709(""), None);
}

#[test]
fn xmp_coordinates() {
    assert_eq!(parse_xmp_coord("35,30.0N"), Some(355_000_000));
    assert_eq!(parse_xmp_coord("35,30.0S"), Some(-355_000_000));
    assert_eq!(parse_xmp_coord("139,30,0E"), Some(1_395_000_000));
    assert_eq!(parse_xmp_coord("139,30,0"), None);
    assert_eq!(parse_xmp_coord(""), None);
}

#[test]
fn dates_of_every_kind() {
    let whole = DateTimeParts { hour: 3, minute: 4, second: 5, ..date(2020, 1, 2) };
    assert_eq!(parse_exif_datetime("2020:01:02 03:04:05"), Some(whole));
    assert_eq!(parse_exif_datetime("2020-01-02 03:04:05"), None);
    assert_eq!(
        parse_iso8601("2020-01-02T03:04:05+01:30"),
        Some(DateTimeParts { tz_offset_min: Some(90), ..whole })
    );
    assert_eq!(
        parse_iso8601("2020-01-02T03:04:05Z"),
        Some(DateTimeParts { tz_offset_min: Some(0), ..whole })
    );
    assert_eq!(parse_exif_offset("-05:30"), Some(-330));
    assert_eq!(parse_exif_offset("5:30"), None);
    assert_eq!(
        parse_rfc1123("Thu, 02 Jan 2020 03:04:05 GMT"),
        Some(DateTimeParts { tz_offset_min: Some(0), ..whole })
    );
    assert_eq!(parse_bare_date("2020-01-02"), Some(date(2020, 1, 2)));
    assert_eq!(parse_png_creation_time("2020-01-02"), Some(date(2020, 1, 2)));
    assert_eq!(parse_png_creation_time("yesterday"), None);
}

#[test]
fn characters_and_strings() {
    let c = chars_of(" a\u{e9} ");
    assert_eq!(c, vec![' ', 'a', '\u{e9}', ' ']);
    assert_eq!(string_of(trimmed(&c)), "a\u{e9}");
    assert!(chars_are(trimmed(&c), "a\u{e9}"));
    assert_eq!(latin1_to_string(&[0x41, 0xE9]), "A\u{e9}");
    assert!(is_white('\t'));
    assert!(!is_white('x'));
    assert_eq!(parse_unsigned("255", 255), Some(255));
    assert_eq!(parse_unsigned("256", 255), None);
    assert_eq!(parse_unsigned("", 255), None);
}

#[test]
fn text_is_decoded_as_utf8() {
    let mut out = Vec::new();
    let mut warnings = Vec::new();
    let packet = "<rdf:Description dc:title=\"\u{e9}t\u{e9}\"/>";
    xmp::decode(packet.as_bytes(), &mut out, &mut warnings, &Limits::default());
    assert_eq!(out.len(), 1);
    assert_eq!(out[0].value, "\u{e9}t\u{e9}");
    assert!(warnings.is_empty());
    out.clear();
    xmp::decode(&[b'<', 0xC3, 0x28], &mut out, &mut warnings, &Limits::default());
    assert!(out.is_empty());
    assert_eq!(warnings.len(), 1);
}
