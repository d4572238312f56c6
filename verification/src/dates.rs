//! Dates and times as text: EXIF, ISO 8601, RFC 1123 and bare dates.
use vstd::prelude::*;

use crate::bytes::{is_str, lit, part};
use crate::model::DateTimeParts;

verus! {

pub open spec fn is_dig(x: u8) -> bool {
    0x30 <= x <= 0x39
}

/// The number of two digits at `i`.
pub open spec fn two(b: Seq<u8>, i: int) -> Option<int> {
    if is_dig(b[i]) && is_dig(b[i + 1]) {
        Some((b[i] - 0x30) * 10 + (b[i + 1] - 0x30))
    } else {
        None
    }
}

/// The number of four digits at `i`.
pub open spec fn four(b: Seq<u8>, i: int) -> Option<int> {
    match (two(b, i), two(b, i + 2)) {
        (Some(h), Some(l)) => Some(h * 100 + l),
        _ => None,
    }
}

fn read_two(b: &[u8], i: usize) -> (r: Option<u8>)
    requires
        i + 2 <= b.len(),
    ensures
        match r {
            Some(v) => two(b@, i as int) == Some(v as int) && v <= 99,
            None => two(b@, i as int) is None,
        },
{
    let (h, l): (u8, u8) = (b[i], b[i + 1]);
    if 0x30 <= h && h <= 0x39 && 0x30 <= l && l <= 0x39 {
        Some((h - 0x30) * 10 + (l - 0x30))
    } else {
        None
    }
}

fn read_four(b: &[u8], i: usize) -> (r: Option<u16>)
    requires
        i + 4 <= b.len(),
    ensures
        match r {
            Some(v) => four(b@, i as int) == Some(v as int),
            None => four(b@, i as int) is None,
        },
{
    match (read_two(b, i), read_two(b, i + 2)) {
        (Some(h), Some(l)) => Some(h as u16 * 100 + l as u16),
        _ => None,
    }
}

/// The date at `0..10` and the time at `11..19`, with the given separators.
pub open spec fn stamp(b: Seq<u8>, sep: u8, mid: u8, tz: Option<i16>) -> Option<DateTimeParts> {
    if b.len() < 19 || b[4] != sep || b[7] != sep || b[10] != mid || b[13] != 0x3A || b[16]
        != 0x3A {
        None
    } else {
        match (four(b, 0), two(b, 5), two(b, 8), two(b, 11), two(b, 14), two(b, 17)) {
            (Some(y), Some(mo), Some(d), Some(h), Some(mi), Some(s)) => if y != 0 && 1 <= mo <= 12
                && 1 <= d <= 31 && h <= 23 && mi <= 59 && s <= 60 {
                Some(
                    DateTimeParts {
                        year: y as u16,
                        month: mo as u8,
                        day: d as u8,
                        hour: h as u8,
                        minute: mi as u8,
                        second: s as u8,
                        tz_offset_min: tz,
                    },
                )
            } else {
                None
            },
            _ => None,
        }
    }
}

fn parse_stamp(b: &[u8], sep: u8, mid: u8, tz: Option<i16>) -> (r: Option<DateTimeParts>)
    ensures
        r == stamp(b@, sep, mid, tz),
{
    if b.len() < 19 || b[4] != sep || b[7] != sep || b[10] != mid || b[13] != 0x3A || b[16]
        != 0x3A {
        return None;
    }
    let year: u16 = match read_four(b, 0) {
        Some(v) => v,
        None => return None,
    };
    let month: u8 = match read_two(b, 5) {
        Some(v) => v,
        None => return None,
    };
    let day: u8 = match read_two(b, 8) {
        Some(v) => v,
        None => return None,
    };
    let hour: u8 = match read_two(b, 11) {
        Some(v) => v,
        None => return None,
    };
    let minute: u8 = match read_two(b, 14) {
        Some(v) => v,
        None => return None,
    };
    let second: u8 = match read_two(b, 17) {
        Some(v) => v,
        None => return None,
    };
    if year == 0 || month < 1 || month > 12 || day < 1 || day > 31 || hour > 23 || minute > 59
        || second > 60 {
        return None;
    }
    Some(DateTimeParts { year, month, day, hour, minute, second, tz_offset_min: tz })
}

/// `YYYY:MM:DD HH:MM:SS`.
pub open spec fn exif_datetime(b: Seq<u8>) -> Option<DateTimeParts> {
    if b.len() == 19 {
        stamp(b, 0x3A, 0x20, None)
    } else {
        None
    }
}

/// Parses an EXIF date and time.
pub fn parse_exif_datetime(s: &str) -> (r: Option<DateTimeParts>)
    ensures
        r == exif_datetime(lit(s)),
{
    let b = s.as_bytes();
    if b.len() == 19 {
        parse_stamp(b, 0x3A, 0x20, None)
    } else {
        None
    }
}

pub open spec fn is_sign(x: u8) -> bool {
    x == 0x2B || x == 0x2D
}

/// The minutes that a sign at `at`, hours at `h` and minutes at `m` stand for.
pub open spec fn clock_offset(b: Seq<u8>, at: int, h: int, m: int) -> Option<i16> {
    match (two(b, h), two(b, m)) {
        (Some(hh), Some(mm)) => if hh <= 23 && mm <= 59 {
            Some(
                (if b[at] == 0x2D {
                    -(hh * 60 + mm)
                } else {
                    hh * 60 + mm
                }) as i16,
            )
        } else {
            None
        },
        _ => None,
    }
}

fn read_offset(b: &[u8], at: usize, h: usize, m: usize) -> (r: Option<i16>)
    requires
        at < b.len(),
        h + 2 <= b.len(),
        m + 2 <= b.len(),
    ensures
        r == clock_offset(b@, at as int, h as int, m as int),
{
    match (read_two(b, h), read_two(b, m)) {
        (Some(hh), Some(mm)) => if hh <= 23 && mm <= 59 {
            let mag: i16 = hh as i16 * 60 + mm as i16;
            Some(
                if b[at] == 0x2D {
                    -mag
                } else {
                    mag
                },
            )
        } else {
            None
        },
        _ => None,
    }
}

/// `YYYY-MM-DDThh:mm:ss`, then nothing, `Z`, `±hh:mm` or `±hhmm`.
pub open spec fn iso8601(b: Seq<u8>) -> Option<DateTimeParts> {
    if b.len() == 19 {
        stamp(b, 0x2D, 0x54, None)
    } else if b.len() == 20 && b[19] == 0x5A {
        stamp(b, 0x2D, 0x54, Some(0))
    } else if b.len() == 25 && is_sign(b[19]) && b[22] == 0x3A {
        match clock_offset(b, 19, 20, 23) {
            Some(tz) => stamp(b, 0x2D, 0x54, Some(tz)),
            None => None,
        }
    } else if b.len() == 24 && is_sign(b[19]) {
        match clock_offset(b, 19, 20, 22) {
            Some(tz) => stamp(b, 0x2D, 0x54, Some(tz)),
            None => None,
        }
    } else {
        None
    }
}

/// Parses an ISO 8601 date and time.
pub fn parse_iso8601(s: &str) -> (r: Option<DateTimeParts>)
    ensures
        r == iso8601(lit(s)),
{
    let b = s.as_bytes();
    if b.len() == 19 {
        return parse_stamp(b, 0x2D, 0x54, None);
    }
    if b.len() == 20 && b[19] == 0x5A {
        return parse_stamp(b, 0x2D, 0x54, Some(0));
    }
    let tz = if b.len() == 25 && (b[19] == 0x2B || b[19] == 0x2D) && b[22] == 0x3A {
        read_offset(b, 19, 20, 23)
    } else if b.len() == 24 && (b[19] == 0x2B || b[19] == 0x2D) {
        read_offset(b, 19, 20, 22)
    } else {
        None
    };
    match tz {
        Some(_) => parse_stamp(b, 0x2D, 0x54, tz),
        None => None,
    }
}

/// `±HH:MM`.
pub open spec fn exif_offset(b: Seq<u8>) -> Option<i16> {
    if b.len() == 6 && is_sign(b[0]) && b[3] == 0x3A {
        clock_offset(b, 0, 1, 4)
    } else {
        None
    }
}

/// Parses an EXIF offset from UTC into minutes.
pub fn parse_exif_offset(s: &str) -> (r: Option<i16>)
    ensures
        r == exif_offset(lit(s)),
{
    let b = s.as_bytes();
    if b.len() != 6 || (b[0] != 0x2B && b[0] != 0x2D) || b[3] != 0x3A {
        return None;
    }
    read_offset(b, 0, 1, 4)
}

/// The number of a month by its English abbreviation.
pub open spec fn month_name(b: Seq<u8>) -> Option<u8> {
    if b == lit("Jan") {
        Some(1)
    } else if b == lit("Feb") {
        Some(2)
    } else if b == lit("Mar") {
        Some(3)
    } else if b == lit("Apr") {
        Some(4)
    } else if b == lit("May") {
        Some(5)
    } else if b == lit("Jun") {
        Some(6)
    } else if b == lit("Jul") {
        Some(7)
    } else if b == lit("Aug") {
        Some(8)
    } else if b == lit("Sep") {
        Some(9)
    } else if b == lit("Oct") {
        Some(10)
    } else if b == lit("Nov") {
        Some(11)
    } else if b == lit("Dec") {
        Some(12)
    } else {
        None
    }
}

fn month_of(b: &[u8]) -> (r: Option<u8>)
    ensures
        r == month_name(b@),
{
    if is_str(b, "Jan") {
        Some(1)
    } else if is_str(b, "Feb") {
        Some(2)
    } else if is_str(b, "Mar") {
        Some(3)
    } else if is_str(b, "Apr") {
        Some(4)
    } else if is_str(b, "May") {
        Some(5)
    } else if is_str(b, "Jun") {
        Some(6)
    } else if is_str(b, "Jul") {
        Some(7)
    } else if is_str(b, "Aug") {
        Some(8)
    } else if is_str(b, "Sep") {
        Some(9)
    } else if is_str(b, "Oct") {
        Some(10)
    } else if is_str(b, "Nov") {
        Some(11)
    } else if is_str(b, "Dec") {
        Some(12)
    } else {
        None
    }
}

/// `Day, DD Mon YYYY HH:MM:SS GMT`.
pub open spec fn rfc1123(b: Seq<u8>) -> Option<DateTimeParts> {
    if b.len() != 29 || b[3] != 0x2C || b[4] != 0x20 || b.subrange(26, 29) != lit("GMT") {
        None
    } else {
        match (
            month_name(b.subrange(8, 11)),
            two(b, 5),
            four(b, 12),
            two(b, 17),
            two(b, 20),
            two(b, 23),
        ) {
            (Some(month), Some(d), Some(y), Some(h), Some(mi), Some(s)) => if 1 <= d <= 31 && h
                <= 23 && mi <= 59 && s <= 60 {
                Some(
                    DateTimeParts {
                        year: y as u16,
                        month,
                        day: d as u8,
                        hour: h as u8,
                        minute: mi as u8,
                        second: s as u8,
                        tz_offset_min: Some(0),
                    },
                )
            } else {
                None
            },
            _ => None,
        }
    }
}

/// Parses an RFC 1123 date and time.
pub fn parse_rfc1123(s: &str) -> (r: Option<DateTimeParts>)
    ensures
        r == rfc1123(lit(s)),
{
    let b = s.as_bytes();
    if b.len() != 29 || b[3] != 0x2C || b[4] != 0x20 || !is_str(part(b, 26, 29), "GMT") {
        return None;
    }
    let month: u8 = match month_of(part(b, 8, 11)) {
        Some(m) => m,
        None => return None,
    };
    let day: u8 = match read_two(b, 5) {
        Some(v) => v,
        None => return None,
    };
    let year: u16 = match read_four(b, 12) {
        Some(v) => v,
        None => return None,
    };
    let hour: u8 = match read_two(b, 17) {
        Some(v) => v,
        None => return None,
    };
    let minute: u8 = match read_two(b, 20) {
        Some(v) => v,
        None => return None,
    };
    let second: u8 = match read_two(b, 23) {
        Some(v) => v,
        None => return None,
    };
    if day < 1 || day > 31 || hour > 23 || minute > 59 || second > 60 {
        return None;
    }
    Some(DateTimeParts { year, month, day, hour, minute, second, tz_offset_min: Some(0) })
}

/// `YYYY-MM-DD`, at midnight.
pub open spec fn bare_date(b: Seq<u8>) -> Option<DateTimeParts> {
    if b.len() != 10 || b[4] != 0x2D || b[7] != 0x2D {
        None
    } else {
        match (four(b, 0), two(b, 5), two(b, 8)) {
            (Some(y), Some(m), Some(d)) => if y != 0 && 1 <= m <= 12 && 1 <= d <= 31 {
                Some(
                    DateTimeParts {
                        year: y as u16,
                        month: m as u8,
                        day: d as u8,
                        hour: 0,
                        minute: 0,
                        second: 0,
                        tz_offset_min: None,
                    },
                )
            } else {
                None
            },
            _ => None,
        }
    }
}

/// Parses a bare date.
pub fn parse_bare_date(s: &str) -> (r: Option<DateTimeParts>)
    ensures
        r == bare_date(lit(s)),
{
    let b = s.as_bytes();
    if b.len() != 10 || b[4] != 0x2D || b[7] != 0x2D {
        return None;
    }
    let year: u16 = match read_four(b, 0) {
        Some(v) => v,
        None => return None,
    };
    let month: u8 = match read_two(b, 5) {
        Some(v) => v,
        None => return None,
    };
    let day: u8 = match read_two(b, 8) {
        Some(v) => v,
        None => return None,
    };
    if year == 0 || month < 1 || month > 12 || day < 1 || day > 31 {
        return None;
    }
    Some(DateTimeParts { year, month, day, hour: 0, minute: 0, second: 0, tz_offset_min: None })
}

/// The time in a PNG `Creation Time` text: the first notation that fits.
pub open spec fn png_time(b: Seq<u8>) -> Option<DateTimeParts> {
    match iso8601(b) {
        Some(t) => Some(t),
        None => match rfc1123(b) {
            Some(t) => Some(t),
            None => bare_date(b),
        },
    }
}

/// Parses a PNG `Creation Time` text.
pub fn parse_png_creation_time(s: &str) -> (r: Option<DateTimeParts>)
    ensures
        r == png_time(lit(s)),
{
    match parse_iso8601(s) {
        Some(t) => Some(t),
        None => match parse_rfc1123(s) {
            Some(t) => Some(t),
            None => parse_bare_date(s),
        },
    }
}

} // verus!
