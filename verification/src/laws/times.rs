//! Dates and times in texts: each notation, written out, reads back as the time it was written
//! for, and nothing else reads.
use vstd::prelude::*;

use crate::bytes::lit;
use crate::dates::{
    bare_date, clock_offset, exif_datetime, exif_offset, iso8601, four, month_name, png_time, rfc1123,
    stamp, two,
};
use crate::model::DateTimeParts;

verus! {

/// The digit for `n`.
pub open spec fn digit(n: int) -> u8 {
    (0x30 + n) as u8
}

/// `n` in two digits.
pub open spec fn in_two(n: int) -> Seq<u8> {
    seq![digit(n / 10), digit(n % 10)]
}

/// `n` in four digits.
pub open spec fn in_four(n: int) -> Seq<u8> {
    seq![digit(n / 1000), digit(n / 100 % 10), digit(n / 10 % 10), digit(n % 10)]
}

/// Numbers that a time may have. Any month may have 31 days, and a minute a leap second.
pub open spec fn in_range(t: DateTimeParts) -> bool {
    &&& 1 <= t.year <= 9999
    &&& 1 <= t.month <= 12
    &&& 1 <= t.day <= 31
    &&& t.hour <= 23
    &&& t.minute <= 59
    &&& t.second <= 60
}

/// `YYYY-MM-DD` with another separator.
pub open spec fn date_text(t: DateTimeParts, sep: u8) -> Seq<u8> {
    in_four(t.year as int) + seq![sep] + in_two(t.month as int) + seq![sep] + in_two(t.day as int)
}

/// `HH:MM:SS`.
pub open spec fn clock_text(t: DateTimeParts) -> Seq<u8> {
    in_two(t.hour as int) + seq![0x3Au8] + in_two(t.minute as int) + seq![0x3Au8] + in_two(
        t.second as int,
    )
}

/// `YYYY:MM:DD HH:MM:SS`.
pub open spec fn exif_text(t: DateTimeParts) -> Seq<u8> {
    date_text(t, 0x3A) + seq![0x20u8] + clock_text(t)
}

/// `YYYY-MM-DDTHH:MM:SS`.
pub open spec fn iso_text(t: DateTimeParts) -> Seq<u8> {
    date_text(t, 0x2D) + seq![0x54u8] + clock_text(t)
}

/// A distance from UTC: hours and minutes behind a plus or a minus.
pub struct Zone {
    pub ahead: bool,
    pub hours: int,
    pub minutes: int,
}

pub open spec fn is_zone(z: Zone) -> bool {
    0 <= z.hours <= 23 && 0 <= z.minutes <= 59
}

pub open spec fn zone_minutes(z: Zone) -> int {
    if z.ahead {
        z.hours * 60 + z.minutes
    } else {
        -(z.hours * 60) - z.minutes
    }
}

pub open spec fn zone_sign(z: Zone) -> u8 {
    if z.ahead {
        0x2B
    } else {
        0x2D
    }
}

/// `+HH:MM` or `-HH:MM`.
pub open spec fn zone_text(z: Zone) -> Seq<u8> {
    seq![zone_sign(z)] + in_two(z.hours) + seq![0x3Au8] + in_two(z.minutes)
}

/// `+HHMM` or `-HHMM`.
pub open spec fn short_zone_text(z: Zone) -> Seq<u8> {
    seq![zone_sign(z)] + in_two(z.hours) + in_two(z.minutes)
}

pub open spec fn at_zone(t: DateTimeParts, tz: Option<i16>) -> DateTimeParts {
    DateTimeParts { tz_offset_min: tz, ..t }
}

/// The letters of a date and a time, one by one.
proof fn lemma_letters(t: DateTimeParts, sep: u8, mid: u8, x: Seq<u8>)
    ensures
        ({
            let b = date_text(t, sep) + seq![mid] + clock_text(t) + x;
            let y = t.year as int;
            &&& b.len() == 19 + x.len()
            &&& b[0] == digit(y / 1000)
            &&& b[1] == digit(y / 100 % 10)
            &&& b[2] == digit(y / 10 % 10)
            &&& b[3] == digit(y % 10)
            &&& b[4] == sep
            &&& b[5] == digit(t.month as int / 10)
            &&& b[6] == digit(t.month as int % 10)
            &&& b[7] == sep
            &&& b[8] == digit(t.day as int / 10)
            &&& b[9] == digit(t.day as int % 10)
            &&& b[10] == mid
            &&& b[11] == digit(t.hour as int / 10)
            &&& b[12] == digit(t.hour as int % 10)
            &&& b[13] == 0x3A
            &&& b[14] == digit(t.minute as int / 10)
            &&& b[15] == digit(t.minute as int % 10)
            &&& b[16] == 0x3A
            &&& b[17] == digit(t.second as int / 10)
            &&& b[18] == digit(t.second as int % 10)
        }),
{
}

proof fn lemma_in_two(b: Seq<u8>, i: int, n: int)
    ensures
        0 <= n <= 99 && b[i] == digit(n / 10) && b[i + 1] == digit(n % 10) ==> two(b, i) == Some(n),
        two(b, i) == Some(n) ==> 0 <= n <= 99 && b[i] == digit(n / 10) && b[i + 1] == digit(n % 10),
{
}

proof fn lemma_in_four(b: Seq<u8>, i: int, n: int)
    ensures
        0 <= n <= 9999 && b[i] == digit(n / 1000) && b[i + 1] == digit(n / 100 % 10) && b[i + 2]
            == digit(n / 10 % 10) && b[i + 3] == digit(n % 10) ==> four(b, i) == Some(n),
        four(b, i) == Some(n) ==> 0 <= n <= 9999 && b[i] == digit(n / 1000) && b[i + 1] == digit(
            n / 100 % 10,
        ) && b[i + 2] == digit(n / 10 % 10) && b[i + 3] == digit(n % 10),
{
    lemma_in_two(b, i, n / 100);
    lemma_in_two(b, i + 2, n % 100);
    assert(n / 100 / 10 == n / 1000);
    assert(n % 100 / 10 == n / 10 % 10 && n % 100 % 10 == n % 10);
    if four(b, i) == Some(n) {
        let (h, l) = (two(b, i).unwrap(), two(b, i + 2).unwrap());
        lemma_in_two(b, i, h);
        lemma_in_two(b, i + 2, l);
        assert(n / 100 == h && n % 100 == l);
    }
}

proof fn lemma_stamp(t: DateTimeParts, sep: u8, mid: u8, x: Seq<u8>, tz: Option<i16>)
    requires
        in_range(t),
    ensures
        stamp(date_text(t, sep) + seq![mid] + clock_text(t) + x, sep, mid, tz) == Some(
            at_zone(t, tz),
        ),
        (date_text(t, sep) + seq![mid] + clock_text(t) + x).len() == 19 + x.len(),
{
    let b = date_text(t, sep) + seq![mid] + clock_text(t) + x;
    lemma_letters(t, sep, mid, x);
    lemma_in_four(b, 0, t.year as int);
    lemma_in_two(b, 5, t.month as int);
    lemma_in_two(b, 8, t.day as int);
    lemma_in_two(b, 11, t.hour as int);
    lemma_in_two(b, 14, t.minute as int);
    lemma_in_two(b, 17, t.second as int);
}

proof fn lemma_only_stamp(b: Seq<u8>, sep: u8, mid: u8, tz: Option<i16>, t: DateTimeParts)
    requires
        stamp(b, sep, mid, tz) == Some(t),
    ensures
        in_range(t),
        t.tz_offset_min == tz,
        b.len() >= 19,
        b.take(19) == date_text(t, sep) + seq![mid] + clock_text(t),
{
    lemma_in_four(b, 0, four(b, 0).unwrap());
    lemma_in_two(b, 5, two(b, 5).unwrap());
    lemma_in_two(b, 8, two(b, 8).unwrap());
    lemma_in_two(b, 11, two(b, 11).unwrap());
    lemma_in_two(b, 14, two(b, 14).unwrap());
    lemma_in_two(b, 17, two(b, 17).unwrap());
    lemma_letters(t, sep, mid, seq![]);
    let w = date_text(t, sep) + seq![mid] + clock_text(t);
    assert(w + seq![] =~= w);
    lemma_same(b.take(19), w);
}

/// Two texts of 19 letters are the same where each letter is.
proof fn lemma_same(a: Seq<u8>, b: Seq<u8>)
    requires
        a.len() == 19,
        b.len() == 19,
        a[0] == b[0] && a[1] == b[1] && a[2] == b[2] && a[3] == b[3] && a[4] == b[4],
        a[5] == b[5] && a[6] == b[6] && a[7] == b[7] && a[8] == b[8] && a[9] == b[9],
        a[10] == b[10] && a[11] == b[11] && a[12] == b[12] && a[13] == b[13] && a[14] == b[14],
        a[15] == b[15] && a[16] == b[16] && a[17] == b[17] && a[18] == b[18],
    ensures
        a == b,
{
    assert(a =~= b);
}

/// A date and time of EXIF reads back.
pub proof fn exif_times_are_read(t: DateTimeParts)
    requires
        in_range(t),
    ensures
        exif_datetime(exif_text(t)) == Some(at_zone(t, None)),
{
    lemma_stamp(t, 0x3A, 0x20, seq![], None);
    assert(exif_text(t) + seq![] =~= exif_text(t));
}

/// Only a date and time of EXIF reads as one.
pub proof fn only_exif_times_are_read(b: Seq<u8>, t: DateTimeParts)
    requires
        exif_datetime(b) == Some(t),
    ensures
        in_range(t),
        t.tz_offset_min is None,
        b == exif_text(t),
{
    lemma_only_stamp(b, 0x3A, 0x20, None, t);
    assert(b.take(19) =~= b);
}

proof fn lemma_clock(b: Seq<u8>, at: int, h: int, m: int, z: Zone)
    requires
        is_zone(z),
        b[at] == zone_sign(z),
        b[h] == digit(z.hours / 10),
        b[h + 1] == digit(z.hours % 10),
        b[m] == digit(z.minutes / 10),
        b[m + 1] == digit(z.minutes % 10),
    ensures
        clock_offset(b, at, h, m) == Some(zone_minutes(z) as i16),
{
}

/// A time of ISO 8601 reads back: without a zone, in UTC, or with a distance from it, which
/// counts in minutes and is negative behind a minus.
#[verifier::rlimit(60)]
pub proof fn iso_times_are_read(t: DateTimeParts, z: Zone)
    requires
        in_range(t),
        is_zone(z),
    ensures
        iso8601(iso_text(t)) == Some(at_zone(t, None)),
        iso8601(iso_text(t) + seq![0x5Au8]) == Some(at_zone(t, Some(0))),
        iso8601(iso_text(t) + zone_text(z)) == Some(at_zone(t, Some(zone_minutes(z) as i16))),
        iso8601(iso_text(t) + short_zone_text(z)) == Some(
            at_zone(t, Some(zone_minutes(z) as i16)),
        ),
        -1440 < zone_minutes(z) < 1440,
{
    let tz = Some(zone_minutes(z) as i16);
    lemma_stamp(t, 0x2D, 0x54, seq![], None);
    assert(iso_text(t) + seq![] =~= iso_text(t));
    lemma_stamp(t, 0x2D, 0x54, seq![0x5Au8], Some(0));
    lemma_stamp(t, 0x2D, 0x54, zone_text(z), tz);
    lemma_stamp(t, 0x2D, 0x54, short_zone_text(z), tz);
    let b = iso_text(t) + zone_text(z);
    assert(b[19] == zone_sign(z) && b[22] == 0x3A);
    assert(b[20] == digit(z.hours / 10) && b[21] == digit(z.hours % 10));
    assert(b[23] == digit(z.minutes / 10) && b[24] == digit(z.minutes % 10));
    lemma_clock(b, 19, 20, 23, z);
    let c = iso_text(t) + short_zone_text(z);
    assert(c[19] == zone_sign(z));
    assert(c[20] == digit(z.hours / 10) && c[21] == digit(z.hours % 10));
    assert(c[22] == digit(z.minutes / 10) && c[23] == digit(z.minutes % 10));
    lemma_clock(c, 19, 20, 22, z);
}

/// The zone that a text of a distance was written for.
spec fn zone_at(b: Seq<u8>, at: int, h: int, m: int) -> Zone {
    Zone {
        ahead: b[at] == 0x2B,
        hours: (b[h] - 0x30) * 10 + (b[h + 1] - 0x30),
        minutes: (b[m] - 0x30) * 10 + (b[m + 1] - 0x30),
    }
}

proof fn lemma_only_clock(b: Seq<u8>, at: int, h: int, m: int)
    requires
        clock_offset(b, at, h, m) is Some,
        b[at] == 0x2B || b[at] == 0x2D,
    ensures
        ({
            let z = zone_at(b, at, h, m);
            &&& is_zone(z)
            &&& clock_offset(b, at, h, m) == Some(zone_minutes(z) as i16)
            &&& -1440 < zone_minutes(z) < 1440
            &&& b[at] == zone_sign(z)
            &&& b[h] == digit(z.hours / 10)
            &&& b[h + 1] == digit(z.hours % 10)
            &&& b[m] == digit(z.minutes / 10)
            &&& b[m + 1] == digit(z.minutes % 10)
        }),
{
    let z = zone_at(b, at, h, m);
    lemma_in_two(b, h, z.hours);
    lemma_in_two(b, m, z.minutes);
}

proof fn lemma_only_long(b: Seq<u8>, t: DateTimeParts)
    requires
        iso8601(b) == Some(t),
        b.len() == 25,
    ensures
        ({
            let z = zone_at(b, 19, 20, 23);
            &&& in_range(t)
            &&& is_zone(z)
            &&& t.tz_offset_min == Some(zone_minutes(z) as i16)
            &&& -1440 < zone_minutes(z) < 1440
            &&& b == iso_text(t) + zone_text(z)
        }),
{
    lemma_only_clock(b, 19, 20, 23);
    let z = zone_at(b, 19, 20, 23);
    lemma_only_stamp(b, 0x2D, 0x54, clock_offset(b, 19, 20, 23), t);
    let w = zone_text(z);
    assert(w[0] == b[19] && w[1] == b[20] && w[2] == b[21] && w[3] == b[22] && w[4] == b[23]
        && w[5] == b[24]);
    assert(b =~= b.take(19) + w);
}

proof fn lemma_only_short(b: Seq<u8>, t: DateTimeParts)
    requires
        iso8601(b) == Some(t),
        b.len() == 24,
    ensures
        ({
            let z = zone_at(b, 19, 20, 22);
            &&& in_range(t)
            &&& is_zone(z)
            &&& t.tz_offset_min == Some(zone_minutes(z) as i16)
            &&& -1440 < zone_minutes(z) < 1440
            &&& b == iso_text(t) + short_zone_text(z)
        }),
{
    lemma_only_clock(b, 19, 20, 22);
    let z = zone_at(b, 19, 20, 22);
    lemma_only_stamp(b, 0x2D, 0x54, clock_offset(b, 19, 20, 22), t);
    let w = short_zone_text(z);
    assert(w[0] == b[19] && w[1] == b[20] && w[2] == b[21] && w[3] == b[22] && w[4] == b[23]);
    assert(b =~= b.take(19) + w);
}

proof fn lemma_only_plain(b: Seq<u8>, t: DateTimeParts)
    requires
        iso8601(b) == Some(t),
        b.len() == 19 || b.len() == 20,
    ensures
        in_range(t),
        b.len() == 19 ==> t.tz_offset_min is None && b == iso_text(t),
        b.len() == 20 ==> t.tz_offset_min == Some(0i16) && b == iso_text(t) + seq![0x5Au8],
{
    if b.len() == 19 {
        lemma_only_stamp(b, 0x2D, 0x54, None, t);
        assert(b.take(19) =~= b);
    } else {
        lemma_only_stamp(b, 0x2D, 0x54, Some(0), t);
        assert(b =~= b.take(19) + seq![0x5Au8]);
    }
}

/// Only a time of ISO 8601 reads as one.
pub proof fn only_iso_times_are_read(b: Seq<u8>, t: DateTimeParts) -> (z: Zone)
    requires
        iso8601(b) == Some(t),
    ensures
        in_range(t),
        is_zone(z),
        match t.tz_offset_min {
            None => b == iso_text(t),
            Some(m) => (m == 0 && b == iso_text(t) + seq![0x5Au8]) || (m == zone_minutes(z) && (b
                == iso_text(t) + zone_text(z) || b == iso_text(t) + short_zone_text(z))),
        },
{
    if b.len() == 25 {
        lemma_only_long(b, t);
        zone_at(b, 19, 20, 23)
    } else if b.len() == 24 {
        lemma_only_short(b, t);
        zone_at(b, 19, 20, 22)
    } else {
        lemma_only_plain(b, t);
        Zone { ahead: true, hours: 0, minutes: 0 }
    }
}

/// A distance from UTC of EXIF reads back.
pub proof fn exif_zones_are_read(z: Zone)
    requires
        is_zone(z),
    ensures
        exif_offset(zone_text(z)) == Some(zone_minutes(z) as i16),
{
    lemma_clock(zone_text(z), 0, 1, 4, z);
}

/// Only a distance of EXIF reads as one.
pub proof fn only_exif_zones_are_read(b: Seq<u8>, m: i16) -> (z: Zone)
    requires
        exif_offset(b) == Some(m),
    ensures
        is_zone(z),
        m == zone_minutes(z),
        b == zone_text(z),
{
    let z = zone_at(b, 0, 1, 4);
    assert(b =~= zone_text(z));
    z
}

/// The month `m` in three letters.
pub open spec fn month_text(m: int) -> Seq<u8> {
    if m == 1 {
        seq![0x4Au8, 0x61u8, 0x6Eu8]
    } else if m == 2 {
        seq![0x46u8, 0x65u8, 0x62u8]
    } else if m == 3 {
        seq![0x4Du8, 0x61u8, 0x72u8]
    } else if m == 4 {
        seq![0x41u8, 0x70u8, 0x72u8]
    } else if m == 5 {
        seq![0x4Du8, 0x61u8, 0x79u8]
    } else if m == 6 {
        seq![0x4Au8, 0x75u8, 0x6Eu8]
    } else if m == 7 {
        seq![0x4Au8, 0x75u8, 0x6Cu8]
    } else if m == 8 {
        seq![0x41u8, 0x75u8, 0x67u8]
    } else if m == 9 {
        seq![0x53u8, 0x65u8, 0x70u8]
    } else if m == 10 {
        seq![0x4Fu8, 0x63u8, 0x74u8]
    } else if m == 11 {
        seq![0x4Eu8, 0x6Fu8, 0x76u8]
    } else {
        seq![0x44u8, 0x65u8, 0x63u8]
    }
}

proof fn lemma_months()
    ensures
        lit("Jan") == month_text(1),
        lit("Feb") == month_text(2),
        lit("Mar") == month_text(3),
        lit("Apr") == month_text(4),
        lit("May") == month_text(5),
        lit("Jun") == month_text(6),
        lit("Jul") == month_text(7),
        lit("Aug") == month_text(8),
        lit("Sep") == month_text(9),
        lit("Oct") == month_text(10),
        lit("Nov") == month_text(11),
        lit("Dec") == month_text(12),
        lit("GMT") == seq![0x47u8, 0x4Du8, 0x54u8],
{
    reveal_strlit("Jan");
    reveal_strlit("Feb");
    reveal_strlit("Mar");
    reveal_strlit("Apr");
    reveal_strlit("May");
    reveal_strlit("Jun");
    reveal_strlit("Jul");
    reveal_strlit("Aug");
    reveal_strlit("Sep");
    reveal_strlit("Oct");
    reveal_strlit("Nov");
    reveal_strlit("Dec");
    reveal_strlit("GMT");
    vstd::string::is_ascii_spec_bytes("Jan");
    vstd::string::is_ascii_spec_bytes("Feb");
    vstd::string::is_ascii_spec_bytes("Mar");
    vstd::string::is_ascii_spec_bytes("Apr");
    vstd::string::is_ascii_spec_bytes("May");
    vstd::string::is_ascii_spec_bytes("Jun");
    vstd::string::is_ascii_spec_bytes("Jul");
    vstd::string::is_ascii_spec_bytes("Aug");
    vstd::string::is_ascii_spec_bytes("Sep");
    vstd::string::is_ascii_spec_bytes("Oct");
    vstd::string::is_ascii_spec_bytes("Nov");
    vstd::string::is_ascii_spec_bytes("Dec");
    vstd::string::is_ascii_spec_bytes("GMT");
}

proof fn lemma_month(m: int)
    requires
        1 <= m <= 12,
    ensures
        month_name(month_text(m)) == Some(m as u8),
{
    lemma_months();
    let t = month_text(m);
    assert(m != 1 ==> t[0] != 0x4A || t[1] != 0x61);
    assert(m != 2 ==> t[0] != 0x46);
    assert(m != 3 && m != 5 ==> t[0] != 0x4D);
    assert(month_text(3)[2] != month_text(5)[2]);
    assert(m != 4 && m != 8 ==> t[0] != 0x41);
    assert(month_text(4)[1] != month_text(8)[1]);
    assert(month_text(6)[2] != month_text(7)[2] && month_text(6)[1] != month_text(1)[1]);
    assert(m != 1 && m != 6 && m != 7 ==> t[0] != 0x4A);
    assert(month_text(1)[0] == 0x4A && month_text(2)[0] == 0x46 && month_text(3)[0] == 0x4D);
    assert(month_text(4)[0] == 0x41 && month_text(5)[0] == 0x4D && month_text(6)[0] == 0x4A);
    assert(month_text(7)[0] == 0x4A && month_text(8)[0] == 0x41 && month_text(9)[0] == 0x53);
    assert(month_text(10)[0] == 0x4F && month_text(11)[0] == 0x4E && month_text(12)[0] == 0x44);
}

/// `Day, DD Mon YYYY HH:MM:SS GMT`.
pub open spec fn mail_text(day: Seq<u8>, t: DateTimeParts) -> Seq<u8> {
    day + seq![0x2Cu8, 0x20u8] + in_two(t.day as int) + seq![0x20u8] + month_text(t.month as int)
        + seq![0x20u8] + in_four(t.year as int) + seq![0x20u8] + clock_text(t) + seq![
        0x20u8,
        0x47u8,
        0x4Du8,
        0x54u8,
    ]
}

/// The letters of a time in the notation of mail, one by one.
proof fn lemma_mail_letters(day: Seq<u8>, t: DateTimeParts)
    requires
        day.len() == 3,
        1 <= t.month <= 12,
    ensures
        ({
            let b = mail_text(day, t);
            let y = t.year as int;
            &&& b.len() == 29
            &&& b[3] == 0x2C
            &&& b[4] == 0x20
            &&& b[5] == digit(t.day as int / 10)
            &&& b[6] == digit(t.day as int % 10)
            &&& b.subrange(8, 11) == month_text(t.month as int)
            &&& b[12] == digit(y / 1000)
            &&& b[13] == digit(y / 100 % 10)
            &&& b[14] == digit(y / 10 % 10)
            &&& b[15] == digit(y % 10)
            &&& b[17] == digit(t.hour as int / 10)
            &&& b[18] == digit(t.hour as int % 10)
            &&& b[20] == digit(t.minute as int / 10)
            &&& b[21] == digit(t.minute as int % 10)
            &&& b[23] == digit(t.second as int / 10)
            &&& b[24] == digit(t.second as int % 10)
            &&& b.subrange(26, 29) == seq![0x47u8, 0x4Du8, 0x54u8]
        }),
{
    let b = mail_text(day, t);
    let m = month_text(t.month as int);
    assert(m.len() == 3);
    assert(b.subrange(26, 29) =~= seq![0x47u8, 0x4Du8, 0x54u8]);
    assert(b.subrange(8, 11) =~= m);
}

/// A time in the notation of mail, whatever the name of the day, reads back in UTC.
pub proof fn mail_times_are_read(day: Seq<u8>, t: DateTimeParts)
    requires
        in_range(t),
        day.len() == 3,
    ensures
        rfc1123(mail_text(day, t)) == Some(at_zone(t, Some(0))),
        png_time(mail_text(day, t)) == Some(at_zone(t, Some(0))),
{
    let b = mail_text(day, t);
    lemma_mail_letters(day, t);
    lemma_months();
    lemma_month(t.month as int);
    lemma_in_two(b, 5, t.day as int);
    lemma_in_four(b, 12, t.year as int);
    lemma_in_two(b, 17, t.hour as int);
    lemma_in_two(b, 20, t.minute as int);
    lemma_in_two(b, 23, t.second as int);
}

/// A date alone reads back as its midnight.
pub proof fn dates_are_read(t: DateTimeParts)
    requires
        in_range(t),
    ensures
        bare_date(date_text(t, 0x2D)) == Some(
            DateTimeParts { hour: 0, minute: 0, second: 0, tz_offset_min: None, ..t },
        ),
        png_time(date_text(t, 0x2D)) == bare_date(date_text(t, 0x2D)),
{
    let b = date_text(t, 0x2D);
    assert(b.len() == 10);
    assert(b[4] == 0x2D && b[7] == 0x2D);
    lemma_in_four(b, 0, t.year as int);
    lemma_in_two(b, 5, t.month as int);
    lemma_in_two(b, 8, t.day as int);
}

/// Only a date alone reads as one.
pub proof fn only_dates_are_read(b: Seq<u8>, t: DateTimeParts)
    requires
        bare_date(b) == Some(t),
    ensures
        in_range(t),
        t.hour == 0 && t.minute == 0 && t.second == 0,
        t.tz_offset_min is None,
        b == date_text(t, 0x2D),
{
    lemma_in_four(b, 0, four(b, 0).unwrap());
    lemma_in_two(b, 5, two(b, 5).unwrap());
    lemma_in_two(b, 8, two(b, 8).unwrap());
    assert(b =~= date_text(t, 0x2D));
}

/// A time of ISO 8601 is a time of a PNG text, and one in the notation of mail or a date alone
/// where it is none of those before.
pub proof fn png_times_are_these(b: Seq<u8>)
    ensures
        iso8601(b) is Some ==> png_time(b) == iso8601(b),
        iso8601(b) is None && rfc1123(b) is Some ==> png_time(b) == rfc1123(b),
        iso8601(b) is None && rfc1123(b) is None ==> png_time(b) == bare_date(b),
{
}

} // verus!
