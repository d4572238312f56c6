//! What a movie header tells: when it was made, how long it runs and how large its picture
//! is, by the bytes that it is made of.
use vstd::prelude::*;

use crate::civil::{
    date_of, date_on, dates_are_distinct, day_number, days_before_month, days_before_year, is_date,
};
use crate::formats::movie::{mp4_time, mvhd, tkhd};
use crate::model::DateTimeParts;

verus! {

/// The number that two bytes make, the more significant first.
pub open spec fn two(b: Seq<u8>, i: int) -> int {
    b[i] as int * 256 + b[i + 1]
}

/// The number that four bytes make, the most significant first.
pub open spec fn four(b: Seq<u8>, i: int) -> int {
    two(b, i) * 65536 + two(b, i + 2)
}

/// The number that eight bytes make, the most significant first.
pub open spec fn eight(b: Seq<u8>, i: int) -> int {
    four(b, i) * 0x1_0000_0000 + four(b, i + 4)
}

/// The day after a date.
pub open spec fn next_day(t: (int, int, int)) -> (int, int, int) {
    let last = if t.1 == 2 {
        if t.0 % 400 == 0 || (t.0 % 4 == 0 && t.0 % 100 != 0) {
            29int
        } else {
            28
        }
    } else if t.1 == 4 || t.1 == 6 || t.1 == 9 || t.1 == 11 {
        30
    } else {
        31
    };
    if t.2 < last {
        (t.0, t.1, t.2 + 1)
    } else if t.1 < 12 {
        (t.0, t.1 + 1, 1)
    } else {
        (t.0 + 1, 1, 1)
    }
}

/// The days follow each other as in the calendar, and they are counted from the start of
/// 1970.
pub proof fn days_follow_each_other(t: (int, int, int))
    requires
        is_date(t.0, t.1, t.2),
    ensures
        ({
            let n = next_day(t);
            &&& is_date(n.0, n.1, n.2)
            &&& day_number(n.0, n.1, n.2) == day_number(t.0, t.1, t.2) + 1
        }),
        is_date(1970, 1, 1) && day_number(1970, 1, 1) == 0,
{
    crate::civil::year_lengths(t.0);
    reveal_with_fuel(days_before_month, 13);
}

/// Seconds from the start of 1904 to a time, by the calendar.
pub open spec fn since_1904(t: DateTimeParts) -> int {
    (day_number(t.year as int, t.month as int, t.day as int) - day_number(1904, 1, 1)) * 86400
        + t.hour * 3600 + t.minute * 60 + t.second
}

/// A time of day, on a day that the calendar has.
pub open spec fn is_time(t: DateTimeParts) -> bool {
    &&& is_date(t.year as int, t.month as int, t.day as int)
    &&& t.hour < 24
    &&& t.minute < 60
    &&& t.second < 60
}

/// The first second whose year does not fit.
pub open spec fn too_late() -> int {
    (day_number(65536, 1, 1) - day_number(1904, 1, 1)) * 86400
}

proof fn lemma_epoch()
    ensures
        day_number(1904, 1, 1) == -24107,
        day_number(65536, 1, 1) == 23217004,
{
}

proof fn lemma_years(a: int, b: int)
    requires
        a <= b,
    ensures
        days_before_year(a) <= days_before_year(b),
    decreases b - a,
{
    if a < b {
        crate::civil::year_lengths(b - 1);
        lemma_years(a, b - 1);
    }
}

proof fn lemma_in_year(y: int, m: int, d: int)
    requires
        is_date(y, m, d),
    ensures
        days_before_year(y) <= day_number(y, m, d) + days_before_year(1970) < days_before_year(y + 1),
{
    crate::civil::year_lengths(y);
    reveal_with_fuel(days_before_month, 13);
}

/// A day from the start of 1904 up to the end of 65535 has a year of four or five digits.
proof fn lemma_year_fits(days: int, t: (int, int, int))
    requires
        date_on(t, days),
        -24107 <= days < 23217004,
    ensures
        1904 <= t.0 <= 65535,
{
    lemma_epoch();
    lemma_in_year(t.0, t.1, t.2);
    lemma_in_year(65536, 1, 1);
    lemma_in_year(1904, 1, 1);
    if t.0 < 1904 {
        lemma_years(t.0 + 1, 1904);
    }
    if t.0 > 65535 {
        lemma_years(65536, t.0);
    }
}

/// Every day from the start of 1904 on has a date.
proof fn lemma_dated(days: int)
    requires
        -24107 <= days,
    ensures
        date_on(date_of(days), days),
    decreases days + 24107,
{
    lemma_epoch();
    if days == -24107 {
        assert(date_on((1904, 1, 1), days));
    } else {
        lemma_dated(days - 1);
        days_follow_each_other(date_of(days - 1));
        assert(date_on(next_day(date_of(days - 1)), days));
    }
}

/// A count of seconds from the start of 1904 is turned into the time that lies so many
/// seconds behind it, in UTC.
pub proof fn movie_times_invert(secs: u64)
    requires
        secs < too_late(),
    ensures
        is_time(mp4_time(secs)),
        since_1904(mp4_time(secs)) == secs,
        mp4_time(secs).tz_offset_min == Some(0i16),
{
    lemma_epoch();
    let days = secs as int / 86400 - 24107;
    lemma_dated(days);
    lemma_year_fits(days, date_of(days));
    let tod = secs as int % 86400;
    assert(tod == tod / 3600 * 3600 + tod % 3600 / 60 * 60 + tod % 60);
}

/// No other time lies so many seconds behind the start of 1904.
pub proof fn movie_times_are_the_only_ones(secs: u64, t: DateTimeParts)
    requires
        secs < too_late(),
        is_time(t),
        since_1904(t) == secs,
        t.tz_offset_min == Some(0i16),
    ensures
        mp4_time(secs) == t,
{
    movie_times_invert(secs);
    let u = mp4_time(secs);
    let (a, b) = (
        day_number(t.year as int, t.month as int, t.day as int),
        day_number(u.year as int, u.month as int, u.day as int),
    );
    assert(a == b);
    dates_are_distinct(
        (t.year as int, t.month as int, t.day as int),
        (u.year as int, u.month as int, u.day as int),
    );
}

/// A length in units of which `scale` make a second, in whole milliseconds.
pub open spec fn in_millis(ms: u64, length: int, scale: int) -> bool {
    ms * scale <= length * 1000 < (ms + 1) * scale
}

/// What a movie header with the given numbers has to tell.
pub open spec fn tells(p: Seq<u8>, created: int, scale: int, length: int) -> bool {
    let h = mvhd(p);
    &&& created == 0 ==> h.created is None
    &&& 0 < created < too_late() ==> (h.created matches Some(t) && is_time(t) && since_1904(t)
        == created && t.tz_offset_min == Some(0i16))
    &&& h.duration_ms is Some ==> scale > 0 && in_millis(h.duration_ms.unwrap(), length, scale)
    &&& h.duration_ms is None <==> h.timescale_invalid
    &&& h.duration_ms is None <==> (scale == 0 || length * 1000 >= 0x1_0000_0000_0000_0000
        * scale)
}

proof fn lemma_tells(p: Seq<u8>, created: u64, scale: u32, length: u64)
    requires
        mvhd(p) == crate::formats::movie::movie_times(created, scale, length),
    ensures
        tells(p, created as int, scale as int, length as int),
{
    if 0 < created && created < too_late() {
        movie_times_invert(created);
    }
    if scale > 0 {
        let (x, s) = (length as int * 1000, scale as int);
        let q = x / s;
        vstd::arithmetic::div_mod::lemma_fundamental_div_mod(x, s);
        vstd::arithmetic::div_mod::lemma_mod_bound(x, s);
        assert(q * s <= x < (q + 1) * s && q >= 0) by (nonlinear_arith)
            requires
                x == s * q + x % s,
                0 <= x % s < s,
                x >= 0,
                s > 0,
        ;
        assert((q <= 0xFFFF_FFFF_FFFF_FFFF) == (x < 0x1_0000_0000_0000_0000 * s))
            by (nonlinear_arith)
            requires
                q * s <= x < (q + 1) * s,
                s > 0,
        ;
    }
}

/// A movie header of the short form tells its time, in seconds from the start of 1904, and
/// its length, in units of which the scale says how many make a second.
pub proof fn short_movie_headers_are_read(p: Seq<u8>)
    requires
        p.len() >= 20,
        p[0] != 1,
    ensures
        tells(p, four(p, 4), four(p, 12), four(p, 16)),
{
    lemma_tells(p, four(p, 4) as u64, four(p, 12) as u32, four(p, 16) as u64);
}

/// A movie header of the long form does so with longer numbers.
pub proof fn long_movie_headers_are_read(p: Seq<u8>)
    requires
        p.len() >= 32,
        p[0] == 1,
    ensures
        tells(p, eight(p, 4), four(p, 20), eight(p, 24)),
{
    lemma_tells(p, eight(p, 4) as u64, four(p, 20) as u32, eight(p, 24) as u64);
}

/// A track header tells the size of its picture in whole points: the numbers at its end
/// have their fractions in the lower half. One without a picture tells none.
pub proof fn track_headers_are_read(p: Seq<u8>)
    requires
        p.len() >= 84,
        p[0] == 1 ==> p.len() >= 96,
    ensures
        ({
            let at = if p[0] == 1 {
                88int
            } else {
                76
            };
            let (w, h) = (two(p, at), two(p, at + 4));
            match tkhd(p) {
                Some(d) => d == (w as u32, h as u32) && w > 0 && h > 0,
                None => w == 0 || h == 0,
            }
        }),
{
    let at = if p[0] == 1 {
        88int
    } else {
        76
    };
    assert(four(p, at) / 65536 == two(p, at));
    assert(four(p, at + 4) / 65536 == two(p, at + 4));
}

} // verus!
