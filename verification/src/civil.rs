//! The civil calendar: days counted from 1970-01-01 to a date of the Gregorian
//! calendar, extended backwards.
use vstd::prelude::*;

verus! {

pub open spec fn is_leap(y: int) -> bool {
    y % 4 == 0 && (y % 100 != 0 || y % 400 == 0)
}

pub open spec fn days_in_month(y: int, m: int) -> int {
    if m == 2 {
        if is_leap(y) {
            29
        } else {
            28
        }
    } else if m == 4 || m == 6 || m == 9 || m == 11 {
        30
    } else {
        31
    }
}

/// The days of the year `y` before month `m`.
pub open spec fn days_before_month(y: int, m: int) -> int
    decreases m,
{
    if m <= 1 {
        0
    } else {
        days_before_month(y, m - 1) + days_in_month(y, m - 1)
    }
}

/// The days from the first of January of the year 0 to that of the year `y`: 365 for
/// each year, and one for each leap year.
pub open spec fn days_before_year(y: int) -> int {
    365 * y + (y + 3) / 4 - (y + 99) / 100 + (y + 399) / 400
}

/// A date: year, month from 1, day from 1.
pub open spec fn is_date(y: int, m: int, d: int) -> bool {
    1 <= m <= 12 && 1 <= d <= days_in_month(y, m)
}

/// The days from 1970-01-01 to a date.
pub open spec fn day_number(y: int, m: int, d: int) -> int {
    days_before_year(y) - days_before_year(1970) + days_before_month(y, m) + d - 1
}

/// Whether `t` is the date on the given day.
pub open spec fn date_on(t: (int, int, int), days: int) -> bool {
    is_date(t.0, t.1, t.2) && day_number(t.0, t.1, t.2) == days
}

/// The date on the given day.
pub open spec fn date_of(days: int) -> (int, int, int) {
    choose|t: (int, int, int)| date_on(t, days)
}

/// Each year is as long as the calendar makes it.
pub proof fn year_lengths(y: int)
    ensures
        days_before_year(y + 1) - days_before_year(y) == (if is_leap(y) {
            366int
        } else {
            365
        }),
{
    assert((y + 4) / 4 - (y + 3) / 4 == if y % 4 == 0 {
        1int
    } else {
        0
    });
    assert((y + 100) / 100 - (y + 99) / 100 == if y % 100 == 0 {
        1int
    } else {
        0
    });
    assert((y + 400) / 400 - (y + 399) / 400 == if y % 400 == 0 {
        1int
    } else {
        0
    });
    lemma_nested(y);
}

/// Multiples of 400 are multiples of 100, and those of 4.
proof fn lemma_nested(y: int)
    ensures
        y % 400 == 0 ==> y % 100 == 0,
        y % 100 == 0 ==> y % 4 == 0,
{
}

proof fn lemma_years_grow(a: int, b: int)
    requires
        a < b,
    ensures
        days_before_year(a) + (if is_leap(a) {
            366int
        } else {
            365
        }) <= days_before_year(b),
    decreases b - a,
{
    year_lengths(b - 1);
    if a < b - 1 {
        lemma_years_grow(a, b - 1);
    }
}

proof fn lemma_months(y: int)
    ensures
        days_before_month(y, 1) == 0,
        days_before_month(y, 2) == 31,
        days_before_month(y, 3) == 31 + days_in_month(y, 2),
        days_before_month(y, 4) == 62 + days_in_month(y, 2),
        days_before_month(y, 5) == 92 + days_in_month(y, 2),
        days_before_month(y, 6) == 123 + days_in_month(y, 2),
        days_before_month(y, 7) == 153 + days_in_month(y, 2),
        days_before_month(y, 8) == 184 + days_in_month(y, 2),
        days_before_month(y, 9) == 215 + days_in_month(y, 2),
        days_before_month(y, 10) == 245 + days_in_month(y, 2),
        days_before_month(y, 11) == 276 + days_in_month(y, 2),
        days_before_month(y, 12) == 306 + days_in_month(y, 2),
{
    reveal_with_fuel(days_before_month, 13);
}

/// No two dates fall on the same day.
pub proof fn dates_are_distinct(a: (int, int, int), b: (int, int, int))
    requires
        is_date(a.0, a.1, a.2),
        is_date(b.0, b.1, b.2),
        day_number(a.0, a.1, a.2) == day_number(b.0, b.1, b.2),
    ensures
        a == b,
{
    lemma_months(a.0);
    lemma_months(b.0);
    if a.0 < b.0 {
        lemma_years_grow(a.0, b.0);
    } else if b.0 < a.0 {
        lemma_years_grow(b.0, a.0);
    }
}

/// The year that begins in March, counted inside a cycle of 400 such years.
proof fn lemma_year_of_era(doe: int, yoe: int, doy: int)
    requires
        0 <= doe <= 146096,
        yoe == (doe - doe / 1460 + doe / 36524 - doe / 146096) / 365,
        doy == doe - (365 * yoe + yoe / 4 - yoe / 100),
    ensures
        0 <= yoe <= 399,
        0 <= doy <= 365,
        doy == 365 ==> is_leap(yoe + 1),
{
    let q = if doe / 36524 < 3 {
        doe / 36524
    } else {
        3
    };
    let rem = doe - 36524 * q;
    let t = if rem / 1461 < 24 {
        rem / 1461
    } else {
        24
    };
    let rem2 = rem - 1461 * t;
    let u = if rem2 / 365 < 3 {
        rem2 / 365
    } else {
        3
    };
    let r = rem2 - 365 * u;
    let y = 100 * q + 4 * t + u;
    assert(0 <= rem <= 36524);
    assert(0 <= r <= 365);
    assert(doe / 1460 == 25 * q + t + (24 * q + t + 365 * u + r) / 1460);
    assert(yoe == y);
    assert(yoe / 4 == 25 * q + t);
    assert(yoe / 100 == q);
    assert(doy == r);
}

/// The date on the day that is `doy` days into the year that begins in March of the
/// year `my`.
proof fn lemma_day_of_march_year(my: int, doy: int, mp: int, d: int, m: int)
    requires
        0 <= doy <= 365,
        doy == 365 ==> is_leap(my + 1),
        mp == (5 * doy + 2) / 153,
        d == doy - (153 * mp + 2) / 5 + 1,
        m == (if mp < 10 {
            mp + 3
        } else {
            mp - 9
        }),
    ensures
        ({
            let y = if m <= 2 {
                my + 1
            } else {
                my
            };
            is_date(y, m, d) && day_number(y, m, d) == days_before_year(my) + (if is_leap(my) {
                60int
            } else {
                59
            }) + doy - days_before_year(1970)
        }),
{
    let y = if m <= 2 {
        my + 1
    } else {
        my
    };
    lemma_months(y);
    year_lengths(my);
    assert(0 <= mp <= 11);
    if mp == 0 {
    } else if mp == 1 {
    } else if mp == 2 {
    } else if mp == 3 {
    } else if mp == 4 {
    } else if mp == 5 {
    } else if mp == 6 {
    } else if mp == 7 {
    } else if mp == 8 {
    } else if mp == 9 {
    } else if mp == 10 {
    } else {
    }
}

/// A cycle of 400 years has 146097 days.
proof fn lemma_march_start(era: int, yoe: int)
    requires
        0 <= yoe <= 399,
    ensures
        ({
            let my = 400 * era + yoe;
            days_before_year(my) + (if is_leap(my) {
                60int
            } else {
                59
            }) == 146097 * era + 365 * yoe + yoe / 4 - yoe / 100 + 60
        }),
{
    let my = 400 * era + yoe;
    assert((my + 3) / 4 == 100 * era + (yoe + 3) / 4);
    assert((my + 99) / 100 == 4 * era + (yoe + 99) / 100);
    assert((my + 399) / 400 == era + (yoe + 399) / 400);
    assert(my % 4 == yoe % 4);
    assert(my % 100 == yoe % 100);
    assert(my % 400 == yoe);
    assert((yoe + 3) / 4 - yoe / 4 == if yoe % 4 == 0 {
        0int
    } else {
        1
    });
    assert((yoe + 99) / 100 - yoe / 100 == if yoe % 100 == 0 {
        0int
    } else {
        1
    });
    assert((yoe + 399) / 400 == if yoe == 0 {
        0int
    } else {
        1
    });
    lemma_nested(yoe);
}

/// The year in a cycle of 400 years that begin in March, and the day in that year.
fn year_of_era(doe: i64) -> (r: (i64, i64))
    requires
        0 <= doe <= 146_096,
    ensures
        0 <= r.0 <= 399,
        0 <= r.1 <= 365,
        doe == 365 * r.0 + r.0 as int / 4 - r.0 as int / 100 + r.1,
        r.1 == 365 ==> is_leap(r.0 + 1),
{
    let yoe: i64 = (doe - doe / 1460 + doe / 36_524 - doe / 146_096) / 365;
    proof {
        lemma_year_of_era(
            doe as int,
            yoe as int,
            doe - (365 * yoe as int + yoe as int / 4 - yoe as int / 100),
        );
    }
    (yoe, doe - (365 * yoe + yoe / 4 - yoe / 100))
}

proof fn lemma_leap_cycle(era: int, y: int)
    ensures
        is_leap(400 * era + y) == is_leap(y),
{
    let x = 400 * era + y;
    assert(x % 4 == y % 4);
    assert(x % 100 == y % 100);
    assert(x % 400 == y % 400);
}

/// The date `days` days after 1970-01-01; before it, where `days` is negative. Years are
/// given modulo 65536.
pub fn civil_from_days(days: i64) -> (r: (u16, u8, u8))
    requires
        days + 719_468 <= i64::MAX,
    ensures
        date_on(date_of(days as int), days as int),
        r.0 == date_of(days as int).0 % 0x1_0000,
        r.1 == date_of(days as int).1,
        r.2 == date_of(days as int).2,
{
    let z: i64 = days + 719_468;
    let era: i64 = era_of(z);
    assert(0 <= z - era * 146_097 <= 146_096);
    let (yoe, doy) = year_of_era(z - era * 146_097);
    let mp: i64 = (5 * doy + 2) / 153;
    let d: i64 = doy - (153 * mp + 2) / 5 + 1;
    let m: i64 = if mp < 10 {
        mp + 3
    } else {
        mp - 9
    };
    let my: i64 = yoe + era * 400;
    let year: i64 = if m <= 2 {
        my + 1
    } else {
        my
    };
    proof {
        lemma_leap_cycle(era as int, yoe + 1);
        lemma_march_start(era as int, yoe as int);
        lemma_day_of_march_year(my as int, doy as int, mp as int, d as int, m as int);
        lemma_first_day();
        let t = (year as int, m as int, d as int);
        assert(day_number(t.0, t.1, t.2) == days);
        assert(date_on(t, days as int));
        dates_are_distinct(date_of(days as int), t);
    }
    (low_word(year), m as u8, d as u8)
}

proof fn lemma_first_day()
    ensures
        days_before_year(1970) == 719_528,
{
}

/// `x` modulo 65536.
fn low_word(x: i64) -> (r: u16)
    requires
        x > i64::MIN,
    ensures
        r == x as int % 0x1_0000,
{
    if x >= 0 {
        (x % 0x1_0000) as u16
    } else {
        let k: i64 = (-1 - x) % 0x1_0000;
        assert(0xFFFF - k == x as int % 0x1_0000);
        (0xFFFF - k) as u16
    }
}

/// `z / 146097`, rounded down.
fn era_of(z: i64) -> (r: i64)
    requires
        z > i64::MIN,
    ensures
        r == z as int / 146_097,
{
    if z >= 0 {
        z / 146_097
    } else {
        let k: i64 = (-1 - z) / 146_097;
        assert(-1 - k == z as int / 146_097);
        -1 - k
    }
}

} // verus!
