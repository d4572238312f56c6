//! Places: decimal numbers as fixed-point integers, and the notations of coordinates.
use vstd::prelude::*;

use crate::double::{floor, half, rounded, sum, whole, within, Binary, Double};
use crate::model::Gps;
use crate::text::{chars_of, decimal, is_digit, sub_chars, trim, trimmed};

verus! {

pub open spec fn sign_char(c: char) -> bool {
    c == '+' || c == '-'
}

/// The index of the first `c` from `i` on, or the length where there is none.
pub open spec fn find(s: Seq<char>, c: char, i: int) -> int
    decreases s.len() - i,
{
    if i >= s.len() {
        s.len() as int
    } else if s[i] == c {
        i
    } else {
        find(s, c, i + 1)
    }
}

/// Whether `s` holds nothing but decimal digits.
pub open spec fn digits(s: Seq<char>) -> bool {
    forall|i: int| 0 <= i < s.len() ==> is_digit(#[trigger] s[i])
}

/// Exactly `k` digits behind the decimal point: those of `s`, cut off or filled up with
/// zeros.
pub open spec fn fraction(s: Seq<char>, k: nat) -> Seq<char> {
    Seq::new(
        k,
        |i: int|
            if i < s.len() {
                s[i]
            } else {
                '0'
            },
    )
}

/// A decimal number without a sign, times ten to the `k`; further digits are cut off.
pub open spec fn unsigned_scaled(s: Seq<char>, k: nat) -> Option<nat> {
    let dot = find(s, '.', 0);
    let whole = s.subrange(0, dot);
    let frac = if dot < s.len() {
        s.subrange(dot + 1, s.len() as int)
    } else {
        seq![]
    };
    if digits(whole) && digits(frac) && whole.len() + frac.len() > 0 {
        Some(decimal(whole + fraction(frac, k)))
    } else {
        None
    }
}

/// A decimal number with an optional sign, times ten to the `k`, where its magnitude
/// fits an `i64`.
pub open spec fn scaled(s: Seq<char>, k: nat) -> Option<int> {
    let signed = s.len() > 0 && sign_char(s[0]);
    let rest = if signed {
        s.subrange(1, s.len() as int)
    } else {
        s
    };
    match unsigned_scaled(rest, k) {
        Some(v) if v <= i64::MAX => Some(
            if signed && s[0] == '-' {
                -(v as int)
            } else {
                v as int
            },
        ),
        _ => None,
    }
}

/// `v` as an `i32`, where it is one.
pub open spec fn fit32(v: int) -> Option<i32> {
    if i32::MIN <= v <= i32::MAX {
        Some(v as i32)
    } else {
        None
    }
}

/// The index of the first sign from `i` on, or the length where there is none.
pub open spec fn next_sign(s: Seq<char>, i: int) -> int
    decreases s.len() - i,
{
    if i >= s.len() {
        s.len() as int
    } else if sign_char(s[i]) {
        i
    } else {
        next_sign(s, i + 1)
    }
}

/// `s` without the slashes at its end.
pub open spec fn no_slashes(s: Seq<char>) -> Seq<char>
    decreases s.len(),
{
    if s.len() > 0 && s[s.len() - 1] == '/' {
        no_slashes(s.subrange(0, s.len() - 1))
    } else {
        s
    }
}

/// A place in ISO 6709: signed degrees of latitude and longitude, then the height in
/// metres, which may be absent.
pub open spec fn iso6709(s: Seq<char>) -> Option<Gps> {
    let t = no_slashes(trim(s));
    if t.len() == 0 || !sign_char(t[0]) {
        None
    } else {
        let a = next_sign(t, 1);
        if a >= t.len() {
            None
        } else {
            let b = next_sign(t, a + 1);
            let lat = fixed(t.subrange(0, a), 7);
            let lon = fixed(t.subrange(a, b), 7);
            let alt = if b < t.len() {
                fixed(t.subrange(b, next_sign(t, b + 1)), 3)
            } else {
                None
            };
            match (lat, lon) {
                (Some(lat_e7), Some(lon_e7)) => Some(Gps { lat_e7, lon_e7, alt_mm: alt }),
                _ => None,
            }
        }
    }
}

/// A decimal number times ten to the `k`, where it is an `i32`.
pub open spec fn fixed(s: Seq<char>, k: nat) -> Option<i32> {
    match scaled(s, k) {
        Some(v) => fit32(v),
        None => None,
    }
}

pub open spec fn letter(c: char) -> bool {
    'a' <= c <= 'z' || 'A' <= c <= 'Z'
}

/// `a / b`, rounded towards zero.
pub open spec fn quotient(a: int, b: int) -> int {
    if a >= 0 {
        a / b
    } else {
        -((-a) / b)
    }
}

/// The part of `s` between the commas at `i` and behind it: where it starts at `i`.
pub open spec fn comma_part(s: Seq<char>, i: int) -> Seq<char> {
    s.subrange(i, find(s, ',', i))
}

/// An XMP coordinate without its letter: decimal degrees, or whole degrees and then
/// minutes and seconds, each behind a comma. In units of ten millionths of a degree.
pub open spec fn xmp_degrees(s: Seq<char>) -> Option<int> {
    let c1 = find(s, ',', 0);
    if c1 >= s.len() {
        scaled(s, 7)
    } else {
        let c2 = find(s, ',', c1 + 1);
        let min = scaled(comma_part(s, c1 + 1), 7);
        let sec = if c2 < s.len() {
            scaled(comma_part(s, c2 + 1), 7)
        } else {
            Some(0)
        };
        match (scaled(s.subrange(0, c1), 0), min, sec) {
            (Some(d), Some(m), Some(s)) => Some(
                d * 10_000_000 + quotient(m, 60) + quotient(s, 3600),
            ),
            _ => None,
        }
    }
}

/// An XMP coordinate; south and west are negative.
pub open spec fn xmp_coord(s: Seq<char>) -> Option<i32> {
    let t = trim(s);
    if t.len() == 0 {
        None
    } else {
        let last = t[t.len() - 1];
        let core = if letter(last) {
            t.subrange(0, t.len() - 1)
        } else {
            t
        };
        let neg = last == 'S' || last == 'W' || last == 's' || last == 'w';
        match xmp_degrees(core) {
            Some(v) => fit32(
                if neg {
                    -v
                } else {
                    v
                },
            ),
            None => None,
        }
    }
}

/// A number times `scale` with the given sign, rounded to an integer by adding a half and
/// dropping the fraction, where that stays inside an `i32`. Both steps before that are in
/// double precision.
pub open spec fn nearest(x: Binary, scale: int, neg: bool) -> Option<i32> {
    let s = sum(rounded(x.m * scale, 1, x.e), half());
    if neg {
        if floor(s) < 0x8000_0000 || (floor(s) == 0x8000_0000 && whole(s)) {
            Some((-floor(s)) as i32)
        } else {
            None
        }
    } else {
        if floor(s) < 0x8000_0000 {
            Some(floor(s) as i32)
        } else {
            None
        }
    }
}

proof fn lemma_find(s: Seq<char>, c: char, i: int)
    requires
        0 <= i <= s.len(),
    ensures
        i <= find(s, c, i) <= s.len(),
        find(s, c, i) < s.len() ==> s[find(s, c, i)] == c,
        forall|j: int| i <= j < find(s, c, i) ==> s[j] != c,
    decreases s.len() - i,
{
    if i < s.len() && s[i] != c {
        lemma_find(s, c, i + 1);
    }
}

fn find_char(s: &[char], c: char, i: usize) -> (r: usize)
    requires
        i <= s@.len(),
    ensures
        r == find(s@, c, i as int),
        i <= r <= s@.len(),
{
    let mut k: usize = i;
    while k < s.len() && s[k] != c
        invariant
            i <= k <= s@.len(),
            find(s@, c, k as int) == find(s@, c, i as int),
        decreases s@.len() - k,
    {
        k += 1;
    }
    k
}

/// Digits added behind a number never make it smaller.
proof fn lemma_decimal_prefix(s: Seq<char>, k: int)
    requires
        0 <= k <= s.len(),
        digits(s),
    ensures
        decimal(s.subrange(0, k)) <= decimal(s),
    decreases s.len(),
{
    if k < s.len() {
        let p = s.subrange(0, s.len() - 1);
        assert(p.subrange(0, k) =~= s.subrange(0, k));
        assert(digits(p)) by {
            assert forall|i: int| 0 <= i < p.len() implies is_digit(#[trigger] p[i]) by {
                assert(is_digit(s[i]));
            }
        }
        lemma_decimal_prefix(p, k);
    } else {
        assert(s.subrange(0, k) =~= s);
    }
}

proof fn lemma_decimal_push(s: Seq<char>, c: char)
    requires
        is_digit(c),
    ensures
        decimal(s.push(c)) == decimal(s) * 10 + (c as int - '0' as int),
{
    assert(s.push(c).subrange(0, s.len() as int) =~= s);
}

/// `acc * 10 + d`, where it is an `i64`.
fn append_digit(acc: i64, d: i64) -> (r: Option<i64>)
    requires
        0 <= acc,
        0 <= d <= 9,
    ensures
        match r {
            Some(v) => v == acc * 10 + d,
            None => acc * 10 + d > i64::MAX,
        },
{
    match acc.checked_mul(10) {
        Some(m) => m.checked_add(d),
        None => None,
    }
}

/// Parses a decimal number without a sign.
fn parse_unsigned_scaled(rest: &[char], scale_pow10: u32) -> (r: Option<i64>)
    ensures
        match unsigned_scaled(rest@, scale_pow10 as nat) {
            Some(v) if v <= i64::MAX => r == Some(v as i64),
            _ => r is None,
        },
{
    let dot: usize = find_char(rest, '.', 0);
    proof {
        lemma_find(rest@, '.', 0);
    }
    let ghost whole = rest@.subrange(0, dot as int);
    let ghost frac = if dot < rest@.len() {
        rest@.subrange(dot + 1, rest@.len() as int)
    } else {
        seq![]
    };
    let ghost all = whole + fraction(frac, scale_pow10 as nat);
    let mut acc: i64 = 0;
    let mut i: usize = 0;
    while i < dot
        invariant
            i <= dot <= rest@.len(),
            whole == rest@.subrange(0, dot as int),
            0 <= acc,
            acc == decimal(whole.subrange(0, i as int)),
            all == whole + fraction(frac, scale_pow10 as nat),
            forall|j: int| 0 <= j < i ==> is_digit(#[trigger] whole[j]),
            unsigned_scaled(rest@, scale_pow10 as nat) == (if digits(whole) && digits(frac)
                && whole.len() + frac.len() > 0 {
                Some(decimal(all))
            } else {
                None
            }),
        decreases dot - i,
    {
        let c = rest[i];
        assert(whole[i as int] == c);
        if !('0' <= c && c <= '9') {
            assert(!is_digit(whole[i as int]));
            return None;
        }
        let next = append_digit(acc, (c as u32 - '0' as u32) as i64);
        proof {
            lemma_decimal_push(whole.subrange(0, i as int), c);
            assert(whole.subrange(0, i + 1) =~= whole.subrange(0, i as int).push(c));
            if digits(whole) && digits(frac) {
                lemma_digits_all(whole, frac, scale_pow10 as nat);
                lemma_decimal_prefix(all, i + 1);
                assert(all.subrange(0, i + 1) =~= whole.subrange(0, i + 1));
            }
        }
        match next {
            Some(v) => {
                acc = v;
            },
            None => {
                return None;
            },
        }
        i += 1;
    }
    assert(whole.subrange(0, dot as int) =~= whole);
    if dot >= rest.len() && dot == 0 {
        return None;
    }
    let start: usize = if dot < rest.len() {
        dot + 1
    } else {
        rest.len()
    };
    let n: usize = rest.len() - start;
    if dot == 0 && n == 0 {
        return None;
    }
    // every digit behind the point has to be one, also those that are cut off
    let mut j: usize = 0;
    while j < n
        invariant
            j <= n,
            n == frac.len(),
            start + n == rest@.len(),
            rest@.len() == rest.len(),
            frac == rest@.subrange(start as int, rest@.len() as int),
            forall|x: int| 0 <= x < j ==> is_digit(#[trigger] frac[x]),
            unsigned_scaled(rest@, scale_pow10 as nat) == (if digits(whole) && digits(frac)
                && whole.len() + frac.len() > 0 {
                Some(decimal(all))
            } else {
                None
            }),
        decreases n - j,
    {
        let c = rest[start + j];
        assert(frac[j as int] == c);
        if !('0' <= c && c <= '9') {
            assert(!is_digit(frac[j as int]));
            return None;
        }
        j += 1;
    }
    assert(digits(whole));
    assert(digits(frac));
    proof {
        lemma_digits_all(whole, frac, scale_pow10 as nat);
        assert(whole + fraction(frac, scale_pow10 as nat).subrange(0, 0) =~= whole);
    }
    let mut p: u32 = 0;
    while p < scale_pow10
        invariant
            p <= scale_pow10,
            n == frac.len(),
            start + n == rest@.len(),
            rest@.len() == rest.len(),
            frac == rest@.subrange(start as int, rest@.len() as int),
            digits(frac),
            all == whole + fraction(frac, scale_pow10 as nat),
            digits(all),
            0 <= acc,
            acc == decimal(
                whole + fraction(frac, scale_pow10 as nat).subrange(0, p as int),
            ),
            unsigned_scaled(rest@, scale_pow10 as nat) == Some(decimal(all)),
        decreases scale_pow10 - p,
    {
        let c = if (p as usize) < n {
            rest[start + p as usize]
        } else {
            '0'
        };
        proof {
            if p < n {
                assert(is_digit(frac[p as int]));
            }
        }
        assert(fraction(frac, scale_pow10 as nat)[p as int] == c);
        let next = append_digit(acc, (c as u32 - '0' as u32) as i64);
        proof {
            let f = fraction(frac, scale_pow10 as nat);
            let done = whole + f.subrange(0, p as int);
            lemma_decimal_push(done, c);
            assert(whole + f.subrange(0, p + 1) =~= done.push(c));
            lemma_decimal_prefix(all, whole.len() + p + 1);
            assert(all.subrange(0, whole.len() + p + 1) =~= done.push(c));
        }
        match next {
            Some(v) => {
                acc = v;
            },
            None => {
                return None;
            },
        }
        p += 1;
    }
    proof {
        let f = fraction(frac, scale_pow10 as nat);
        assert(f.subrange(0, f.len() as int) =~= f);
    }
    Some(acc)
}

proof fn lemma_digits_all(whole: Seq<char>, frac: Seq<char>, k: nat)
    requires
        digits(whole),
        digits(frac),
    ensures
        digits(whole + fraction(frac, k)),
{
    let all = whole + fraction(frac, k);
    assert forall|i: int| 0 <= i < all.len() implies is_digit(#[trigger] all[i]) by {
        if i < whole.len() {
            assert(is_digit(whole[i]));
        } else if i - whole.len() < frac.len() {
            assert(is_digit(frac[i - whole.len()]));
        }
    }
}

/// Parses a decimal number with an optional sign into a fixed-point integer.
pub fn parse_scaled_decimal(s: &[char], scale_pow10: u32) -> (r: Option<i64>)
    ensures
        match scaled(s@, scale_pow10 as nat) {
            Some(v) => r == Some(v as i64) && -i64::MAX <= v <= i64::MAX,
            None => r is None,
        },
{
    if s.len() > 0 && (s[0] == '+' || s[0] == '-') {
        match parse_unsigned_scaled(sub_chars(s, 1, s.len()), scale_pow10) {
            Some(v) => if s[0] == '-' {
                Some(-v)
            } else {
                Some(v)
            },
            None => None,
        }
    } else {
        parse_unsigned_scaled(s, scale_pow10)
    }
}

fn to_i32(v: i64) -> (r: Option<i32>)
    ensures
        r == fit32(v as int),
{
    if v < i32::MIN as i64 || v > i32::MAX as i64 {
        None
    } else {
        Some(v as i32)
    }
}

fn parse_fixed(s: &[char], scale_pow10: u32) -> (r: Option<i32>)
    ensures
        r == fixed(s@, scale_pow10 as nat),
{
    match parse_scaled_decimal(s, scale_pow10) {
        Some(v) => to_i32(v),
        None => None,
    }
}

fn find_sign(s: &[char], i: usize) -> (r: usize)
    requires
        i <= s@.len(),
    ensures
        r == next_sign(s@, i as int),
        i <= r <= s@.len(),
{
    let mut k: usize = i;
    while k < s.len() && s[k] != '+' && s[k] != '-'
        invariant
            i <= k <= s@.len(),
            next_sign(s@, k as int) == next_sign(s@, i as int),
        decreases s@.len() - k,
    {
        k += 1;
    }
    k
}

/// Parses a place in ISO 6709, such as `+27.5916+086.5640+8850/`.
pub fn parse_iso6709(s: &str) -> (r: Option<Gps>)
    ensures
        r == iso6709(s@),
{
    let c = chars_of(s);
    let t = trimmed(c.as_slice());
    let mut n: usize = t.len();
    assert(t@.subrange(0, n as int) =~= t@);
    while n > 0 && t[n - 1] == '/'
        invariant
            n <= t@.len(),
            no_slashes(t@.subrange(0, n as int)) == no_slashes(t@),
        decreases n,
    {
        assert(t@.subrange(0, n as int).subrange(0, n - 1) =~= t@.subrange(0, n - 1));
        n -= 1;
    }
    let t = sub_chars(t, 0, n);
    if t.len() == 0 || (t[0] != '+' && t[0] != '-') {
        return None;
    }
    let a: usize = find_sign(t, 1);
    if a >= t.len() {
        return None;
    }
    let b: usize = find_sign(t, a + 1);
    let lat = match parse_fixed(sub_chars(t, 0, a), 7) {
        Some(v) => v,
        None => return None,
    };
    let lon = match parse_fixed(sub_chars(t, a, b), 7) {
        Some(v) => v,
        None => return None,
    };
    let alt_mm = if b < t.len() {
        parse_fixed(sub_chars(t, b, find_sign(t, b + 1)), 3)
    } else {
        None
    };
    Some(Gps { lat_e7: lat, lon_e7: lon, alt_mm })
}

fn trunc_div(a: i64, b: i64) -> (r: i64)
    requires
        a > i64::MIN,
        b > 1,
    ensures
        r == quotient(a as int, b as int),
        -(i64::MAX / 2) <= r <= i64::MAX / 2,
{
    if a >= 0 {
        assert(a as int / b as int <= i64::MAX / 2) by (nonlinear_arith)
            requires
                0 <= a <= i64::MAX,
                b > 1,
        ;
        assert(a as int / b as int >= 0) by (nonlinear_arith)
            requires
                0 <= a,
                b > 1,
        ;
        a / b
    } else {
        let m: i64 = -a;
        assert(m as int / b as int <= i64::MAX / 2) by (nonlinear_arith)
            requires
                0 <= m <= i64::MAX,
                b > 1,
        ;
        assert(m as int / b as int >= 0) by (nonlinear_arith)
            requires
                0 <= m,
                b > 1,
        ;
        -(m / b)
    }
}

/// Parses an XMP coordinate without its letter.
fn parse_xmp_degrees(s: &[char]) -> (r: Option<i128>)
    ensures
        match xmp_degrees(s@) {
            Some(v) => r == Some(v as i128) && -0x1_0000_0000_0000_0000_0000_0000 < v
                < 0x1_0000_0000_0000_0000_0000_0000,
            None => r is None,
        },
{
    let c1: usize = find_char(s, ',', 0);
    if c1 >= s.len() {
        return match parse_scaled_decimal(s, 7) {
            Some(v) => Some(v as i128),
            None => None,
        };
    }
    let c2: usize = find_char(s, ',', c1 + 1);
    let d: i64 = match parse_scaled_decimal(sub_chars(s, 0, c1), 0) {
        Some(v) => v,
        None => return None,
    };
    let m: i64 = match parse_scaled_decimal(sub_chars(s, c1 + 1, c2), 7) {
        Some(v) => v,
        None => return None,
    };
    let sec: i64 = if c2 < s.len() {
        match parse_scaled_decimal(sub_chars(s, c2 + 1, find_char(s, ',', c2 + 1)), 7) {
            Some(v) => v,
            None => return None,
        }
    } else {
        0
    };
    Some(d as i128 * 10_000_000 + trunc_div(m, 60) as i128 + trunc_div(sec, 3600) as i128)
}

/// Parses an XMP coordinate, such as `39.9515N`, `39,57.09N` or `39,57,5.4N`.
pub fn parse_xmp_coord(s: &str) -> (r: Option<i32>)
    ensures
        r == xmp_coord(s@),
{
    let c = chars_of(s);
    let t = trimmed(c.as_slice());
    if t.len() == 0 {
        return None;
    }
    let last = t[t.len() - 1];
    let neg = last == 'S' || last == 'W' || last == 's' || last == 'w';
    let core = if ('a' <= last && last <= 'z') || ('A' <= last && last <= 'Z') {
        sub_chars(t, 0, t.len() - 1)
    } else {
        t
    };
    let v: i128 = match parse_xmp_degrees(core) {
        Some(v) => if neg {
            -v
        } else {
            v
        },
        None => return None,
    };
    if v < i32::MIN as i128 || v > i32::MAX as i128 {
        None
    } else {
        Some(v as i32)
    }
}

/// Rounds a number times `scale` to an integer.
fn round_scaled(x: Double, scale: u32, neg: bool) -> (r: Option<i32>)
    requires
        within(x@, 640),
    ensures
        r == nearest(x@, scale as int, neg),
{
    match x.times(scale).plus(Double::one_half()).split() {
        Some((v, exact)) => {
            if neg {
                if v < 0x8000_0000 || (v == 0x8000_0000 && exact) {
                    Some((-(v as i64)) as i32)
                } else {
                    None
                }
            } else if v < 0x8000_0000 {
                Some(v as i32)
            } else {
                None
            }
        },
        None => None,
    }
}

/// Degrees in units of ten millionths of a degree.
pub fn deg_to_e7(deg: Double, neg: bool) -> (r: Option<i32>)
    requires
        within(deg@, 640),
    ensures
        r == nearest(deg@, 10_000_000, neg),
{
    round_scaled(deg, 10_000_000, neg)
}

/// Metres in millimetres.
pub fn meters_to_mm(m: Double, neg: bool) -> (r: Option<i32>)
    requires
        within(m@, 640),
    ensures
        r == nearest(m@, 1000, neg),
{
    round_scaled(m, 1000, neg)
}

} // verus!
