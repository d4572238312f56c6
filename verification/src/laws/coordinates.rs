//! Numbers and coordinates in texts: what digits, fractions, signs and letters are worth.
use vstd::prelude::*;

use crate::geo::{
    comma_part, digits, find, fit32, fixed, fraction, iso6709, letter, next_sign, no_slashes,
    quotient, scaled, sign_char, unsigned_scaled, xmp_coord, xmp_degrees,
};
use crate::model::Gps;
use crate::text::{all_digits, decimal, is_digit, trim, unsigned, white};

verus! {

/// Ten to the `k`.
pub open spec fn ten(k: nat) -> int
    decreases k,
{
    if k == 0 {
        1
    } else {
        10 * ten((k - 1) as nat)
    }
}

/// What a text of digits is worth: each digit ten times what it would be one place behind.
pub open spec fn worth(s: Seq<char>) -> int
    decreases s.len(),
{
    if s.len() == 0 {
        0
    } else {
        (s[0] as int - '0' as int) * ten((s.len() - 1) as nat) + worth(s.drop_first())
    }
}

pub open spec fn only_digits(s: Seq<char>) -> bool {
    forall|i: int| 0 <= i < s.len() ==> '0' <= #[trigger] s[i] <= '9'
}

proof fn lemma_worth(s: Seq<char>)
    requires
        s.len() > 0,
    ensures
        worth(s) == worth(s.drop_last()) * 10 + (s.last() as int - '0' as int),
    decreases s.len(),
{
    if s.len() == 1 {
        let d = s[0] as int - '0' as int;
        assert(worth(s.drop_first()) == 0);
        assert(worth(s.drop_last()) == 0);
        assert(ten(0) == 1);
        assert(d * 1 == d);
        assert(s.last() == s[0]);
    } else {
        let m = s.drop_first();
        lemma_worth(m);
        assert(m.drop_last() =~= s.drop_last().drop_first());
        let d = s[0] as int - '0' as int;
        let n = (s.len() - 2) as nat;
        assert(ten((s.len() - 1) as nat) == 10 * ten(n));
        assert(d * (10 * ten(n)) == (d * ten(n)) * 10) by (nonlinear_arith);
        let p = s.drop_last();
        assert(p[0] == s[0]);
        assert(worth(p) == d * ten(n) + worth(p.drop_first()));
        assert(m.last() == s.last());
    }
}

proof fn lemma_decimal(s: Seq<char>)
    requires
        only_digits(s),
    ensures
        decimal(s) == worth(s),
    decreases s.len(),
{
    if s.len() > 0 {
        let m = s.subrange(0, s.len() - 1);
        assert(m =~= s.drop_last());
        assert forall|i: int| 0 <= i < m.len() implies '0' <= #[trigger] m[i] <= '9' by {
            assert(m[i] == s[i]);
        }
        lemma_decimal(m);
        lemma_worth(s);
        assert('0' <= s[s.len() - 1] <= '9');
    }
}

proof fn lemma_joined(a: Seq<char>, b: Seq<char>)
    ensures
        worth(a + b) == worth(a) * ten(b.len()) + worth(b),
    decreases b.len(),
{
    if b.len() == 0 {
        assert(a + b =~= a);
        assert(worth(a) * 1 == worth(a));
    } else {
        let m = b.drop_last();
        lemma_joined(a, m);
        lemma_worth(a + b);
        lemma_worth(b);
        assert((a + b).drop_last() =~= a + m);
        assert((a + b).last() == b.last());
        assert(ten(b.len()) == 10 * ten(m.len()));
        assert(worth(a) * (10 * ten(m.len())) == (worth(a) * ten(m.len())) * 10) by (nonlinear_arith);
    }
}

proof fn lemma_zeros(s: Seq<char>)
    requires
        forall|i: int| 0 <= i < s.len() ==> s[i] == '0',
    ensures
        worth(s) == 0,
    decreases s.len(),
{
    if s.len() > 0 {
        let m = s.drop_first();
        assert forall|i: int| 0 <= i < m.len() implies m[i] == '0' by {
            assert(m[i] == s[i + 1]);
        }
        lemma_zeros(m);
        assert(s[0] == '0');
        assert(0 * ten((s.len() - 1) as nat) == 0);
    }
}

/// Whole numbers in a text are read: digits, and perhaps a plus before them, as long as they
/// are not worth more than they may.
pub proof fn whole_numbers_are_read(s: Seq<char>, max: nat)
    requires
        only_digits(s),
        s.len() > 0,
    ensures
        unsigned(s, max) == (if worth(s) <= max {
            Some(worth(s) as nat)
        } else {
            None
        }),
        unsigned(seq!['+'] + s, max) == unsigned(s, max),
{
    lemma_decimal(s);
    assert('0' <= s[0] <= '9');
    let p = seq!['+'] + s;
    assert(p.subrange(1, p.len() as int) =~= s);
    assert(all_digits(s));
}

/// Nothing else reads as a whole number.
pub proof fn only_whole_numbers_are_read(s: Seq<char>, max: nat)
    requires
        unsigned(s, max) is Some,
    ensures
        s.len() > 0,
        only_digits(s) || (s[0] == '+' && s.len() > 1 && only_digits(s.drop_first())),
{
    if s.len() > 1 && s[0] == '+' {
        let d = s.subrange(1, s.len() as int);
        assert(d =~= s.drop_first());
        assert forall|i: int| 0 <= i < d.len() implies '0' <= #[trigger] d[i] <= '9' by {
            assert(is_digit(d[i]));
        }
    } else {
        assert forall|i: int| 0 <= i < s.len() implies '0' <= #[trigger] s[i] <= '9' by {
            assert(is_digit(s[i]));
        }
    }
}

/// A decimal number: the digits before the point, and those behind it, if it has one.
pub struct Number {
    pub whole: Seq<char>,
    pub point: bool,
    pub part: Seq<char>,
}

pub open spec fn is_number(n: Number) -> bool {
    &&& only_digits(n.whole)
    &&& only_digits(n.part)
    &&& n.whole.len() + n.part.len() > 0
    &&& !n.point ==> n.part.len() == 0
}

pub open spec fn number_text(n: Number) -> Seq<char> {
    n.whole + (if n.point {
        seq!['.'] + n.part
    } else {
        seq![]
    })
}

/// What it is worth, times ten to the `k`; what is behind that many digits does not count.
pub open spec fn number_worth(n: Number, k: nat) -> int {
    worth(n.whole) * ten(k) + (if n.part.len() >= k {
        worth(n.part.take(k as int))
    } else {
        worth(n.part) * ten((k - n.part.len()) as nat)
    })
}

proof fn lemma_fraction(f: Seq<char>, k: nat)
    requires
        only_digits(f),
    ensures
        only_digits(fraction(f, k)),
        fraction(f, k).len() == k,
        worth(fraction(f, k)) == (if f.len() >= k {
            worth(f.take(k as int))
        } else {
            worth(f) * ten((k - f.len()) as nat)
        }),
{
    let r = fraction(f, k);
    assert forall|i: int| 0 <= i < r.len() implies '0' <= #[trigger] r[i] <= '9' by {
        if i < f.len() {
            assert(r[i] == f[i]);
        }
    }
    if f.len() >= k {
        assert(r =~= f.take(k as int));
    } else {
        let z = Seq::new((k - f.len()) as nat, |i: int| '0');
        assert(r =~= f + z);
        lemma_joined(f, z);
        lemma_zeros(z);
    }
}

proof fn lemma_find(s: Seq<char>, c: char, i: int, n: int)
    requires
        0 <= i <= n <= s.len(),
        forall|j: int| i <= j < n ==> s[j] != c,
        n < s.len() ==> s[n] == c,
    ensures
        find(s, c, i) == n,
    decreases n - i,
{
    if i < n {
        lemma_find(s, c, i + 1, n);
    }
}

proof fn lemma_number(n: Number, k: nat)
    requires
        is_number(n),
    ensures
        unsigned_scaled(number_text(n), k) == Some(number_worth(n, k) as nat),
        number_worth(n, k) >= 0,
{
    let s = number_text(n);
    let w = n.whole.len() as int;
    assert forall|j: int| 0 <= j < w implies s[j] != '.' by {
        assert(s[j] == n.whole[j]);
    }
    lemma_find(s, '.', 0, w);
    assert(s.subrange(0, w) =~= n.whole);
    let f = if w < s.len() {
        s.subrange(w + 1, s.len() as int)
    } else {
        seq![]
    };
    assert(f =~= n.part);
    lemma_fraction(n.part, k);
    let all = n.whole + fraction(n.part, k);
    assert forall|i: int| 0 <= i < all.len() implies '0' <= #[trigger] all[i] <= '9' by {
        if i < w {
            assert(all[i] == n.whole[i]);
        } else {
            assert(all[i] == fraction(n.part, k)[i - w]);
        }
    }
    lemma_decimal(all);
    lemma_joined(n.whole, fraction(n.part, k));
    assert(digits(n.whole) && digits(n.part));
}

/// A number with a sign before it.
pub open spec fn signed_text(minus: bool, n: Number) -> Seq<char> {
    seq![
        if minus {
            '-'
        } else {
            '+'
        },
    ] + number_text(n)
}

pub open spec fn signed_worth(minus: bool, n: Number, k: nat) -> int {
    if minus {
        -number_worth(n, k)
    } else {
        number_worth(n, k)
    }
}

proof fn lemma_signed(minus: bool, n: Number, k: nat)
    requires
        is_number(n),
        number_worth(n, k) <= i64::MAX,
    ensures
        scaled(signed_text(minus, n), k) == Some(signed_worth(minus, n, k)),
{
    let s = signed_text(minus, n);
    lemma_number(n, k);
    assert(s.subrange(1, s.len() as int) =~= number_text(n));
}

proof fn lemma_unsigned(n: Number, k: nat)
    requires
        is_number(n),
        number_worth(n, k) <= i64::MAX,
    ensures
        scaled(number_text(n), k) == Some(number_worth(n, k)),
        number_text(n).len() > 0,
{
    let s = number_text(n);
    lemma_number(n, k);
    lemma_first(n);
    assert(!sign_char(s[0]));
}

proof fn lemma_first(n: Number)
    requires
        is_number(n),
    ensures
        number_text(n).len() > 0,
        forall|i: int|
            0 <= i < number_text(n).len() ==> ('0' <= #[trigger] number_text(n)[i] <= '9')
                || number_text(n)[i] == '.',
{
    let s = number_text(n);
    let w = n.whole.len() as int;
    assert forall|i: int| 0 <= i < s.len() implies ('0' <= #[trigger] s[i] <= '9') || s[i] == '.' by {
        if i < w {
            assert(s[i] == n.whole[i]);
        } else if i > w {
            assert(s[i] == n.part[i - w - 1]);
        }
    }
}

proof fn lemma_trim(s: Seq<char>)
    requires
        s.len() > 0,
        !white(s[0]),
        !white(s[s.len() - 1]),
    ensures
        trim(s) == s,
{
}

proof fn lemma_slashes(t: Seq<char>, n: nat)
    requires
        t.len() > 0,
        t[t.len() - 1] != '/',
    ensures
        no_slashes(t + Seq::new(n, |i: int| '/')) == t,
    decreases n,
{
    let z = Seq::new(n, |i: int| '/');
    let s = t + z;
    if n == 0 {
        assert(s =~= t);
    } else {
        let m = (n - 1) as nat;
        assert(s.subrange(0, s.len() - 1) =~= t + Seq::new(m, |i: int| '/'));
        assert(s[s.len() - 1] == '/');
        lemma_slashes(t, m);
    }
}

proof fn lemma_next_sign(s: Seq<char>, i: int, n: int)
    requires
        0 <= i <= n <= s.len(),
        forall|j: int| i <= j < n ==> !sign_char(#[trigger] s[j]),
        n < s.len() ==> sign_char(s[n]),
    ensures
        next_sign(s, i) == n,
    decreases n - i,
{
    if i < n {
        assert(!sign_char(s[i]));
        lemma_next_sign(s, i + 1, n);
    }
}

pub open spec fn in_i32(x: int) -> bool {
    -0x8000_0000 <= x <= 0x7FFF_FFFF
}

proof fn lemma_fixed(minus: bool, n: Number, k: nat)
    requires
        is_number(n),
        in_i32(signed_worth(minus, n, k)),
    ensures
        fixed(signed_text(minus, n), k) == Some(signed_worth(minus, n, k) as i32),
{
    lemma_number(n, k);
    lemma_signed(minus, n, k);
}

/// A signed number in the middle of a text, up to the next sign.
proof fn lemma_run(a: Seq<char>, minus: bool, n: Number, z: Seq<char>)
    requires
        is_number(n),
        z.len() > 0 ==> sign_char(z[0]),
    ensures
        ({
            let s = a + signed_text(minus, n) + z;
            let e = a.len() as int + signed_text(minus, n).len();
            &&& next_sign(s, a.len() as int + 1) == e
            &&& s.subrange(a.len() as int, e) == signed_text(minus, n)
            &&& s[a.len() as int] == (if minus {
                '-'
            } else {
                '+'
            })
            &&& signed_text(minus, n).len() >= 2
            &&& e < s.len() <==> z.len() > 0
        }),
{
    let m = signed_text(minus, n);
    let s = a + m + z;
    let k = a.len() as int;
    let e = k + m.len();
    lemma_first(n);
    assert forall|j: int| k + 1 <= j < e implies !sign_char(#[trigger] s[j]) by {
        assert(s[j] == number_text(n)[j - k - 1]);
    }
    if z.len() > 0 {
        assert(s[e] == z[0]);
    }
    lemma_next_sign(s, k + 1, e);
    assert(s.subrange(k, e) =~= m);
}

/// A place of ISO 6709: signed degrees of latitude and of longitude, and perhaps a signed
/// height in metres, with slashes behind it.
pub struct Place {
    pub south: bool,
    pub lat: Number,
    pub west: bool,
    pub lon: Number,
    pub height: Option<(bool, Number)>,
    pub slashes: nat,
}

pub open spec fn height_text(p: Place) -> Seq<char> {
    match p.height {
        Some((below, n)) => signed_text(below, n),
        None => seq![],
    }
}

pub open spec fn place_text(p: Place) -> Seq<char> {
    signed_text(p.south, p.lat) + signed_text(p.west, p.lon) + height_text(p) + Seq::new(
        p.slashes,
        |i: int| '/',
    )
}

pub open spec fn is_place(p: Place) -> bool {
    &&& is_number(p.lat)
    &&& is_number(p.lon)
    &&& in_i32(signed_worth(p.south, p.lat, 7))
    &&& in_i32(signed_worth(p.west, p.lon, 7))
    &&& p.height matches Some((below, n)) ==> is_number(n) && in_i32(signed_worth(below, n, 3))
}

proof fn lemma_not_white(c: char)
    requires
        ('0' <= c <= '9') || c == '.' || c == '/' || c == '+' || c == '-',
    ensures
        !white(c),
{
}

proof fn lemma_place_ends(p: Place)
    requires
        is_place(p),
    ensures
        ({
            let t = signed_text(p.south, p.lat) + signed_text(p.west, p.lon) + height_text(p);
            &&& t.len() > 0
            &&& t[t.len() - 1] != '/'
            &&& no_slashes(trim(place_text(p))) == t
        }),
{
    let t = signed_text(p.south, p.lat) + signed_text(p.west, p.lon) + height_text(p);
    let s = place_text(p);
    lemma_first(p.lon);
    let l = t[t.len() - 1];
    match p.height {
        Some((below, n)) => {
            lemma_first(n);
            assert(l == number_text(n)[number_text(n).len() - 1]);
        },
        None => {
            assert(t =~= signed_text(p.south, p.lat) + signed_text(p.west, p.lon));
            assert(l == number_text(p.lon)[number_text(p.lon).len() - 1]);
        },
    }
    lemma_not_white(l);
    assert(s[0] == t[0]);
    lemma_not_white(s[0]);
    let z = s[s.len() - 1];
    if p.slashes > 0 {
        assert(z == '/');
    } else {
        assert(s =~= t);
    }
    lemma_not_white(z);
    lemma_trim(s);
    lemma_slashes(t, p.slashes);
}

/// Places of ISO 6709 are read: degrees in ten millionths, heights in millimetres, and a minus
/// for the south, the west and what is below the sea.
pub proof fn iso_places_are_read(p: Place)
    requires
        is_place(p),
    ensures
        iso6709(place_text(p)) == Some(
            Gps {
                lat_e7: signed_worth(p.south, p.lat, 7) as i32,
                lon_e7: signed_worth(p.west, p.lon, 7) as i32,
                alt_mm: match p.height {
                    Some((below, n)) => Some(signed_worth(below, n, 3) as i32),
                    None => None,
                },
            },
        ),
{
    lemma_place_ends(p);
    let (a, b, c) = (signed_text(p.south, p.lat), signed_text(p.west, p.lon), height_text(p));
    let t = a + b + c;
    let none: Seq<char> = seq![];
    lemma_run(none, p.south, p.lat, b + c);
    assert(none + a + (b + c) =~= t);
    lemma_run(a, p.west, p.lon, c);
    lemma_fixed(p.south, p.lat, 7);
    lemma_fixed(p.west, p.lon, 7);
    match p.height {
        Some((below, n)) => {
            lemma_run(a + b, below, n, none);
            assert(a + b + c + none =~= t);
            lemma_fixed(below, n, 3);
        },
        None => {},
    }
}

/// Whether a letter means the south or the west.
pub open spec fn is_behind(c: char) -> bool {
    c == 'S' || c == 's' || c == 'W' || c == 'w'
}

pub open spec fn is_ahead(c: char) -> bool {
    c == 'N' || c == 'n' || c == 'E' || c == 'e'
}

pub open spec fn turned(c: char, x: int) -> int {
    if is_behind(c) {
        -x
    } else {
        x
    }
}

proof fn lemma_lettered(core: Seq<char>, c: char)
    requires
        core.len() > 0,
        !white(core[0]),
        is_behind(c) || is_ahead(c),
    ensures
        xmp_coord(core + seq![c]) == (match xmp_degrees(core) {
            Some(v) => fit32(turned(c, v)),
            None => None,
        }),
{
    let s = core + seq![c];
    assert(!white(c));
    lemma_trim(s);
    assert(s[s.len() - 1] == c);
    assert(s.subrange(0, s.len() - 1) =~= core);
}

/// Coordinates of XMP in degrees are read in ten millionths, and negated in the south and west.
pub proof fn xmp_degrees_are_read(n: Number, c: char)
    requires
        is_number(n),
        is_behind(c) || is_ahead(c),
        in_i32(turned(c, number_worth(n, 7))),
    ensures
        xmp_coord(number_text(n) + seq![c]) == Some(turned(c, number_worth(n, 7)) as i32),
{
    let s = number_text(n);
    lemma_first(n);
    lemma_number(n, 7);
    lemma_unsigned(n, 7);
    lemma_not_white(s[0]);
    assert forall|j: int| 0 <= j < s.len() implies s[j] != ',' by {
        assert(('0' <= s[j] <= '9') || s[j] == '.');
    }
    lemma_find(s, ',', 0, s.len() as int);
    lemma_lettered(s, c);
}

proof fn lemma_no_comma(n: Number)
    requires
        is_number(n),
    ensures
        forall|j: int| 0 <= j < number_text(n).len() ==> number_text(n)[j] != ',',
{
    lemma_first(n);
    let s = number_text(n);
    assert forall|j: int| 0 <= j < s.len() implies s[j] != ',' by {
        assert(('0' <= s[j] <= '9') || s[j] == '.');
    }
}

proof fn lemma_quotient(x: int, d: int)
    requires
        x >= 0,
        d > 0,
    ensures
        quotient(x, d) == x / d,
        0 <= x / d,
{
    vstd::arithmetic::div_mod::lemma_div_pos_is_pos(x, d);
}

/// Coordinates of XMP in degrees and minutes: sixty minutes are a degree.
pub proof fn xmp_minutes_are_read(d: Number, m: Number, c: char)
    requires
        is_number(d),
        is_number(m),
        !d.point,
        is_behind(c) || is_ahead(c),
        number_worth(d, 0) <= i64::MAX,
        number_worth(m, 7) <= i64::MAX,
        in_i32(turned(c, number_worth(d, 0) * 10_000_000 + number_worth(m, 7) / 60)),
    ensures
        xmp_coord(number_text(d) + seq![','] + number_text(m) + seq![c]) == Some(
            turned(c, number_worth(d, 0) * 10_000_000 + number_worth(m, 7) / 60) as i32,
        ),
{
    let (x, y) = (number_text(d), number_text(m));
    let s = x + seq![','] + y;
    lemma_first(d);
    lemma_unsigned(d, 0);
    lemma_unsigned(m, 7);
    lemma_number(m, 7);
    lemma_not_white(s[0]);
    lemma_no_comma(d);
    lemma_no_comma(m);
    let k = x.len() as int;
    assert forall|j: int| 0 <= j < k implies s[j] != ',' by {
        assert(s[j] == x[j]);
    }
    lemma_find(s, ',', 0, k);
    assert forall|j: int| k + 1 <= j < s.len() implies s[j] != ',' by {
        assert(s[j] == y[j - k - 1]);
    }
    lemma_find(s, ',', k + 1, s.len() as int);
    assert(s.subrange(0, k) =~= x);
    assert(comma_part(s, k + 1) =~= y);
    lemma_quotient(number_worth(m, 7), 60);
    lemma_quotient(0, 3600);
    lemma_lettered(s, c);
}

/// Coordinates of XMP in degrees, minutes and seconds: 3600 seconds are a degree.
pub proof fn xmp_seconds_are_read(d: Number, m: Number, t: Number, c: char)
    requires
        is_number(d),
        is_number(m),
        is_number(t),
        !d.point,
        is_behind(c) || is_ahead(c),
        number_worth(d, 0) <= i64::MAX,
        number_worth(m, 7) <= i64::MAX,
        number_worth(t, 7) <= i64::MAX,
        in_i32(
            turned(
                c,
                number_worth(d, 0) * 10_000_000 + number_worth(m, 7) / 60 + number_worth(t, 7)
                    / 3600,
            ),
        ),
    ensures
        xmp_coord(
            number_text(d) + seq![','] + number_text(m) + seq![','] + number_text(t) + seq![c],
        ) == Some(
            turned(
                c,
                number_worth(d, 0) * 10_000_000 + number_worth(m, 7) / 60 + number_worth(t, 7)
                    / 3600,
            ) as i32,
        ),
{
    let (x, y, z) = (number_text(d), number_text(m), number_text(t));
    let s = x + seq![','] + y + seq![','] + z;
    lemma_first(d);
    lemma_unsigned(d, 0);
    lemma_unsigned(m, 7);
    lemma_unsigned(t, 7);
    lemma_number(m, 7);
    lemma_number(t, 7);
    lemma_not_white(s[0]);
    lemma_no_comma(d);
    lemma_no_comma(m);
    lemma_no_comma(t);
    let k = x.len() as int;
    let h = k + 1 + y.len();
    lemma_commas(x, y, z);
    assert(s.subrange(0, k) =~= x);
    assert(comma_part(s, k + 1) =~= y);
    assert(comma_part(s, h + 1) =~= z);
    lemma_quotient(number_worth(m, 7), 60);
    lemma_quotient(number_worth(t, 7), 3600);
    lemma_lettered(s, c);
}

proof fn lemma_commas(x: Seq<char>, y: Seq<char>, z: Seq<char>)
    requires
        forall|j: int| 0 <= j < x.len() ==> x[j] != ',',
        forall|j: int| 0 <= j < y.len() ==> y[j] != ',',
        forall|j: int| 0 <= j < z.len() ==> z[j] != ',',
    ensures
        ({
            let s = x + seq![','] + y + seq![','] + z;
            let k = x.len() as int;
            let h = k + 1 + y.len();
            &&& find(s, ',', 0) == k
            &&& find(s, ',', k + 1) == h
            &&& find(s, ',', h + 1) == s.len()
        }),
{
    let s = x + seq![','] + y + seq![','] + z;
    let k = x.len() as int;
    let h = k + 1 + y.len();
    assert forall|j: int| 0 <= j < k implies s[j] != ',' by {
        assert(s[j] == x[j]);
    }
    assert forall|j: int| k + 1 <= j < h implies s[j] != ',' by {
        assert(s[j] == y[j - k - 1]);
    }
    assert forall|j: int| h + 1 <= j < s.len() implies s[j] != ',' by {
        assert(s[j] == z[j - h - 1]);
    }
    lemma_find(s, ',', 0, k);
    lemma_find(s, ',', k + 1, h);
    lemma_find(s, ',', h + 1, s.len() as int);
}

} // verus!
