//! Places: the hemispheres, the units of coordinates, and heights.
use vstd::arithmetic::power2::{lemma2_to64, lemma_pow2_adds, lemma_pow2_pos, lemma_pow2_unfold, pow2};
use vstd::prelude::*;

use crate::double::{floor, half, half_even, nought, rounded, sum, whole, Binary};
use crate::geo::nearest;
use crate::model::{ExifTagView, Gps, IfdKind, ValueView};
use crate::normalize::{
    coord_rationals, dms_degrees, exif_gps, exif_value, rationals, ref_is, term, units,
};

verus! {

/// The `i`-th tag is the first with the number `tag` in the GPS directory.
pub open spec fn first_at(ts: Seq<ExifTagView>, i: int, tag: u16) -> bool {
    &&& 0 <= i < ts.len()
    &&& ts[i].ifd == IfdKind::Gps
    &&& ts[i].tag == tag
    &&& forall|j: int| 0 <= j < i ==> !((#[trigger] ts[j]).ifd == IfdKind::Gps && ts[j].tag == tag)
}

/// There is no tag with the number `tag` in the GPS directory.
pub open spec fn absent(ts: Seq<ExifTagView>, tag: u16) -> bool {
    forall|j: int| 0 <= j < ts.len() ==> !((#[trigger] ts[j]).ifd == IfdKind::Gps && ts[j].tag == tag)
}

proof fn lemma_first(ts: Seq<ExifTagView>, i: int, tag: u16)
    requires
        first_at(ts, i, tag),
    ensures
        exif_value(ts, IfdKind::Gps, tag) == Some(ts[i].value),
    decreases ts.len(),
{
    if i > 0 {
        assert(!(ts[0].ifd == IfdKind::Gps && ts[0].tag == tag));
        let m = ts.drop_first();
        assert forall|j: int| 0 <= j < i - 1 implies !((#[trigger] m[j]).ifd == IfdKind::Gps
            && m[j].tag == tag) by {
            assert(m[j] == ts[j + 1]);
        }
        lemma_first(m, i - 1, tag);
    }
}

proof fn lemma_absent(ts: Seq<ExifTagView>, tag: u16)
    requires
        absent(ts, tag),
    ensures
        exif_value(ts, IfdKind::Gps, tag) is None,
    decreases ts.len(),
{
    if ts.len() > 0 {
        let m = ts.drop_first();
        assert(!(ts[0].ifd == IfdKind::Gps && ts[0].tag == tag));
        assert forall|j: int| 0 <= j < m.len() implies !((#[trigger] m[j]).ifd == IfdKind::Gps
            && m[j].tag == tag) by {
            assert(m[j] == ts[j + 1]);
        }
        lemma_absent(m, tag);
    }
}

/// A tag with another number does not change what is found under `tag`.
proof fn lemma_other(ts: Seq<ExifTagView>, i: int, v: ValueView, tag: u16)
    requires
        0 <= i < ts.len(),
        !(ts[i].ifd == IfdKind::Gps && ts[i].tag == tag),
    ensures
        exif_value(ts.update(i, ExifTagView { value: v, ..ts[i] }), IfdKind::Gps, tag)
            == exif_value(ts, IfdKind::Gps, tag),
    decreases ts.len(),
{
    let us = ts.update(i, ExifTagView { value: v, ..ts[i] });
    if i > 0 {
        assert(us.drop_first() =~= ts.drop_first().update(
            i - 1,
            ExifTagView { value: v, ..ts.drop_first()[i - 1] },
        ));
        lemma_other(ts.drop_first(), i - 1, v, tag);
    } else {
        assert(us.drop_first() =~= ts.drop_first());
    }
}

/// `ts` with the value of the `i`-th tag replaced by the text `s`.
pub open spec fn with_text(ts: Seq<ExifTagView>, i: int, s: Seq<char>) -> Seq<ExifTagView> {
    ts.update(i, ExifTagView { value: ValueView::Text(s), ..ts[i] })
}

proof fn lemma_floor(x: Binary)
    requires
        x.m >= 0,
    ensures
        floor(x) >= 0,
{
    if x.e >= 0 {
        lemma_pow2_pos(x.e as nat);
        assert(x.m * pow2(x.e as nat) >= 0) by (nonlinear_arith)
            requires
                x.m >= 0,
                pow2(x.e as nat) > 0,
        ;
    } else {
        lemma_pow2_pos((-x.e) as nat);
        vstd::arithmetic::div_mod::lemma_div_pos_is_pos(x.m, pow2((-x.e) as nat) as int);
    }
}

/// A number in double precision is not negative.
proof fn lemma_rounded_sign(p: int, q: int, e: int)
    ensures
        rounded(p, q, e).m >= 0,
    decreases
        (if p < 0x10_0000_0000_0000 * q {
            0x10_0000_0000_0000 * q - p
        } else if p >= 0x20_0000_0000_0000 * q {
            p - 0x20_0000_0000_0000 * q + 1
        } else {
            0
        }),
{
    if p <= 0 || q <= 0 {
    } else if p < 0x10_0000_0000_0000 * q {
        lemma_rounded_sign(2 * p, q, e - 1);
    } else if p >= 0x20_0000_0000_0000 * q {
        lemma_rounded_sign(p, 2 * q, e + 1);
    } else {
        vstd::arithmetic::div_mod::lemma_div_pos_is_pos(p, q);
    }
}

proof fn lemma_sum_sign(x: Binary, y: Binary)
    requires
        x.m >= 0,
        y.m >= 0,
    ensures
        sum(x, y).m >= 0,
{
    if x.e >= y.e {
        lemma_rounded_sign(x.m * pow2((x.e - y.e) as nat) + y.m, 1, y.e);
    } else {
        lemma_rounded_sign(y.m * pow2((y.e - x.e) as nat) + x.m, 1, x.e);
    }
}

/// The sign of a rounded number is the one asked for, and asking for the other one gives
/// the opposite.
proof fn lemma_signs(x: Binary, scale: int)
    ensures
        nearest(x, scale, false) matches Some(v) ==> v >= 0 && nearest(x, scale, true) == Some(
            (-v) as i32,
        ) && (-v) as i32 == -v,
        nearest(x, scale, true) matches Some(v) ==> v <= 0,
{
    let t = rounded(x.m * scale, 1, x.e);
    lemma_rounded_sign(x.m * scale, 1, x.e);
    lemma_sum_sign(t, half());
    lemma_floor(sum(t, half()));
}

/// The letters of a reference, in either case.
pub open spec fn is_letter(v: ValueView, upper: char, lower: char) -> bool {
    v == ValueView::Text(seq![upper]) || v == ValueView::Text(seq![lower])
}

proof fn lemma_ref(ts: Seq<ExifTagView>, i: int, tag: u16, upper: char, lower: char)
    requires
        first_at(ts, i, tag),
    ensures
        ref_is(ts, tag, upper, lower) == is_letter(ts[i].value, upper, lower),
{
    lemma_first(ts, i, tag);
    match ts[i].value {
        ValueView::Text(s) => {
            if s.len() == 1 {
                assert(s =~= seq![s[0]]);
            }
            if s == seq![upper] {
                assert(s[0] == upper);
            }
            if s == seq![lower] {
                assert(s[0] == lower);
            }
        },
        _ => {},
    }
}

/// A latitude is negative or nought where its reference is the letter S, and positive or
/// nought in every other case.
pub proof fn south_is_negative(ts: Seq<ExifTagView>, i: int)
    ensures
        exif_gps(ts) matches Some(g) ==> {
            &&& first_at(ts, i, 1) && is_letter(ts[i].value, 'S', 's') ==> g.lat_e7 <= 0
            &&& first_at(ts, i, 1) && !is_letter(ts[i].value, 'S', 's') ==> g.lat_e7 >= 0
            &&& absent(ts, 1) ==> g.lat_e7 >= 0
        },
{
    if first_at(ts, i, 1) {
        lemma_ref(ts, i, 1, 'S', 's');
    }
    if absent(ts, 1) {
        lemma_absent(ts, 1);
    }
    lemma_both_signs(ts);
}

/// So is a longitude, by the letter W.
pub proof fn west_is_negative(ts: Seq<ExifTagView>, i: int)
    ensures
        exif_gps(ts) matches Some(g) ==> {
            &&& first_at(ts, i, 3) && is_letter(ts[i].value, 'W', 'w') ==> g.lon_e7 <= 0
            &&& first_at(ts, i, 3) && !is_letter(ts[i].value, 'W', 'w') ==> g.lon_e7 >= 0
            &&& absent(ts, 3) ==> g.lon_e7 >= 0
        },
{
    if first_at(ts, i, 3) {
        lemma_ref(ts, i, 3, 'W', 'w');
    }
    if absent(ts, 3) {
        lemma_absent(ts, 3);
    }
    lemma_both_signs(ts);
}

/// And so is a height, by a first byte of one.
pub proof fn below_the_sea_is_negative(ts: Seq<ExifTagView>, i: int)
    ensures
        exif_gps(ts) matches Some(g) ==> (g.alt_mm matches Some(a) ==> {
            let below = ts[i].value matches ValueView::Bytes(b) && b.len() > 0 && b[0] == 1;
            &&& first_at(ts, i, 5) && below ==> a <= 0
            &&& first_at(ts, i, 5) && !below ==> a >= 0
            &&& absent(ts, 5) ==> a >= 0
        }),
{
    if first_at(ts, i, 5) {
        lemma_first(ts, i, 5);
    }
    if absent(ts, 5) {
        lemma_absent(ts, 5);
    }
    match exif_value(ts, IfdKind::Gps, 6) {
        Some(ValueView::Rational(n, d)) => {
            lemma_signs(rounded(n as int, d as int, 0), 1000);
        },
        _ => {},
    }
}

proof fn lemma_both_signs(ts: Seq<ExifTagView>)
    ensures
        exif_gps(ts) matches Some(g) ==> {
            &&& g.lat_e7 <= 0 || !ref_is(ts, 1, 'S', 's')
            &&& g.lat_e7 >= 0 || ref_is(ts, 1, 'S', 's')
            &&& g.lon_e7 <= 0 || !ref_is(ts, 3, 'W', 'w')
            &&& g.lon_e7 >= 0 || ref_is(ts, 3, 'W', 'w')
        },
{
    match (exif_value(ts, IfdKind::Gps, 2), exif_value(ts, IfdKind::Gps, 4)) {
        (Some(lat), Some(lon)) => {
            lemma_signs(dms_degrees(coord_rationals(lat)), 10_000_000);
            lemma_signs(dms_degrees(coord_rationals(lon)), 10_000_000);
        },
        _ => {},
    }
}

/// With all else equal, the latitude for S is that for N with the opposite sign, and the
/// rest of the place is the same.
pub proof fn south_mirrors_north(ts: Seq<ExifTagView>, i: int)
    requires
        first_at(ts, i, 1),
    ensures
        exif_gps(with_text(ts, i, seq!['N'])) matches Some(n) ==> exif_gps(
            with_text(ts, i, seq!['S']),
        ) == Some(Gps { lat_e7: (-n.lat_e7) as i32, ..n }) && (-n.lat_e7) as i32 == -n.lat_e7,
{
    let (a, b) = (with_text(ts, i, seq!['N']), with_text(ts, i, seq!['S']));
    assert(first_at(a, i, 1) && first_at(b, i, 1)) by {
        assert forall|j: int| 0 <= j < i implies !((#[trigger] a[j]).ifd == IfdKind::Gps && a[j].tag
            == 1) && !((#[trigger] b[j]).ifd == IfdKind::Gps && b[j].tag == 1) by {
            assert(a[j] == ts[j] && b[j] == ts[j]);
        }
    }
    lemma_ref(a, i, 1, 'S', 's');
    lemma_ref(b, i, 1, 'S', 's');
    assert(!is_letter(a[i].value, 'S', 's')) by {
        assert(seq!['N'][0] == 'N' && seq!['S'][0] == 'S' && seq!['s'][0] == 's');
    }
    lemma_rest_stays(ts, i, seq!['N'], 1);
    lemma_rest_stays(ts, i, seq!['S'], 1);
    match (exif_value(ts, IfdKind::Gps, 2), exif_value(ts, IfdKind::Gps, 4)) {
        (Some(lat), Some(lon)) => {
            lemma_signs(dms_degrees(coord_rationals(lat)), 10_000_000);
        },
        _ => {},
    }
}

/// So is the longitude for W that for E.
pub proof fn west_mirrors_east(ts: Seq<ExifTagView>, i: int)
    requires
        first_at(ts, i, 3),
    ensures
        exif_gps(with_text(ts, i, seq!['E'])) matches Some(n) ==> exif_gps(
            with_text(ts, i, seq!['W']),
        ) == Some(Gps { lon_e7: (-n.lon_e7) as i32, ..n }) && (-n.lon_e7) as i32 == -n.lon_e7,
{
    let (a, b) = (with_text(ts, i, seq!['E']), with_text(ts, i, seq!['W']));
    assert(first_at(a, i, 3) && first_at(b, i, 3)) by {
        assert forall|j: int| 0 <= j < i implies !((#[trigger] a[j]).ifd == IfdKind::Gps && a[j].tag
            == 3) && !((#[trigger] b[j]).ifd == IfdKind::Gps && b[j].tag == 3) by {
            assert(a[j] == ts[j] && b[j] == ts[j]);
        }
    }
    lemma_ref(a, i, 3, 'W', 'w');
    lemma_ref(b, i, 3, 'W', 'w');
    assert(!is_letter(a[i].value, 'W', 'w')) by {
        assert(seq!['E'][0] == 'E' && seq!['W'][0] == 'W' && seq!['w'][0] == 'w');
    }
    lemma_rest_stays(ts, i, seq!['E'], 3);
    lemma_rest_stays(ts, i, seq!['W'], 3);
    match (exif_value(ts, IfdKind::Gps, 2), exif_value(ts, IfdKind::Gps, 4)) {
        (Some(lat), Some(lon)) => {
            lemma_signs(dms_degrees(coord_rationals(lon)), 10_000_000);
        },
        _ => {},
    }
}

proof fn lemma_rest_stays(ts: Seq<ExifTagView>, i: int, s: Seq<char>, tag: u16)
    requires
        first_at(ts, i, tag),
    ensures
        forall|k: u16| k != tag ==> #[trigger] exif_value(with_text(ts, i, s), IfdKind::Gps, k)
            == exif_value(ts, IfdKind::Gps, k),
{
    assert forall|k: u16| k != tag implies #[trigger] exif_value(
        with_text(ts, i, s),
        IfdKind::Gps,
        k,
    ) == exif_value(ts, IfdKind::Gps, k) by {
        lemma_other(ts, i, ValueView::Text(s), k);
    }
}

/// A fraction with both of its terms multiplied is the same number.
proof fn lemma_scale(p: int, q: int, e: int, c: int)
    requires
        p > 0,
        q > 0,
        c > 0,
    ensures
        rounded(p * c, q * c, e) == rounded(p, q, e),
    decreases
        (if p < 0x10_0000_0000_0000 * q {
            0x10_0000_0000_0000 * q - p
        } else if p >= 0x20_0000_0000_0000 * q {
            p - 0x20_0000_0000_0000 * q + 1
        } else {
            0
        }),
{
    let (x, y) = (p * c, q * c);
    assert(x > 0 && y > 0) by (nonlinear_arith)
        requires
            x == p * c,
            y == q * c,
            p > 0,
            q > 0,
            c > 0,
    ;
    assert((x < 0x10_0000_0000_0000 * y) == (p < 0x10_0000_0000_0000 * q)) by (nonlinear_arith)
        requires
            x == p * c,
            y == q * c,
            c > 0,
    ;
    assert((x < 0x20_0000_0000_0000 * y) == (p < 0x20_0000_0000_0000 * q)) by (nonlinear_arith)
        requires
            x == p * c,
            y == q * c,
            c > 0,
    ;
    if p < 0x10_0000_0000_0000 * q {
        assert(2 * x == (2 * p) * c) by (nonlinear_arith)
            requires
                x == p * c,
        ;
        lemma_scale(2 * p, q, e - 1, c);
    } else if p >= 0x20_0000_0000_0000 * q {
        assert(2 * y == (2 * q) * c) by (nonlinear_arith)
            requires
                y == q * c,
        ;
        lemma_scale(p, 2 * q, e + 1, c);
    } else {
        vstd::arithmetic::div_mod::lemma_fundamental_div_mod(p, q);
        vstd::arithmetic::div_mod::lemma_mod_bound(p, q);
        let (a, r) = (p / q, p % q);
        assert(x == a * y + r * c && 0 <= r * c < y) by (nonlinear_arith)
            requires
                x == p * c,
                y == q * c,
                p == q * a + r,
                0 <= r < q,
                c > 0,
        ;
        vstd::arithmetic::div_mod::lemma_fundamental_div_mod_converse(x, y, a, r * c);
        assert((2 * (r * c) > y) == (2 * r > q) && (2 * (r * c) == y) == (2 * r == q))
            by (nonlinear_arith)
            requires
                y == q * c,
                c > 0,
        ;
    }
}

/// Twice the number of halves is the same number.
proof fn lemma_double(p: int, q: int, e: int)
    requires
        p > 0,
        q > 0,
    ensures
        rounded(2 * p, q, e - 1) == rounded(p, q, e),
{
    if p >= 0x10_0000_0000_0000 * q {
        assert(rounded(2 * p, q, e - 1) == rounded(2 * p, 2 * q, e));
        lemma_scale(p, q, e, 2);
        assert(p * 2 == 2 * p && q * 2 == 2 * q);
    }
}

proof fn lemma_shifted(p: int, q: int, e: int, k: nat)
    requires
        p > 0,
        q > 0,
    ensures
        rounded(p * pow2(k), q, e - k) == rounded(p, q, e),
        p * pow2(k) > 0,
    decreases k,
{
    lemma2_to64();
    lemma_pow2_pos(k);
    assert(p * pow2(k) > 0) by (nonlinear_arith)
        requires
            p > 0,
            pow2(k) > 0,
    ;
    if k > 0 {
        let j = (k - 1) as nat;
        lemma_shifted(p, q, e, j);
        lemma_pow2_unfold(k);
        assert(p * pow2(k) == 2 * (p * pow2(j))) by (nonlinear_arith)
            requires
                pow2(k) == 2 * pow2(j),
        ;
        lemma_double(p * pow2(j), q, e - j);
    } else {
        assert(p * pow2(0) == p) by (nonlinear_arith)
            requires
                pow2(0) == 1,
        ;
    }
}

/// A whole number that is short enough keeps all of its digits.
proof fn lemma_exact(n: int, e: int) -> (k: nat)
    requires
        0 < n < 0x20_0000_0000_0000,
    ensures
        rounded(n, 1, e) == (Binary { m: n * pow2(k), e: e - k }),
        n * pow2(k) > 0,
    decreases 0x20_0000_0000_0000 - n,
{
    lemma2_to64();
    if n < 0x10_0000_0000_0000 {
        let j = lemma_exact(2 * n, e - 1);
        lemma_pow2_unfold((j + 1) as nat);
        assert(n * pow2((j + 1) as nat) == (2 * n) * pow2(j)) by (nonlinear_arith)
            requires
                pow2((j + 1) as nat) == 2 * pow2(j),
        ;
        (j + 1) as nat
    } else {
        assert(half_even(n, 1) == n);
        assert(n * pow2(0) == n) by (nonlinear_arith)
            requires
                pow2(0) == 1,
        ;
        0
    }
}

/// A whole number times another.
proof fn lemma_times(n: int, e: int, c: int)
    requires
        0 < n < 0x20_0000_0000_0000,
        c > 0,
    ensures
        ({
            let x = rounded(n, 1, e);
            &&& rounded(x.m * c, 1, x.e) == rounded(n * c, 1, e)
            &&& rounded(x.m, c, x.e) == rounded(n, c, e)
        }),
{
    let k = lemma_exact(n, e);
    assert(n * c > 0) by (nonlinear_arith)
        requires
            n > 0,
            c > 0,
    ;
    assert((n * pow2(k)) * c == (n * c) * pow2(k)) by (nonlinear_arith);
    lemma_shifted(n * c, 1, e, k);
    lemma_shifted(n, c, e, k);
}

/// Whole numbers of the same unit add up.
proof fn lemma_sum(a: int, b: int, e: int)
    requires
        0 <= a,
        0 <= b,
        a + b < 0x20_0000_0000_0000,
    ensures
        sum(rounded(a, 1, e), rounded(b, 1, e)) == rounded(a + b, 1, e),
{
    if a > 0 && b > 0 {
        let i = lemma_exact(a, e);
        let j = lemma_exact(b, e);
        let (x, y) = (rounded(a, 1, e), rounded(b, 1, e));
        if i <= j {
            let d = (j - i) as nat;
            lemma_pow2_adds(i, d);
            assert((a * pow2(i)) * pow2(d) + b * pow2(j) == (a + b) * pow2(j)) by (nonlinear_arith)
                requires
                    pow2(j) == pow2(i) * pow2(d),
            ;
            lemma_shifted(a + b, 1, e, j);
            assert((x.e - y.e) as nat == d);
        } else {
            let d = (i - j) as nat;
            lemma_pow2_adds(j, d);
            assert((b * pow2(j)) * pow2(d) + a * pow2(i) == (a + b) * pow2(i)) by (nonlinear_arith)
                requires
                    pow2(i) == pow2(j) * pow2(d),
            ;
            lemma_shifted(a + b, 1, e, i);
            assert((y.e - x.e) as nat == d);
        }
    } else if a > 0 {
        let i = lemma_exact(a, e);
        assert(rounded(0, 1, e) == nought());
    }
}

/// A whole number times a scale is rounded to what it is.
proof fn lemma_nearest(n: int, scale: int, neg: bool)
    requires
        0 <= n,
        0 < scale,
        n * scale < 0x8000_0000,
    ensures
        nearest(rounded(n, 1, 0), scale, neg) == Some(
            (if neg {
                -(n * scale)
            } else {
                n * scale
            }) as i32,
        ),
{
    let x = rounded(n, 1, 0);
    let v = n * scale;
    assert(v >= n) by (nonlinear_arith)
        requires
            v == n * scale,
            scale >= 1,
            n >= 0,
    ;
    let t = rounded(x.m * scale, 1, x.e);
    if n > 0 {
        lemma_times(n, 0, scale);
        lemma_double(v, 1, 0);
        assert(t == rounded(2 * v, 1, -1));
    } else {
        assert(0 * scale == 0);
        assert(t == nought());
        assert(rounded(2 * v, 1, -1) == nought());
    }
    let k1 = lemma_exact(1, -1);
    lemma2_to64();
    lemma2_rest();
    assert(half() == rounded(1, 1, -1)) by {
        lemma_shifted(1, 1, -1, 52);
        assert(1 * pow2(52) == 0x10_0000_0000_0000);
        assert(half_even(0x10_0000_0000_0000, 1) == 0x10_0000_0000_0000);
    }
    lemma_sum(2 * v, 1, -1);
    let s = sum(t, half());
    let k = lemma_exact(2 * v + 1, -1);
    assert(s == Binary { m: (2 * v + 1) * pow2(k), e: -1 - k });
    let d = pow2((k + 1) as nat);
    lemma_pow2_unfold((k + 1) as nat);
    lemma_pow2_pos(k);
    assert((2 * v + 1) * pow2(k) == v * d + pow2(k)) by (nonlinear_arith)
        requires
            d == 2 * pow2(k),
    ;
    vstd::arithmetic::div_mod::lemma_fundamental_div_mod_converse(
        (2 * v + 1) * pow2(k),
        d as int,
        v,
        pow2(k) as int,
    );
    assert(floor(s) == v);
}

proof fn lemma2_rest()
    ensures
        pow2(52) == 0x10_0000_0000_0000,
{
    vstd::arithmetic::power2::lemma2_to64_rest();
}

/// A part of a coordinate: `n` degrees, written as so many of a unit of which `k` make a
/// degree, over a denominator.
pub open spec fn is_part(r: (u32, u32), n: int, k: int) -> bool {
    r.1 > 0 && r.0 == n * k * r.1
}

proof fn lemma_part(r: (u32, u32), n: int, k: int)
    requires
        is_part(r, n, k),
        0 <= n,
        0 < k,
    ensures
        term(r.0 as int, r.1 as int, k) == rounded(n, 1, 0),
        n < 0x1_0000_0000,
{
    let d = r.1 as int;
    assert(n * k * d >= n) by (nonlinear_arith)
        requires
            n >= 0,
            k >= 1,
            d >= 1,
    ;
    if n > 0 {
        assert(n * k > 0 && n * k <= n * k * d) by (nonlinear_arith)
            requires
                n > 0,
                k > 0,
                d >= 1,
        ;
        lemma_scale(n * k, 1, 0, d);
        assert(1 * d == d);
        lemma_times(n * k, 0, k);
        lemma_scale(n, 1, 0, k);
        assert(1 * k == k);
    } else {
        assert(0 * k * d == 0) by (nonlinear_arith);
        assert(rounded(0, d, 0) == nought());
    }
}

/// The rationals of a coordinate in degrees, minutes and seconds.
pub open spec fn three_parts(v: ValueView, r: Seq<(u32, u32)>) -> bool {
    &&& r.len() == 3
    &&& v matches ValueView::List(items) && items.len() == 3 && forall|i: int|
        0 <= i < 3 ==> (#[trigger] items[i]) == ValueView::Rational(r[i].0, r[i].1)
}

/// Whole degrees, whole degrees in minutes and whole degrees in seconds.
pub open spec fn whole_degrees(r: Seq<(u32, u32)>, a: int, b: int, c: int) -> bool {
    &&& is_part(r[0], a, 1)
    &&& is_part(r[1], b, 60)
    &&& is_part(r[2], c, 3600)
    &&& 0 <= a
    &&& 0 <= b
    &&& 0 <= c
    &&& a + b + c < 215
}

proof fn lemma_three(v: ValueView, r: Seq<(u32, u32)>, a: int, b: int, c: int)
    requires
        three_parts(v, r),
        whole_degrees(r, a, b, c),
    ensures
        coord_rationals(v) == r,
        dms_degrees(r) == rounded(a + b + c, 1, 0),
        forall|i: int| 0 <= i < r.len() ==> (#[trigger] r[i]).1 != 0,
{
    let items = v->List_0;
    assert(items.take(3) =~= items);
    let (i2, i1) = (items.drop_last(), items.drop_last().drop_last());
    reveal_with_fuel(rationals, 4);
    assert(i1.drop_last() =~= seq![]);
    assert(items.last() == ValueView::Rational(r[2].0, r[2].1));
    assert(i2.last() == ValueView::Rational(r[1].0, r[1].1));
    assert(i1.last() == ValueView::Rational(r[0].0, r[0].1));
    assert(rationals(items) =~= r);
    reveal_with_fuel(dms_degrees, 4);
    let (r2, r1) = (r.drop_last(), r.drop_last().drop_last());
    assert(r1.drop_last() =~= seq![]);
    lemma_part(r[0], a, 1);
    lemma_part(r[1], b, 60);
    lemma_part(r[2], c, 3600);
    assert(r.last() == r[2] && r2.last() == r[1] && r1.last() == r[0]);
    assert(rounded(0, 1, 0) == nought());
    lemma_sum(0, a, 0);
    lemma_sum(a, b, 0);
    lemma_sum(a + b, c, 0);
    assert(r[0].1 != 0 && r[1].1 != 0 && r[2].1 != 0);
}

/// Sixty minutes are a degree, and so are 3600 seconds, over whatever denominators: a
/// coordinate of whole degrees, written in any mix of the three units, is that many degrees,
/// in ten millionths, and with the sign that its reference asks for.
pub proof fn units_of_coordinates_agree(
    ts: Seq<ExifTagView>,
    i: int,
    j: int,
    r: Seq<(u32, u32)>,
    q: Seq<(u32, u32)>,
    lat: (int, int, int),
    lon: (int, int, int),
)
    requires
        first_at(ts, i, 2),
        first_at(ts, j, 4),
        three_parts(ts[i].value, r),
        three_parts(ts[j].value, q),
        whole_degrees(r, lat.0, lat.1, lat.2),
        whole_degrees(q, lon.0, lon.1, lon.2),
    ensures
        ({
            let (x, y) = (lat.0 + lat.1 + lat.2, lon.0 + lon.1 + lon.2);
            exif_gps(ts) matches Some(g) && (g.lat_e7 == x * 10_000_000 || g.lat_e7 == -(x
                * 10_000_000)) && (g.lon_e7 == y * 10_000_000 || g.lon_e7 == -(y * 10_000_000))
        }),
{
    lemma_first(ts, i, 2);
    lemma_first(ts, j, 4);
    lemma_three(ts[i].value, r, lat.0, lat.1, lat.2);
    lemma_three(ts[j].value, q, lon.0, lon.1, lon.2);
    lemma_nearest(lat.0 + lat.1 + lat.2, 10_000_000, ref_is(ts, 1, 'S', 's'));
    lemma_nearest(lon.0 + lon.1 + lon.2, 10_000_000, ref_is(ts, 3, 'W', 'w'));
}

/// A height of whole metres, over whatever denominator, is that many times a thousand
/// millimetres.
pub proof fn heights_are_in_millimetres(ts: Seq<ExifTagView>, i: int, n: int, d: u32)
    requires
        first_at(ts, i, 6),
        d > 0,
        0 <= n,
        n * d <= u32::MAX,
        n * 1000 < 0x8000_0000,
        ts[i].value == ValueView::Rational((n * d) as u32, d),
    ensures
        exif_gps(ts) matches Some(g) ==> g.alt_mm matches Some(a) && (a == n * 1000 || a == -(n
            * 1000)),
{
    lemma_first(ts, i, 6);
    assert(n * d >= 0) by (nonlinear_arith)
        requires
            n >= 0,
            d > 0,
    ;
    let neg = match exif_value(ts, IfdKind::Gps, 5) {
        Some(ValueView::Bytes(b)) => b.len() > 0 && b[0] == 1,
        _ => false,
    };
    if n > 0 {
        lemma_scale(n, 1, 0, d as int);
        assert(1 * d == d);
    } else {
        assert(0 * d == 0);
        assert(rounded(0, d as int, 0) == nought());
    }
    lemma_nearest(n, 1000, neg);
}

/// A place needs both coordinates, and no denominator of nought in them.
pub proof fn places_need_both_coordinates(ts: Seq<ExifTagView>, i: int, k: int)
    ensures
        absent(ts, 2) || absent(ts, 4) ==> exif_gps(ts) is None,
        (first_at(ts, i, 2) || first_at(ts, i, 4)) && (ts[i].value matches ValueView::List(items)
            && 0 <= k < items.len() && k < 3 && (items[k] matches ValueView::Rational(n, d) && d
            == 0)) ==> exif_gps(ts) is None,
        (first_at(ts, i, 2) || first_at(ts, i, 4)) && (ts[i].value matches ValueView::Rational(
            n,
            d,
        ) && d == 0) ==> exif_gps(ts) is None,
{
    if absent(ts, 2) {
        lemma_absent(ts, 2);
    }
    if absent(ts, 4) {
        lemma_absent(ts, 4);
    }
    if first_at(ts, i, 2) {
        lemma_first(ts, i, 2);
    }
    if first_at(ts, i, 4) {
        lemma_first(ts, i, 4);
    }
    if 0 <= i < ts.len() {
        match ts[i].value {
            ValueView::List(items) => {
                let n = if items.len() < 3 {
                    items.len() as int
                } else {
                    3
                };
                if 0 <= k < n {
                    match items[k] {
                        ValueView::Rational(a, b) => {
                            lemma_among(items.take(n), k);
                        },
                        _ => {},
                    }
                }
            },
            ValueView::Rational(n, d) => {
                assert(seq![(n, d)][0] == (n, d));
                assert(coord_rationals(ts[i].value)[0].1 == d);
            },
            _ => {},
        }
    }
}

proof fn lemma_among(vs: Seq<ValueView>, k: int)
    requires
        0 <= k < vs.len(),
        vs[k] is Rational,
    ensures
        exists|j: int|
            0 <= j < rationals(vs).len() && (#[trigger] rationals(vs)[j]) == (
                vs[k]->Rational_0,
                vs[k]->Rational_1,
            ),
    decreases vs.len(),
{
    let r = rationals(vs);
    let m = vs.drop_last();
    if k == vs.len() - 1 {
        assert(r[r.len() - 1] == (vs[k]->Rational_0, vs[k]->Rational_1));
    } else {
        lemma_among(m, k);
        let j = choose|j: int|
            0 <= j < rationals(m).len() && (#[trigger] rationals(m)[j]) == (
                vs[k]->Rational_0,
                vs[k]->Rational_1,
            );
        assert(r[j] == rationals(m)[j]);
    }
}

} // verus!
