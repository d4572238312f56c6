//! Numbers of at least nought in double precision, by integers: every operation rounds to
//! 53 binary digits, to the nearest, and to the even one of two.
use vstd::arithmetic::power2::{
    lemma2_to64, lemma2_to64_rest, lemma_pow2_adds, lemma_pow2_pos, lemma_pow2_strictly_increases,
    lemma_pow2_unfold, pow2,
};
use vstd::prelude::*;

verus! {

/// The number `m` times two to the `e`.
pub struct Binary {
    pub m: int,
    pub e: int,
}

/// Two to the 52nd: the least number of 53 binary digits.
pub const LEAST: u64 = 0x10_0000_0000_0000;

/// Nought, or a number with 53 binary digits.
#[derive(Debug, Clone, Copy, PartialEq, Eq, Structural)]
pub struct Double {
    m: u64,
    e: i32,
}

impl View for Double {
    type V = Binary;

    closed spec fn view(&self) -> Binary {
        Binary { m: self.m as int, e: self.e as int }
    }
}

/// Nought.
pub open spec fn nought() -> Binary {
    Binary { m: 0, e: 0 }
}

/// One half.
pub open spec fn half() -> Binary {
    Binary { m: 0x10_0000_0000_0000, e: -53 }
}

/// A number in double precision, and the bound `k` of its exponent.
pub open spec fn within(x: Binary, k: int) -> bool {
    &&& x == nought() || 0x10_0000_0000_0000 <= x.m < 0x20_0000_0000_0000
    &&& -k <= x.e <= k
}

/// The integer nearest to `p / q`, and the even one of two.
pub open spec fn half_even(p: int, q: int) -> int {
    let up = 2 * (p % q) > q || (2 * (p % q) == q && p / q % 2 == 1);
    p / q + if up {
        1int
    } else {
        0
    }
}

/// `p / q` times two to the `e` in double precision: the fraction is doubled or halved
/// until it has 53 binary digits before the point, and then rounded.
pub open spec fn rounded(p: int, q: int, e: int) -> Binary
    decreases
        (if p < 0x10_0000_0000_0000 * q {
            0x10_0000_0000_0000 * q - p
        } else if p >= 0x20_0000_0000_0000 * q {
            p - 0x20_0000_0000_0000 * q + 1
        } else {
            0
        }),
{
    if p <= 0 || q <= 0 {
        nought()
    } else if p < 0x10_0000_0000_0000 * q {
        rounded(2 * p, q, e - 1)
    } else if p >= 0x20_0000_0000_0000 * q {
        rounded(p, 2 * q, e + 1)
    } else if half_even(p, q) == 0x20_0000_0000_0000 {
        Binary { m: 0x10_0000_0000_0000, e: e + 1 }
    } else {
        Binary { m: half_even(p, q), e }
    }
}

/// The sum of two numbers, rounded.
pub open spec fn sum(x: Binary, y: Binary) -> Binary {
    if x.m == 0 {
        y
    } else if y.m == 0 {
        x
    } else if x.e >= y.e {
        rounded(x.m * pow2((x.e - y.e) as nat) + y.m, 1, y.e)
    } else {
        rounded(y.m * pow2((y.e - x.e) as nat) + x.m, 1, x.e)
    }
}

/// The number without its fraction.
pub open spec fn floor(x: Binary) -> int {
    if x.e >= 0 {
        x.m * pow2(x.e as nat)
    } else {
        x.m / pow2((-x.e) as nat) as int
    }
}

/// Whether the number has no fraction.
pub open spec fn whole(x: Binary) -> bool {
    x.e >= 0 || x.m % pow2((-x.e) as nat) as int == 0
}

/// The magnitude of an exponent.
pub open spec fn size(e: int) -> int {
    if e < 0 {
        -e
    } else {
        e
    }
}

proof fn lemma_few(i: nat, n: nat)
    requires
        pow2(i) < pow2(n),
    ensures
        i < n,
{
    if n < i {
        lemma_pow2_strictly_increases(n, i);
    }
}

proof fn lemma_hundred()
    ensures
        pow2(100) == 0x10_0000_0000_0000_0000_0000_0000,
        pow2(74) == 0x400_0000_0000_0000_0000,
{
    lemma2_to64();
    lemma2_to64_rest();
    lemma_pow2_adds(50, 50);
    lemma_pow2_adds(64, 10);
}

/// A fraction between two bounds has its quotient between them.
proof fn lemma_quotient(p: int, q: int)
    requires
        q > 0,
        0x10_0000_0000_0000 * q <= p < 0x20_0000_0000_0000 * q,
    ensures
        0x10_0000_0000_0000 <= p / q < 0x20_0000_0000_0000,
        0 <= p % q < q,
        p == q * (p / q) + p % q,
{
    vstd::arithmetic::div_mod::lemma_fundamental_div_mod(p, q);
    vstd::arithmetic::div_mod::lemma_mod_bound(p, q);
    let d = p / q;
    let r = p % q;
    assert(d >= 0x10_0000_0000_0000) by (nonlinear_arith)
        requires
            p == q * d + r,
            r < q,
            0x10_0000_0000_0000 * q <= p,
            q > 0,
    ;
    assert(d < 0x20_0000_0000_0000) by (nonlinear_arith)
        requires
            p == q * d + r,
            0 <= r,
            p < 0x20_0000_0000_0000 * q,
            q > 0,
    ;
}

/// Rounds `n / d` times two to the `exp`.
fn round(n: u128, d: u128, exp: i32) -> (r: Double)
    requires
        n < 0x4000_0000_0000_0000_0000_0000_0000_0000,
        0 < d <= 0x1_0000_0000_0000,
        -10_000 <= exp <= 10_000,
    ensures
        r@ == rounded(n as int, d as int, exp as int),
        within(r@, size(exp as int) + 128),
{
    if n == 0 {
        return Double { m: 0, e: 0 };
    }
    let (mut p, mut q, mut e): (u128, u128, i32) = (n, d, exp);
    let ghost mut i: nat = 0;
    proof {
        lemma_hundred();
        lemma2_to64();
    }
    while p < q * 0x10_0000_0000_0000
        invariant
            0 < p < 0x4000_0000_0000_0000_0000_0000_0000_0000,
            0 < q <= 0x1_0000_0000_0000,
            pow2(i) <= p,
            i <= 100,
            e == exp - i,
            -10_000 <= exp <= 10_000,
            pow2(100) == 0x10_0000_0000_0000_0000_0000_0000,
            rounded(p as int, q as int, e as int) == rounded(n as int, d as int, exp as int),
        decreases 100 - i,
    {
        proof {
            lemma_few(i, 100);
            lemma_pow2_unfold((i + 1) as nat);
            i = (i + 1) as nat;
        }
        p = p * 2;
        e = e - 1;
    }
    let ghost low = e as int;
    let ghost mut j: nat = 0;
    proof {
        lemma_hundred();
        lemma2_to64();
    }
    while p >= q * 0x20_0000_0000_0000
        invariant
            0 < p < 0x4000_0000_0000_0000_0000_0000_0000_0000,
            0 < q,
            q * 0x10_0000_0000_0000 <= p,
            pow2(j) <= q,
            j <= 74,
            e == low + j,
            exp - 100 <= low <= exp,
            -10_000 <= exp <= 10_000,
            pow2(74) == 0x400_0000_0000_0000_0000,
            rounded(p as int, q as int, e as int) == rounded(n as int, d as int, exp as int),
        decreases 74 - j,
    {
        proof {
            lemma_few(j, 74);
            lemma_pow2_unfold((j + 1) as nat);
            j = (j + 1) as nat;
        }
        q = q * 2;
        e = e + 1;
    }
    proof {
        lemma_quotient(p as int, q as int);
    }
    let a: u128 = p / q;
    let rest: u128 = p % q;
    let m: u64 = if rest > q - rest || (rest == q - rest && a % 2 == 1) {
        a as u64 + 1
    } else {
        a as u64
    };
    if m == 0x20_0000_0000_0000 {
        Double { m: LEAST, e: e + 1 }
    } else {
        Double { m, e }
    }
}

/// What is far ahead swallows what is far behind.
proof fn lemma_shift(p: int, q: int, e: int, j: nat)
    requires
        q > 0,
        p >= 0x10_0000_0000_0000 * (q * pow2(j)),
    ensures
        rounded(p, q, e) == rounded(p, q * pow2(j), e + j),
    decreases j,
{
    lemma2_to64();
    if j > 0 {
        let i = (j - 1) as nat;
        lemma_pow2_unfold(j);
        lemma_pow2_pos(i);
        assert(q * pow2(j) == (2 * q) * pow2(i)) by (nonlinear_arith)
            requires
                pow2(j) == 2 * pow2(i),
        ;
        assert((2 * q) * pow2(i) >= 2 * q) by (nonlinear_arith)
            requires
                pow2(i) >= 1,
                q > 0,
        ;
        lemma_shift(p, 2 * q, e + 1, i);
    } else {
        assert(q * pow2(0) == q) by (nonlinear_arith)
            requires
                pow2(0) == 1,
        ;
    }
}

proof fn lemma_swallowed(a: int, b: int, e: int, k: nat)
    requires
        0x10_0000_0000_0000 <= a < 0x20_0000_0000_0000,
        0 <= b < 0x20_0000_0000_0000,
        k >= 55,
    ensures
        rounded(a * pow2(k) + b, 1, e) == (Binary { m: a, e: e + k }),
{
    lemma2_to64();
    lemma2_to64_rest();
    let q = pow2(k) as int;
    assert(q >= pow2(55)) by {
        if k > 55 {
            lemma_pow2_strictly_increases(55, k);
        }
    }
    let p = a * q + b;
    assert(0x10_0000_0000_0000 * q <= p < 0x20_0000_0000_0000 * q) by (nonlinear_arith)
        requires
            p == a * q + b,
            0x10_0000_0000_0000 <= a <= 0x20_0000_0000_0000 - 1,
            0 <= b < q,
    ;
    assert(1 * q == q);
    lemma_shift(p, 1, e, k);
    vstd::arithmetic::div_mod::lemma_fundamental_div_mod_converse(p, q, a, b);
}

impl Double {
    /// Nought.
    pub fn zero() -> (r: Self)
        ensures
            r@ == nought(),
    {
        Double { m: 0, e: 0 }
    }

    /// `n / d`.
    pub fn ratio(n: u32, d: u32) -> (r: Self)
        requires
            d > 0,
        ensures
            r@ == rounded(n as int, d as int, 0),
            within(r@, 128),
    {
        round(n as u128, d as u128, 0)
    }

    /// A number divided by `k`.
    pub fn over(self, k: u32) -> (r: Self)
        requires
            k > 0,
            within(self@, 800),
        ensures
            r@ == rounded(self@.m, k as int, self@.e),
            within(r@, size(self@.e) + 128),
    {
        round(self.m as u128, k as u128, self.e)
    }

    /// A number times `k`.
    pub fn times(self, k: u32) -> (r: Self)
        requires
            within(self@, 800),
        ensures
            r@ == rounded(self@.m * k, 1, self@.e),
            within(r@, size(self@.e) + 128),
    {
        assert(0 <= self.m * k <= 0x20_0000_0000_0000 * 0x1_0000_0000) by (nonlinear_arith)
            requires
                0 <= self.m < 0x20_0000_0000_0000,
                0 <= k < 0x1_0000_0000,
        ;
        round(self.m as u128 * k as u128, 1, self.e)
    }

    /// The sum of two numbers.
    pub fn plus(self, other: Self) -> (r: Self)
        requires
            within(self@, 800),
            within(other@, 800),
        ensures
            r@ == sum(self@, other@),
            within(r@, 128 + if size(self@.e) < size(other@.e) {
                size(other@.e)
            } else {
                size(self@.e)
            }),
    {
        if self.m == 0 {
            return other;
        }
        if other.m == 0 {
            return self;
        }
        let (a, b) = if self.e >= other.e {
            (self, other)
        } else {
            (other, self)
        };
        let k: i32 = a.e - b.e;
        if k > 60 {
            proof {
                lemma_swallowed(a.m as int, b.m as int, b.e as int, k as nat);
            }
            return a;
        }
        let mut p: u128 = a.m as u128;
        let mut i: i32 = 0;
        proof {
            lemma2_to64();
            lemma2_to64_rest();
            assert(a.m * pow2(0) == a.m) by (nonlinear_arith)
                requires
                    pow2(0) == 1,
            ;
        }
        while i < k
            invariant
                0 <= i <= k <= 60,
                a.m < 0x20_0000_0000_0000,
                p == a.m * pow2(i as nat),
                pow2(60) == 0x1000_0000_0000_0000,
            decreases k - i,
        {
            proof {
                lemma_pow2_unfold((i + 1) as nat);
                if i < 59 {
                    lemma_pow2_strictly_increases((i + 1) as nat, 60);
                }
                let w = pow2((i + 1) as nat);
                assert(a.m * w == 2 * (a.m * pow2(i as nat))) by (nonlinear_arith)
                    requires
                        w == 2 * pow2(i as nat),
                ;
                assert(a.m * w <= 0x20_0000_0000_0000 * 0x1000_0000_0000_0000) by (nonlinear_arith)
                    requires
                        0 <= w <= 0x1000_0000_0000_0000,
                        0 <= a.m < 0x20_0000_0000_0000,
                ;
            }
            p = p * 2;
            i = i + 1;
        }
        proof {
            if k < 60 {
                lemma_pow2_strictly_increases(k as nat, 60);
            }
            assert(p <= 0x20_0000_0000_0000 * 0x1000_0000_0000_0000) by (nonlinear_arith)
                requires
                    p == a.m * pow2(k as nat),
                    0 <= pow2(k as nat) <= 0x1000_0000_0000_0000,
                    0 <= a.m < 0x20_0000_0000_0000,
            ;
        }
        round(p + b.m as u128, 1, b.e)
    }

    /// One half.
    pub fn one_half() -> (r: Self)
        ensures
            r@ == half(),
            within(r@, 53),
    {
        Double { m: LEAST, e: -53 }
    }

    /// The number without its fraction, and whether it has none. A number of two to the
    /// 52nd and more is too large.
    pub fn split(self) -> (r: Option<(u64, bool)>)
        requires
            within(self@, 1000),
        ensures
            match r {
                Some((v, exact)) => v == floor(self@) < 0x20_0000_0000_0000 && exact == whole(
                    self@,
                ),
                None => floor(self@) >= 0x10_0000_0000_0000,
            },
    {
        proof {
            lemma2_to64();
            lemma2_to64_rest();
        }
        if self.e >= 0 {
            proof {
                lemma_pow2_pos(self.e as nat);
                assert(self.m * pow2(self.e as nat) >= self.m) by (nonlinear_arith)
                    requires
                        pow2(self.e as nat) >= 1,
                        self.m >= 0,
                ;
            }
            if self.m == 0 {
                assert(0 * pow2(0) == 0) by (nonlinear_arith);
                return Some((0, true));
            }
            return None;
        }
        let k: i32 = -self.e;
        if k > 53 {
            proof {
                lemma_pow2_strictly_increases(53, k as nat);
                vstd::arithmetic::div_mod::lemma_fundamental_div_mod_converse(
                    self.m as int,
                    pow2(k as nat) as int,
                    0,
                    self.m as int,
                );
            }
            return Some((0, false));
        }
        let mut d: u64 = 1;
        let mut i: i32 = 0;
        while i < k
            invariant
                0 <= i <= k <= 53,
                d == pow2(i as nat),
                pow2(53) == 0x20_0000_0000_0000,
            decreases k - i,
        {
            proof {
                lemma_pow2_unfold((i + 1) as nat);
                if i < 52 {
                    lemma_pow2_strictly_increases((i + 1) as nat, 53);
                }
            }
            d = d * 2;
            i = i + 1;
        }
        proof {
            lemma_pow2_pos(k as nat);
            assert(self.m as int / d as int <= self.m) by (nonlinear_arith)
                requires
                    d >= 1,
                    self.m >= 0,
            ;
        }
        Some((self.m / d, self.m % d == 0))
    }
}

} // verus!
