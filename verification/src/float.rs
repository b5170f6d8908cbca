//! Correctly rounded binary64 arithmetic on non-negative numbers.
//!
//! The end-of-run report is written in terms of IEEE 754 double-precision
//! quantities. This module computes them with integers: every operation forms
//! the exact rational result and rounds it to the nearest 53-bit value, ties to
//! even, exactly as the hardware does while results stay in the normal range.

use vstd::arithmetic::div_mod::*;
use vstd::arithmetic::mul::*;
use vstd::arithmetic::power2::*;
use vstd::prelude::*;
use vstd::string::*;

use crate::text;

verus! {

/// `2^52`, the smallest normalized mantissa.
pub const MANT_MIN: u64 = 0x10_0000_0000_0000;

/// `2^53`, one past the largest mantissa.
pub const MANT_END: u64 = 0x20_0000_0000_0000;

/// A non-negative binary64 value, `mant * 2^exp`.
#[derive(Clone, Copy, Debug, PartialEq, Eq, Structural)]
pub struct Binary64 {
    pub mant: u64,
    pub exp: i32,
}

/// The positive part of a signed exponent.
pub open spec fn up(e: int) -> nat {
    if e >= 0 {
        e as nat
    } else {
        0
    }
}

/// The negative part of a signed exponent.
pub open spec fn down(e: int) -> nat {
    up(-e)
}

impl Binary64 {
    /// Zero, or a normalized mantissa with an exponent in a range that holds all finite numbers.
    ///
    /// The range goes some way beyond them at both ends, so that sums of the largest and halves of the
    /// smallest stay in it.
    pub open spec fn wf(self) -> bool {
        ||| self.mant == 0 && self.exp == 0
        ||| MANT_MIN <= self.mant < MANT_END && -1200 <= self.exp <= 1100
    }

    /// Zero, or a value of the range from the smallest positive to the largest finite number.
    pub open spec fn finite(self) -> bool {
        self.wf() && (self.mant != 0 ==> -1074 <= self.exp + 52 <= 1023)
    }

    /// The numerator of the value this number stands for.
    pub open spec fn num(self) -> nat {
        self.mant as nat * pow2(up(self.exp as int))
    }

    /// The denominator of the value this number stands for.
    pub open spec fn den(self) -> nat {
        pow2(down(self.exp as int))
    }
}

/// `a / b` rounded to the nearest integer, ties to even.
pub open spec fn half_even(a: nat, b: nat) -> nat {
    let q = a / b;
    let r = a % b;
    if 2 * r < b || (2 * r == b && q % 2 == 0) {
        q
    } else {
        q + 1
    }
}

/// The largest `k` for which `2^k <= num / den`.
pub open spec fn exponent(num: nat, den: nat) -> int
    decreases
        (if num < den {
            1int
        } else {
            0int
        }),
        (if num < den {
            den - num
        } else {
            num - den
        }),
{
    if num == 0 || den == 0 {
        0
    } else if num >= 2 * den {
        1 + exponent(num, 2 * den)
    } else if num < den {
        exponent(2 * num, den) - 1
    } else {
        0
    }
}

/// The mantissa and the exponent of the binary64 number nearest to `num / den`, ties to even.
pub open spec fn nearest(num: nat, den: nat) -> (nat, int) {
    if num == 0 {
        (0, 0)
    } else {
        let k = exponent(num, den);
        let q = half_even(num * pow2(down(k)) * pow2(52), den * pow2(up(k)));
        if q == MANT_END {
            (MANT_MIN as nat, k - 51)
        } else {
            (q, k - 52)
        }
    }
}

/// Whether `f` is the binary64 number nearest to `num / den`.
pub open spec fn is_nearest(f: Binary64, num: nat, den: nat) -> bool {
    (f.mant as nat, f.exp as int) == nearest(num, den)
}

/// The binary64 number nearest to `num / den`.
pub open spec fn rounded_ratio(num: nat, den: nat) -> Binary64 {
    Binary64 { mant: nearest(num, den).0 as u64, exp: nearest(num, den).1 as i32 }
}

/// The rounded product.
pub open spec fn product(a: Binary64, b: Binary64) -> Binary64 {
    rounded_ratio(a.num() * b.num(), a.den() * b.den())
}

/// The rounded quotient.
pub open spec fn quotient(a: Binary64, b: Binary64) -> Binary64 {
    rounded_ratio(a.num() * b.den(), a.den() * b.num())
}

/// The rounded sum.
pub open spec fn sum(a: Binary64, b: Binary64) -> Binary64 {
    rounded_ratio(sum_num(a, b), a.den() * b.den())
}

/// The rounded difference of a number and one that is not greater.
pub open spec fn difference(a: Binary64, b: Binary64) -> Binary64 {
    rounded_ratio((a.num() * b.den() - b.num() * a.den()) as nat, a.den() * b.den())
}

/// The smaller of two numbers.
pub open spec fn smaller(a: Binary64, b: Binary64) -> Binary64 {
    if b.less(a) {
        b
    } else {
        a
    }
}

/// `2^k <= num / den < 2^(k+1)`.
spec fn log_is(num: nat, den: nat, k: int) -> bool {
    den * pow2(up(k)) <= num * pow2(down(k)) < 2 * (den * pow2(up(k)))
}

proof fn lemma_log_unique(num: nat, den: nat, j: int, k: int)
    requires
        num > 0,
        den > 0,
        log_is(num, den, j),
        log_is(num, den, k),
    ensures
        j == k,
{
    lemma_log_not_less(num, den, j, k);
    lemma_log_not_less(num, den, k, j);
}

proof fn lemma_log_not_less(num: nat, den: nat, j: int, k: int)
    requires
        num > 0,
        den > 0,
        log_is(num, den, j),
        log_is(num, den, k),
    ensures
        j >= k,
{
    if j < k {
        let (pj, nj, pk, nk) = (pow2(up(j)), pow2(down(j)), pow2(up(k)), pow2(down(k)));
        lemma_pow2_pos(up(j));
        lemma_pow2_pos(down(j));
        lemma_pow2_pos(up(k));
        lemma_pow2_pos(down(k));
        lemma_pow2_adds(up(k), down(j));
        lemma_pow2_adds(up(j), down(k));
        lemma_pow2_unfold((up(j) + down(k) + 1) as nat);
        if up(j) + down(k) + 1 < up(k) + down(j) {
            lemma_pow2_strictly_increases((up(j) + down(k) + 1) as nat, up(k) + down(j));
        }
        assert(2 * (pj * nk) <= pk * nj);
        assert(num * nj * nk < 2 * (den * pj) * nk) by (nonlinear_arith)
            requires
                num * nj < 2 * (den * pj),
                nk > 0,
        ;
        assert(den * pk * nj <= num * nk * nj) by (nonlinear_arith)
            requires
                den * pk <= num * nk,
                nj > 0,
        ;
        assert(den * pk * nj < 2 * (den * pj) * nk) by (nonlinear_arith)
            requires
                den * pk * nj <= num * nk * nj,
                num * nj * nk < 2 * (den * pj) * nk,
        ;
        assert(den * (pk * nj) >= den * (2 * (pj * nk))) by (nonlinear_arith)
            requires
                2 * (pj * nk) <= pk * nj,
                den > 0,
        ;
        assert(den * (pk * nj) == den * pk * nj) by (nonlinear_arith);
        assert(den * (2 * (pj * nk)) == 2 * (den * pj) * nk) by (nonlinear_arith);
    }
}

proof fn lemma_exponent(num: nat, den: nat)
    requires
        num > 0,
        den > 0,
    ensures
        log_is(num, den, exponent(num, den)),
    decreases
        (if num < den {
            1int
        } else {
            0int
        }),
        (if num < den {
            den - num
        } else {
            num - den
        }),
{
    lemma2_to64();
    if num >= 2 * den {
        lemma_exponent(num, 2 * den);
        let j = exponent(num, 2 * den);
        if j >= 0 {
            lemma_pow2_unfold(up(j + 1));
            let p = pow2(up(j));
            assert(2 * den * p == den * (2 * p)) by (nonlinear_arith);
            assert(log_is(num, den, j + 1));
        } else {
            lemma_pow2_unfold(down(j));
            let n = pow2(down(j + 1));
            assert(num * (2 * n) == 2 * (num * n)) by (nonlinear_arith);
            assert(den * pow2(0) == den && 2 * den * pow2(0) == 2 * den) by (nonlinear_arith)
                requires
                    pow2(0) == 1,
            ;
            assert(log_is(num, den, j + 1));
        }
    } else if num < den {
        lemma_exponent(2 * num, den);
        let j = exponent(2 * num, den);
        if j > 0 {
            lemma_pow2_unfold(up(j));
            let p = pow2(up(j - 1));
            assert(den * (2 * p) == 2 * (den * p)) by (nonlinear_arith);
            assert(num * pow2(0) == num && 2 * num * pow2(0) == 2 * num) by (nonlinear_arith)
                requires
                    pow2(0) == 1,
            ;
            assert(log_is(num, den, j - 1));
        } else {
            lemma_pow2_unfold(down(j - 1));
            let n = pow2(down(j));
            assert(2 * num * n == num * (2 * n)) by (nonlinear_arith);
            assert(log_is(num, den, j - 1));
        }
    } else {
        assert(den * pow2(0) == den && num * pow2(0) == num) by (nonlinear_arith)
            requires
                pow2(0) == 1,
        ;
        assert(log_is(num, den, 0));
    }
}

/// Rounding depends on the ratio alone.
proof fn lemma_half_even_ratio(a: nat, b: nat, c: nat, d: nat)
    requires
        b > 0,
        d > 0,
        a * d == c * b,
    ensures
        half_even(a, b) == half_even(c, d),
{
    let (q, r) = (a / b, a % b);
    lemma_fundamental_div_mod(a as int, b as int);
    // c * b == a * d == q * b * d + r * d, so b divides r * d.
    assert(c * b == (b * q + r) * d);
    assert((b * q + r) * d == b * (q * d) + r * d) by (nonlinear_arith);
    let s = c - q * d;
    assert(s * b == r * d) by (nonlinear_arith)
        requires
            c * b == b * (q * d) + r * d,
            s == c - q * d,
    ;
    assert(0 <= s < d) by (nonlinear_arith)
        requires
            s * b == r * d,
            0 <= r < b,
            b > 0,
            d > 0,
    ;
    lemma_fundamental_div_mod_converse(c as int, d as int, q as int, s);
    assert(2 * s < d <==> 2 * r < b) by (nonlinear_arith)
        requires
            s * b == r * d,
            b > 0,
            d > 0,
    ;
    assert(2 * s == d <==> 2 * r == b) by (nonlinear_arith)
        requires
            s * b == r * d,
            b > 0,
            d > 0,
    ;
}

/// Scaling a ratio by a power of two shifts the exponent of its rounding.
proof fn lemma_nearest_scale(num: nat, den: nat, x: nat, y: nat)
    requires
        num > 0,
        den > 0,
    ensures
        nearest(num * pow2(x), den * pow2(y)) == (
            nearest(num, den).0,
            nearest(num, den).1 + x - y,
        ),
{
    let k = exponent(num, den);
    let k2 = k + x - y;
    let (px, py) = (pow2(x), pow2(y));
    let (p, n, p2, n2) = (pow2(up(k)), pow2(down(k)), pow2(up(k2)), pow2(down(k2)));
    lemma_pow2_pos(x);
    lemma_pow2_pos(y);
    lemma_pow2_pos(up(k));
    lemma_pow2_pos(down(k));
    lemma_pow2_pos(up(k2));
    lemma_pow2_pos(down(k2));
    lemma_pow2_pos(52);
    lemma_exponent(num, den);
    lemma_pow2_adds(x, down(k2));
    lemma_pow2_adds(x + down(k2), up(k));
    lemma_pow2_adds(down(k), y);
    lemma_pow2_adds(down(k) + y, up(k2));
    assert(px * n2 * p == n * py * p2);
    let (a, b) = (num * n, den * p);
    let (a2, b2) = (num * px * n2, den * py * p2);
    assert(num * px > 0 && den * py > 0 && b > 0 && b2 > 0) by (nonlinear_arith)
        requires
            num > 0,
            den > 0,
            px > 0,
            py > 0,
            p > 0,
            p2 > 0,
            b == den * p,
            b2 == den * py * p2,
    ;
    assert(a2 * b == a * b2) by {
        assert(num * px * n2 * (den * p) == num * den * (px * n2 * p)) by (nonlinear_arith);
        assert(num * n * (den * py * p2) == num * den * (n * py * p2)) by (nonlinear_arith);
    }
    // The scaled ratio stays in [1, 2), so its exponent is k2.
    assert(b2 <= a2 < 2 * b2) by (nonlinear_arith)
        requires
            a2 * b == a * b2,
            b <= a < 2 * b,
            b > 0,
            b2 > 0,
    ;
    lemma_exponent(num * px, den * py);
    lemma_log_unique(num * px, den * py, exponent(num * px, den * py), k2);
    let t = pow2(52);
    assert(a2 * t * b == a * t * b2) by (nonlinear_arith)
        requires
            a2 * b == a * b2,
    ;
    lemma_half_even_ratio(a2 * t, b2, a * t, b);
}

/// A ratio of at least `2^lo` and less than `2^hi` has its exponent in `[lo, hi)`.
proof fn lemma_exponent_range(num: nat, den: nat, lo: int, hi: int)
    requires
        num > 0,
        den > 0,
        den * pow2(up(lo)) <= num * pow2(down(lo)),
        num * pow2(down(hi)) < den * pow2(up(hi)),
    ensures
        lo <= exponent(num, den) < hi,
{
    let k = exponent(num, den);
    lemma_exponent(num, den);
    lemma_pow2_pos(up(k));
    lemma_pow2_pos(down(k));
    let (pk, nk) = (pow2(up(k)), pow2(down(k)));
    if k < lo {
        lemma_pow2_pos(up(lo));
        lemma_pow2_pos(down(lo));
        let (p, n) = (pow2(up(lo)), pow2(down(lo)));
        // 2^lo * den <= num < 2^(k+1) * den
        lemma_pow2_adds(up(lo), down(k));
        lemma_pow2_adds(up(k), down(lo));
        lemma_pow2_unfold((up(k) + down(lo) + 1) as nat);
        if up(k) + down(lo) + 1 < up(lo) + down(k) {
            lemma_pow2_strictly_increases((up(k) + down(lo) + 1) as nat, up(lo) + down(k));
        }
        assert(2 * (pk * n) <= p * nk);
        assert(den * p * nk <= num * n * nk) by (nonlinear_arith)
            requires
                den * p <= num * n,
        ;
        assert(num * nk * n < 2 * (den * pk) * n) by (nonlinear_arith)
            requires
                num * nk < 2 * (den * pk),
                n > 0,
        ;
        assert(den * (p * nk) >= den * (2 * (pk * n))) by (nonlinear_arith)
            requires
                2 * (pk * n) <= p * nk,
        ;
        assert(den * p * nk == den * (p * nk)) by (nonlinear_arith);
        assert(num * nk * n == num * n * nk) by (nonlinear_arith);
        assert(2 * (den * pk) * n == den * (2 * (pk * n))) by (nonlinear_arith);
    }
    if k >= hi {
        lemma_pow2_pos(up(hi));
        lemma_pow2_pos(down(hi));
        let (p, n) = (pow2(up(hi)), pow2(down(hi)));
        // 2^k * den <= num < 2^hi * den
        lemma_pow2_adds(up(hi), down(k));
        lemma_pow2_adds(up(k), down(hi));
        if up(hi) + down(k) < up(k) + down(hi) {
            lemma_pow2_strictly_increases(up(hi) + down(k), up(k) + down(hi));
        }
        assert(p * nk <= pk * n);
        assert(num * n * nk < den * p * nk) by (nonlinear_arith)
            requires
                num * n < den * p,
                nk > 0,
        ;
        assert(den * pk * n <= num * nk * n) by (nonlinear_arith)
            requires
                den * pk <= num * nk,
        ;
        assert(den * (p * nk) <= den * (pk * n)) by (nonlinear_arith)
            requires
                p * nk <= pk * n,
        ;
        assert(den * p * nk == den * (p * nk)) by (nonlinear_arith);
        assert(den * pk * n == den * (pk * n)) by (nonlinear_arith);
        assert(num * nk * n == num * n * nk) by (nonlinear_arith);
    }
}

/// `2^e`.
fn power_of_two(e: u32) -> (r: u128)
    requires
        e < 128,
    ensures
        r == pow2(e as nat),
{
    let mut r: u128 = 1;
    let mut i: u32 = 0;
    proof {
        lemma2_to64();
    }
    while i < e
        invariant
            i <= e < 128,
            r == pow2(i as nat),
        decreases e - i,
    {
        proof {
            lemma_pow2_unfold((i + 1) as nat);
            lemma_pow2_127();
            if i + 1 < 127 {
                lemma_pow2_strictly_increases((i + 1) as nat, 127);
            }
        }
        r = 2 * r;
        i = i + 1;
    }
    r
}

proof fn lemma_pow2_127()
    ensures
        pow2(120) == 0x1_0000_0000_0000_0000_0000_0000_0000_00,
        pow2(127) == 0x8000_0000_0000_0000_0000_0000_0000_0000,
{
    lemma2_to64();
    lemma2_to64_rest();
    lemma_pow2_adds(60, 60);
    lemma_pow2_adds(63, 64);
}

/// Rounds `num / den * 2^scale` to the nearest binary64 value.
fn round_ratio(num: u128, den: u128, scale: i32) -> (r: Binary64)
    requires
        0 < num < 0x1_0000_0000_0000_0000_0000_0000_0000_00,
        0 < den < 0x1_0000_0000_0000_0000_0000_0000_0000_00,
        -5000 <= scale <= 5000,
    ensures
        (r.mant as nat, r.exp as int) == (
            nearest(num as nat, den as nat).0,
            nearest(num as nat, den as nat).1 + scale,
        ),
        MANT_MIN <= r.mant < MANT_END,
{
    let mut n: u128 = num;
    let mut d: u128 = den;
    let mut k: i32 = 0;
    proof {
        lemma2_to64();
        lemma_pow2_127();
        assert(den * pow2(0) == den && num * pow2(0) == num) by (nonlinear_arith)
            requires
                pow2(0) == 1,
        ;
    }
    // At most one of the two loops runs; either scales the ratio into [1, 2).
    while n >= 2 * d
        invariant
            0 <= k <= 120,
            n == num,
            0 < den <= d <= 0x1_0000_0000_0000_0000_0000_0000_0000_00,
            0 < num < 0x1_0000_0000_0000_0000_0000_0000_0000_00,
            d == den * pow2(k as nat),
            k > 0 ==> n >= d,
        decreases n - d,
    {
        proof {
            lemma_pow2_unfold((k + 1) as nat);
            lemma_pow2_127();
            let p = pow2(k as nat);
            assert(2 * (den * p) == den * (2 * p)) by (nonlinear_arith);
            assert(p <= den * p) by (nonlinear_arith)
                requires
                    den >= 1,
            ;
            if k >= 120 {
                if k > 120 {
                    lemma_pow2_strictly_increases(120, k as nat);
                }
            }
        }
        d = 2 * d;
        k = k + 1;
    }
    while n < d
        invariant
            -121 <= k <= 120,
            n == num * pow2(down(k as int)),
            d == den * pow2(up(k as int)),
            n < 2 * d,
            0 < num <= n,
            0 < d <= 0x1_0000_0000_0000_0000_0000_0000_0000_00,
            k > 0 ==> n >= d,
        decreases 2 * d - n,
    {
        proof {
            lemma_pow2_unfold((1 - k) as nat);
            lemma_pow2_127();
            let p = pow2(down(k as int));
            assert(2 * (num * p) == num * (2 * p)) by (nonlinear_arith);
            assert(p <= num * p) by (nonlinear_arith)
                requires
                    num >= 1,
            ;
            if k <= -120 {
                if k < -120 {
                    lemma_pow2_strictly_increases(120, down(k as int));
                }
            }
        }
        n = 2 * n;
        k = k - 1;
    }
    let mut q: u64 = 1;
    let mut r: u128 = n - d;
    let mut i: u32 = 0;
    proof {
        assert(n * pow2(0) == 1 * d + r) by (nonlinear_arith)
            requires
                pow2(0) == 1,
                r == n - d,
        ;
    }
    while i < 52
        invariant
            i <= 52,
            0 <= r < d <= 0x1_0000_0000_0000_0000_0000_0000_0000_00,
            pow2(i as nat) <= q < 2 * pow2(i as nat),
            n * pow2(i as nat) == q * d + r,
        decreases 52 - i,
    {
        let ghost (q0, r0) = (q, r);
        proof {
            lemma_pow2_unfold((i + 1) as nat);
            lemma2_to64_rest();
            if i < 52 {
                lemma_pow2_strictly_increases(i as nat, 52);
            }
        }
        r = 2 * r;
        q = 2 * q;
        if r >= d {
            r = r - d;
            q = q + 1;
        }
        proof {
            let p = pow2(i as nat);
            assert(n * (2 * p) == 2 * (n * p)) by (nonlinear_arith);
            assert((2 * q0) * d == 2 * (q0 * d) && (2 * q0 + 1) * d == 2 * (q0 * d) + d) by (nonlinear_arith);
        }
        i = i + 1;
    }
    proof {
        lemma2_to64_rest();
        lemma_exponent(num as nat, den as nat);
        lemma_log_unique(num as nat, den as nat, exponent(num as nat, den as nat), k as int);
        lemma_fundamental_div_mod_converse(n * pow2(52), d as int, q as int, r as int);
    }
    if 2 * r < d || (2 * r == d && q % 2 == 0) {
        Binary64 { mant: q, exp: k - 52 + scale }
    } else if q + 1 == MANT_END {
        Binary64 { mant: MANT_MIN, exp: k - 51 + scale }
    } else {
        Binary64 { mant: q + 1, exp: k - 52 + scale }
    }
}

/// `10^n`.
pub open spec fn pow10(n: nat) -> nat
    decreases n,
{
    if n == 0 {
        1
    } else {
        10 * pow10((n - 1) as nat)
    }
}

/// `num / den` rounded to an integer, ties away from zero.
pub open spec fn half_up(num: nat, den: nat) -> nat {
    (2 * num + den) / (2 * den)
}

impl Binary64 {
    /// The exponent of the leading bit.
    pub open spec fn log(self) -> int {
        self.exp + 52
    }

    /// Whether the value is a multiple of `2^-g`.
    pub open spec fn in_grains(self, g: nat) -> bool {
        self.exp >= -g || self.mant as nat % pow2((-g - self.exp) as nat) == 0
    }

    /// Whether the value of `self` is less than that of `other`.
    pub open spec fn less(self, other: Self) -> bool {
        self.num() * other.den() < other.num() * self.den()
    }

    /// The value rounded to a `u64`: ties away from zero, saturating.
    pub open spec fn rounded(self) -> u64 {
        let v = half_up(self.num(), self.den());
        if v > u64::MAX {
            u64::MAX
        } else {
            v as u64
        }
    }

    /// The integer part of the value, saturating.
    pub open spec fn truncated(self) -> u64 {
        let v = self.num() / self.den();
        if v > u64::MAX {
            u64::MAX
        } else {
            v as u64
        }
    }

    /// The value in units of `10^-places`, rounded half to even.
    pub open spec fn in_units(self, places: nat) -> nat {
        half_even(self.num() * pow10(places), self.den())
    }

    /// The value in decimal with a fixed number of places.
    pub open spec fn fixed(self, places: nat) -> Seq<char> {
        let v = self.in_units(places);
        text::decimal(v / pow10(places)) + seq!['.'] + text::fixed_width(v % pow10(places), places)
    }

    /// The binary64 number nearest to the fraction `num / den`.
    pub fn ratio(num: u64, den: u64) -> (r: Self)
        requires
            den > 0,
        ensures
            r == rounded_ratio(num as nat, den as nat),
            r.wf(),
            r.mant == 0 <==> num == 0,
            num > 0 ==> -64 <= r.log() <= 64,
            num >= den > 0 ==> r.log() >= 0,
    {
        if num == 0 {
            return Binary64 { mant: 0, exp: 0 };
        }
        proof {
            lemma2_to64();
            assert(den * pow2(0) <= num * pow2(64)) by (nonlinear_arith)
                requires
                    den < 0x1_0000_0000_0000_0000,
                    num >= 1,
                    pow2(0) == 1,
                    pow2(64) == 0x1_0000_0000_0000_0000,
            ;
            assert(num * pow2(0) < den * pow2(64)) by (nonlinear_arith)
                requires
                    num < 0x1_0000_0000_0000_0000,
                    den >= 1,
                    pow2(0) == 1,
                    pow2(64) == 0x1_0000_0000_0000_0000,
            ;
            lemma_exponent_range(num as nat, den as nat, -64, 64);
            if num >= den {
                assert(den * pow2(0) <= num * pow2(0)) by (nonlinear_arith)
                    requires
                        den <= num,
                ;
                lemma_exponent_range(num as nat, den as nat, 0, 64);
            }
        }
        round_ratio(num as u128, den as u128, 0)
    }

    /// The binary64 number nearest to an integer.
    pub fn from_u64(v: u64) -> (r: Self)
        ensures
            r == rounded_ratio(v as nat, 1),
            r.wf(),
            r.mant == 0 <==> v == 0,
            v > 0 ==> 0 <= r.log() <= 64,
    {
        Self::ratio(v, 1)
    }

    /// The product, rounded.
    pub fn times(self, other: Self) -> (r: Self)
        requires
            self.wf(),
            other.wf(),
            self.mant != 0 && other.mant != 0 ==> -1100 <= self.log() + other.log() <= 1100,
        ensures
            r == product(self, other),
            r.wf(),
            r.mant == 0 <==> self.mant == 0 || other.mant == 0,
            r.mant != 0 ==> self.log() + other.log() <= r.log() <= self.log() + other.log() + 2,
    {
        if self.mant == 0 || other.mant == 0 {
            proof {
                let (a, b) = (self.mant as nat, other.mant as nat);
                let (p, q) = (pow2(up(self.exp as int)), pow2(up(other.exp as int)));
                assert((a * p) * (b * q) == 0) by (nonlinear_arith)
                    requires
                        a == 0 || b == 0,
                ;
            }
            return Binary64 { mant: 0, exp: 0 };
        }
        assert(self.mant * other.mant < 0x40_0000_0000_0000 * 0x40_0000_0000_0000) by (nonlinear_arith)
            requires
                self.mant < 0x40_0000_0000_0000,
                other.mant < 0x40_0000_0000_0000,
        ;
        let m: u128 = self.mant as u128 * other.mant as u128;
        proof {
            let (a, b) = (self.mant as nat, other.mant as nat);
            let (x1, x2) = (up(self.exp as int), up(other.exp as int));
            let (y1, y2) = (down(self.exp as int), down(other.exp as int));
            lemma2_to64_rest();
            lemma2_to64();
            lemma_pow2_adds(52, 52);
            lemma_pow2_adds(53, 53);
            lemma_pow2_127();
            lemma_pow2_strictly_increases(106, 120);
            assert(pow2(52) * pow2(52) <= a * b < pow2(53) * pow2(53)) by (nonlinear_arith)
                requires
                    pow2(52) <= a < pow2(53),
                    pow2(52) <= b < pow2(53),
            ;
            lemma_pow2_adds(x1, x2);
            lemma_pow2_adds(y1, y2);
            let (p1, p2) = (pow2(x1), pow2(x2));
            assert((a * p1) * (b * p2) == (a * b) * (p1 * p2)) by (nonlinear_arith);
            assert(1 * pow2(y1 + y2) == pow2(y1 + y2));
            assert(a * b > 0);
            lemma_nearest_scale(a * b, 1, x1 + x2, y1 + y2);
            assert((a * b) * pow2(0) == a * b) by (nonlinear_arith)
                requires
                    pow2(0) == 1,
            ;
            lemma_exponent_range(a * b, 1, 104, 106);
        }
        round_ratio(m, 1, self.exp + other.exp)
    }

    /// The quotient, rounded.
    pub fn over(self, other: Self) -> (r: Self)
        requires
            self.wf(),
            other.wf(),
            other.mant != 0,
            self.mant != 0 ==> -1100 <= self.log() - other.log() <= 1100,
        ensures
            r == quotient(self, other),
            r.wf(),
            r.mant == 0 <==> self.mant == 0,
            r.mant != 0 ==> self.log() - other.log() - 1 <= r.log() <= self.log() - other.log() + 1,
    {
        if self.mant == 0 {
            proof {
                let (a, p, q) = (self.mant as nat, pow2(up(self.exp as int)), other.den());
                assert((a * p) * q == 0) by (nonlinear_arith)
                    requires
                        a == 0,
                ;
            }
            return Binary64 { mant: 0, exp: 0 };
        }
        proof {
            let (a, b) = (self.mant as nat, other.mant as nat);
            let (x1, x2) = (up(self.exp as int), up(other.exp as int));
            let (y1, y2) = (down(self.exp as int), down(other.exp as int));
            lemma2_to64();
            lemma_pow2_adds(x1, y2);
            lemma_pow2_adds(y1, x2);
            let (p1, q2, q1, p2) = (pow2(x1), pow2(y2), pow2(y1), pow2(x2));
            assert((a * p1) * q2 == a * (p1 * q2)) by (nonlinear_arith);
            assert(q1 * (b * p2) == b * (q1 * p2)) by (nonlinear_arith);
            lemma_nearest_scale(a, b, x1 + y2, y1 + x2);
            assert(b * pow2(0) <= a * pow2(1) && a * pow2(0) < b * pow2(1)) by (nonlinear_arith)
                requires
                    pow2(0) == 1,
                    pow2(1) == 2,
                    MANT_MIN <= a < 2 * MANT_MIN,
                    MANT_MIN <= b < 2 * MANT_MIN,
            ;
            lemma_exponent_range(a, b, -1, 1);
        }
        round_ratio(self.mant as u128, other.mant as u128, self.exp - other.exp)
    }

    /// The sum, rounded.
    pub fn plus(self, other: Self) -> (r: Self)
        requires
            self.finite(),
            other.finite(),
        ensures
            r == sum(self, other),
            r.wf(),
            r.mant == 0 <==> self.mant == 0 && other.mant == 0,
            self.mant != 0 ==> self.log() <= r.log(),
            other.mant != 0 ==> other.log() <= r.log(),
            r.mant != 0 ==> r.log() <= self.log() + 2 || r.log() <= other.log() + 2,
            other.mant == 0 ==> r == self,
            self.mant != 0 && other.mant != 0 && self.exp - other.exp > 60 ==> r == self,
            keeps_grains(self, other, r),
    {
        proof {
            assert forall|g: nat| #[trigger] self.in_grains(g) && self.wf() && self.mant != 0 implies self.log()
                >= -g by {
                self.lemma_grain_log(g);
            }
            assert forall|g: nat| #[trigger] other.in_grains(g) && other.wf() && other.mant != 0 implies other.log()
                >= -g by {
                other.lemma_grain_log(g);
            }
        }
        if self.mant == 0 {
            proof {
                lemma_zero_sum(self, other);
            }
            return other;
        }
        if other.mant == 0 {
            proof {
                lemma_zero_sum(other, self);
                lemma_sum_commutes(self, other);
            }
            return self;
        }
        if self.exp >= other.exp {
            self.plus_lower(other)
        } else {
            proof {
                lemma_sum_commutes(self, other);
            }
            other.plus_lower(self)
        }
    }

    /// The sum of two positive numbers, the second with the lower exponent.
    fn plus_lower(self, other: Self) -> (r: Self)
        requires
            self.finite(),
            other.finite(),
            self.mant != 0,
            other.mant != 0,
            self.exp >= other.exp,
        ensures
            is_nearest(r, sum_num(self, other), self.den() * other.den()),
            r.wf(),
            r.mant != 0,
            self.log() <= r.log() <= self.log() + 2,
            self.exp - other.exp > 60 ==> r == self,
            keeps_grains(self, other, r),
    {
        let d: i32 = self.exp - other.exp;
        let ghost (a, b) = (self.mant as nat, other.mant as nat);
        let ghost (x1, x2) = (up(self.exp as int), up(other.exp as int));
        let ghost (y1, y2) = (down(self.exp as int), down(other.exp as int));
        let ghost p = pow2(d as nat);
        proof {
            lemma2_to64();
            lemma2_to64_rest();
            lemma_pow2_pos(d as nat);
            lemma_pow2_adds(x1, y2);
            lemma_pow2_adds(x2, y1);
            lemma_pow2_adds(y1, y2);
            lemma_pow2_adds(d as nat, x2 + y1);
            let (p1, q2, p2, q1) = (pow2(x1), pow2(y2), pow2(x2), pow2(y1));
            let t = pow2(x2 + y1);
            assert(p1 * q2 == p * t);
            assert((a * p1) * q2 + (b * p2) * q1 == (a * p + b) * t) by (nonlinear_arith)
                requires
                    p1 * q2 == p * t,
                    p2 * q1 == t,
            ;
            assert(a * p > 0) by (nonlinear_arith)
                requires
                    a > 0,
                    p > 0,
            ;
            lemma_nearest_scale(a * p + b, 1, x2 + y1, y1 + y2);
        }
        if d <= 60 {
            let w: u128 = power_of_two(d as u32);
            proof {
                lemma_pow2_127();
                lemma_pow2_adds(53, 60);
                lemma_pow2_strictly_increases(114, 120);
                lemma_pow2_unfold(114);
                if d < 60 {
                    lemma_pow2_strictly_increases(d as nat, 60);
                }
                assert(a * p <= pow2(53) * pow2(60)) by (nonlinear_arith)
                    requires
                        a <= pow2(53),
                        p <= pow2(60),
                ;
                assert(a * w == a * p);
                lemma_pow2_adds(52, d as nat);
                lemma_pow2_adds(54, d as nat);
                assert(pow2(52) * p <= a * p && a * p + b < pow2(54) * p) by (nonlinear_arith)
                    requires
                        pow2(52) <= a < pow2(53),
                        b < pow2(53),
                        pow2(54) == 2 * pow2(53),
                        p >= 1,
                ;
                lemma_exponent_range(a * p + b, 1, 52 + d, 54 + d);
            }
            let r: Binary64 = round_ratio(self.mant as u128 * w + other.mant as u128, 1, other.exp);
            proof {
                assert forall|g: nat| self.in_grains(g) && other.in_grains(g) implies #[trigger] r.in_grains(g)
                    && r.log() >= -g by {
                    if other.exp < -g {
                        let (u, v) = lemma_common_grain(self, other, g);
                        let t = pow2((-g - other.exp) as nat);
                        assert(a * p + b == (u + v) * t) by (nonlinear_arith)
                            requires
                                a * p == u * t,
                                b == v * t,
                        ;
                        lemma_mod_multiples_basic((u + v) as int, t as int);
                    }
                    lemma_rounding_in_grains(r, a * p + b, other.exp as int, g);
                }
            }
            r
        } else {
            proof {
                assert forall|g: nat| #[trigger] self.in_grains(g) implies self.log() >= -g by {
                    self.lemma_grain_log(g);
                }
                // The smaller summand is below half a unit of the larger one.
                if d > 61 {
                    lemma_pow2_strictly_increases(61, d as nat);
                }
                lemma_pow2_strictly_increases(53, 60);
                lemma_pow2_unfold(61);
                assert(2 * b < p);
                lemma_pow2_adds(52, d as nat);
                lemma_pow2_adds(53, d as nat);
                assert(pow2(52) * p <= a * p && a * p + b < pow2(53) * p) by (nonlinear_arith)
                    requires
                        pow2(52) <= a < pow2(53),
                        b < p,
                ;
                lemma_exponent_range(a * p + b, 1, 52 + d, 53 + d);
                lemma_fundamental_div_mod_converse((a * p + b) as int, p as int, a as int, b as int);
                let big = pow2(52) * p;
                assert(big > 0);
                assert((a * p + b) * 1 * pow2(52) * p == (a * p + b) * big) by (nonlinear_arith)
                    requires
                        big == pow2(52) * p,
                ;
                lemma_half_even_ratio(
                    (a * p + b) * pow2(0) * pow2(52),
                    1 * pow2((52 + d) as nat),
                    a * p + b,
                    p,
                );
            }
            self
        }
    }

    /// The difference to a number that is not greater, rounded.
    pub fn minus(self, other: Self) -> (r: Self)
        requires
            self.finite(),
            other.finite(),
            !self.less(other),
        ensures
            r == difference(self, other),
            r.wf(),
            r.mant == 0 <==> !other.less(self),
            r.mant != 0 ==> r.log() <= self.log(),
            other.mant == 0 ==> r == self,
            keeps_grains(self, other, r),
    {
        proof {
            lemma_less(self, other);
            lemma_less(other, self);
            assert forall|g: nat| #[trigger] self.in_grains(g) && self.mant != 0 implies self.log() >= -g by {
                self.lemma_grain_log(g);
            }
        }
        if other.mant == 0 {
            proof {
                let (n, d) = (self.num(), self.den());
                let (z, q) = (other.num(), other.den());
                lemma2_to64();
                assert(other.num() == 0) by (nonlinear_arith)
                    requires
                        other.num() == other.mant * pow2(up(other.exp as int)),
                        other.mant == 0,
                ;
                assert(q == 1);
                assert(n * q - z * d == n && d * q == d) by (nonlinear_arith)
                    requires
                        q == 1,
                        z == 0,
                ;
                lemma_exact(self);
            }
            return self;
        }
        let d: i32 = self.exp - other.exp;
        let ghost (a, b) = (self.mant as nat, other.mant as nat);
        let ghost p = pow2(d as nat);
        if d > 66 {
            proof {
                lemma_far_difference(self, other);
            }
            return self;
        }
        let w: u128 = power_of_two(d as u32);
        proof {
            let (x1, x2) = (up(self.exp as int), up(other.exp as int));
            let (y1, y2) = (down(self.exp as int), down(other.exp as int));
            lemma2_to64();
            lemma2_to64_rest();
            lemma_pow2_127();
            lemma_pow2_pos(d as nat);
            lemma_pow2_adds(x1, y2);
            lemma_pow2_adds(x2, y1);
            lemma_pow2_adds(y1, y2);
            lemma_pow2_adds(d as nat, x2 + y1);
            lemma_pow2_adds(53, d as nat);
            lemma_pow2_strictly_increases((53 + d) as nat, 120);
            let (p1, q2, p2, q1) = (pow2(x1), pow2(y2), pow2(x2), pow2(y1));
            let t = pow2(x2 + y1);
            assert(p1 * q2 == p * t);
            assert((a * p1) * q2 - (b * p2) * q1 == (a * p - b) * t) by (nonlinear_arith)
                requires
                    p1 * q2 == p * t,
                    p2 * q1 == t,
            ;
            if d > 0 {
                lemma_pow2_unfold(d as nat);
                lemma_pow2_pos((d - 1) as nat);
            }
            assert(b <= a * p) by (nonlinear_arith)
                requires
                    MANT_MIN <= a,
                    b < 2 * MANT_MIN,
                    p >= 2 || (p == 1 && a >= b),
            ;
            assert(a * p < pow2(53) * p) by (nonlinear_arith)
                requires
                    a < pow2(53),
                    p >= 1,
            ;
            let diff = (a * p - b) as nat;
            if diff == 0 {
                assert((a * p - b) * t == 0) by (nonlinear_arith)
                    requires
                        a * p - b == 0,
                ;
            } else {
                lemma_nearest_scale(diff, 1, x2 + y1, y1 + y2);
                lemma_nearest_normalized(diff, 1);
                assert(diff * pow2(0) == diff) by (nonlinear_arith)
                    requires
                        pow2(0) == 1,
                ;
                lemma_exponent_range(diff, 1, 0, 53 + d);
            }
        }
        let diff: u128 = self.mant as u128 * w - other.mant as u128;
        if diff == 0 {
            let zero: Binary64 = Binary64 { mant: 0, exp: 0 };
            assert forall|g: nat| #[trigger] zero.in_grains(g) by {
                assert(0 >= -g);
            }
            return zero;
        }
        let r: Binary64 = round_ratio(diff, 1, other.exp);
        proof {
            let (n1, d1, n2, d2) = (self.num(), self.den(), other.num(), other.den());
            lemma_pow2_pos(down(self.exp as int));
            lemma_pow2_pos(down(other.exp as int));
            assert((n1 * d2 - n2 * d1) * d1 <= n1 * (d1 * d2) && d1 * d2 > 0) by (nonlinear_arith)
                requires
                    n2 >= 0,
                    d1 > 0,
                    d2 > 0,
            ;
            assert(r == difference(self, other));
            lemma_rounding_keeps_bound(self, (n1 * d2 - n2 * d1) as nat, d1 * d2);
            lemma_less(self, r);
            let whole = (a * p - b) as nat;
            assert forall|g: nat| self.in_grains(g) && other.in_grains(g) implies #[trigger] r.in_grains(g)
                && r.log() >= -g by {
                if other.exp < -g {
                    let (u, v) = lemma_common_grain(self, other, g);
                    let t = pow2((-g - other.exp) as nat);
                    assert(whole == (u - v) * t) by (nonlinear_arith)
                        requires
                            whole == a * p - b,
                            a * p == u * t,
                            b == v * t,
                    ;
                    lemma_mod_multiples_basic(u - v, t as int);
                }
                lemma_rounding_in_grains(r, whole, other.exp as int, g);
            }
            assert(keeps_grains(self, other, r));
        }
        r
    }

    /// The smaller of the two values.
    pub fn min(self, other: Self) -> (r: Self)
        requires
            self.wf(),
            other.wf(),
        ensures
            r == smaller(self, other),
            r.wf(),
    {
        if other.lt(self) {
            other
        } else {
            self
        }
    }

    /// The integer part of the value, capped at `u64::MAX`.
    pub fn trunc_to_u64(self) -> (r: u64)
        requires
            self.wf(),
        ensures
            r == self.truncated(),
    {
        let ghost m = self.mant as nat;
        proof {
            lemma2_to64();
            lemma2_to64_rest();
            lemma_pow2_pos(up(self.exp as int));
        }
        if self.exp >= 0 {
            let ghost p = pow2(self.exp as nat);
            proof {
                let v = m * p;
                assert(v / 1 == v);
            }
            if self.exp >= 12 {
                proof {
                    if self.exp > 12 {
                        lemma_pow2_strictly_increases(12, self.exp as nat);
                    }
                    assert(m == 0 || m * p > u64::MAX) by (nonlinear_arith)
                        requires
                            m == 0 || m >= MANT_MIN,
                            p >= 0x1000,
                    ;
                }
                u64::MAX
            } else {
                let w: u128 = power_of_two(self.exp as u32);
                proof {
                    lemma_pow2_strictly_increases(self.exp as nat, 12);
                    assert(m * p < MANT_END * 0x1000) by (nonlinear_arith)
                        requires
                            m < MANT_END,
                            p < 0x1000,
                    ;
                }
                let v: u128 = self.mant as u128 * w;
                if v > u64::MAX as u128 {
                    u64::MAX
                } else {
                    v as u64
                }
            }
        } else {
            let s: i32 = -self.exp;
            let ghost d = pow2(s as nat);
            proof {
                lemma_pow2_pos(s as nat);
                assert(m * pow2(0) == m) by (nonlinear_arith)
                    requires
                        pow2(0) == 1,
                ;
            }
            if s >= 54 {
                proof {
                    if s > 54 {
                        lemma_pow2_strictly_increases(54, s as nat);
                    }
                    lemma_basic_div(m as int, d as int);
                }
                0
            } else {
                let w: u128 = power_of_two(s as u32);
                proof {
                    assert(m as int / d as int <= m) by (nonlinear_arith)
                        requires
                            d >= 1,
                            m >= 0,
                    ;
                }
                (self.mant as u128 / w) as u64
            }
        }
    }

    /// Whether this value is less than the other.
    pub fn lt(self, other: Self) -> (r: bool)
        requires
            self.wf(),
            other.wf(),
        ensures
            r == self.less(other),
    {
        proof {
            lemma_less(self, other);
        }
        if self.mant == 0 {
            other.mant != 0
        } else if other.mant == 0 {
            false
        } else if self.exp == other.exp {
            self.mant < other.mant
        } else {
            self.exp < other.exp
        }
    }

    /// The value rounded to the nearest integer, ties away from zero, capped at `u64::MAX`.
    pub fn round_to_u64(self) -> (r: u64)
        requires
            self.wf(),
        ensures
            r == self.rounded(),
    {
        let ghost m = self.mant as nat;
        proof {
            lemma2_to64();
            lemma2_to64_rest();
            lemma_pow2_pos(up(self.exp as int));
        }
        if self.exp >= 0 {
            let ghost p = pow2(self.exp as nat);
            proof {
                // An integer value is its own rounding.
                let v = m * p;
                assert(half_up(v, 1) == v) by (nonlinear_arith)
                    requires
                        half_up(v, 1) == (2 * v + 1) / 2,
                ;
            }
            if self.exp >= 12 {
                proof {
                    if self.exp > 12 {
                        lemma_pow2_strictly_increases(12, self.exp as nat);
                    }
                    assert(m == 0 || m * p > u64::MAX) by (nonlinear_arith)
                        requires
                            m == 0 || m >= MANT_MIN,
                            p >= 0x1000,
                    ;
                }
                u64::MAX
            } else {
                let w: u128 = power_of_two(self.exp as u32);
                proof {
                    lemma_pow2_strictly_increases(self.exp as nat, 12);
                    assert(m * p < MANT_END * 0x1000) by (nonlinear_arith)
                        requires
                            m < MANT_END,
                            p < 0x1000,
                    ;
                }
                let v: u128 = self.mant as u128 * w;
                if v > u64::MAX as u128 {
                    u64::MAX
                } else {
                    v as u64
                }
            }
        } else {
            let s: i32 = -self.exp;
            let ghost d = pow2(s as nat);
            proof {
                lemma_pow2_pos(s as nat);
                assert(m * pow2(0) == m) by (nonlinear_arith)
                    requires
                        pow2(0) == 1,
                ;
            }
            if s >= 54 {
                proof {
                    if s > 54 {
                        lemma_pow2_strictly_increases(54, s as nat);
                    }
                    lemma_basic_div((2 * m + d) as int, (2 * d) as int);
                }
                0
            } else {
                let w: u128 = power_of_two(s as u32);
                proof {
                    lemma_pow2_strictly_increases(s as nat, 54);
                    lemma_div_is_ordered((2 * m + d) as int, (2 * MANT_END + d) as int, (2 * d) as int);
                    assert((2 * MANT_END + d) / (2 * d) as int <= MANT_END + 1) by (nonlinear_arith)
                        requires
                            d >= 1,
                    ;
                }
                ((2 * self.mant as u128 + w) / (2 * w)) as u64
            }
        }
    }

    /// The value, less than one unit of the mantissa, in units of `10^-places`.
    fn to_units(self, places: u32) -> (r: u128)
        requires
            self.wf(),
            self.exp < 0,
            1 <= places <= 3,
        ensures
            r == self.in_units(places as nat),
    {
        let ten: u128 = power_of_ten(places);
        let ghost m = self.mant as nat;
        let s: i32 = -self.exp;
        let ghost d = pow2(s as nat);
        proof {
            lemma2_to64();
            lemma2_to64_rest();
            lemma_pow2_pos(s as nat);
            assert(m * pow2(0) == m) by (nonlinear_arith)
                requires
                    pow2(0) == 1,
            ;
            assert(m * ten < pow2(63)) by (nonlinear_arith)
                requires
                    m < MANT_END,
                    ten <= 1000,
                    pow2(63) == 0x8000_0000_0000_0000,
            ;
        }
        let v: u128 = self.mant as u128 * ten;
        if s >= 64 {
            proof {
                if s > 64 {
                    lemma_pow2_strictly_increases(64, s as nat);
                }
                lemma_small_mod(v as nat, d);
                lemma_basic_div(v as int, d as int);
            }
            0
        } else {
            let w: u128 = power_of_two(s as u32);
            proof {
                lemma_pow2_strictly_increases(s as nat, 64);
            }
            let q: u128 = v / w;
            let r: u128 = v % w;
            if 2 * r < w || (2 * r == w && q % 2 == 0) {
                q
            } else {
                q + 1
            }
        }
    }

    /// Appends the value in decimal with a fixed number of places.
    pub fn push_fixed(self, out: &mut String, places: u32)
        requires
            self.wf(),
            1 <= places <= 3,
            self.log() <= 127,
        ensures
            final(out)@ == old(out)@ + self.fixed(places as nat),
    {
        let ten: u128 = power_of_ten(places);
        let whole: u128;
        let part: u128;
        if self.exp >= 0 {
            let w: u128 = power_of_two(self.exp as u32);
            let ghost (m, p) = (self.mant as nat, pow2(self.exp as nat));
            proof {
                lemma2_to64();
                lemma2_to64_rest();
                lemma_pow2_pos(self.exp as nat);
                lemma_pow2_adds(53, self.exp as nat);
                lemma_pow2_127();
                lemma_pow2_unfold(128);
                if self.exp < 75 {
                    lemma_pow2_strictly_increases((53 + self.exp) as nat, 128);
                }
                assert(m * p < pow2(128)) by (nonlinear_arith)
                    requires
                        m < pow2(53),
                        p >= 1,
                        pow2(53) * p <= pow2(128),
                ;
                let v = m * p * ten;
                assert(v / 1 == v && v % 1 == 0);
                lemma_div_by_multiple((m * p) as int, ten as int);
                lemma_mod_multiples_basic((m * p) as int, ten as int);
            }
            whole = self.mant as u128 * w;
            part = 0;
        } else {
            let v: u128 = self.to_units(places);
            whole = v / ten;
            part = v % ten;
        }
        text::push_decimal(out, whole);
        proof {
            reveal_strlit(".");
        }
        out.append(".");
        text::push_fixed_width(out, part, places);
        proof {
            assert("."@ =~= seq!['.']);
            assert(out@ =~= old(out)@ + self.fixed(places as nat));
        }
    }
}

/// `10^n`.
fn power_of_ten(n: u32) -> (r: u128)
    requires
        1 <= n <= 3,
    ensures
        r == pow10(n as nat),
        10 <= r <= 1000,
{
    proof {
        reveal_with_fuel(pow10, 4);
    }
    if n == 1 {
        10
    } else if n == 2 {
        100
    } else {
        1000
    }
}

/// Whether a result is a multiple of each `2^-g` that both operands are multiples of, and so zero or not
/// below it.
pub open spec fn keeps_grains(a: Binary64, b: Binary64, r: Binary64) -> bool {
    forall|g: nat|
        a.in_grains(g) && b.in_grains(g) ==> #[trigger] r.in_grains(g) && (r.mant != 0 ==> r.log() >= -g)
}

/// The numerator of a sum, over the product of the denominators.
pub open spec fn sum_num(a: Binary64, b: Binary64) -> nat {
    a.num() * b.den() + b.num() * a.den()
}

proof fn lemma_exp_order(a: nat, u: nat, i: nat, b: nat, v: nat, j: nat)
    requires
        a < MANT_END,
        b >= MANT_MIN,
        u == pow2(i),
        v == pow2(j),
        i < j,
    ensures
        a * u < b * v,
{
    lemma_pow2_pos(i);
    lemma_pow2_unfold(i + 1);
    if i + 1 < j {
        lemma_pow2_strictly_increases(i + 1, j);
    }
    assert(a * u < b * v) by (nonlinear_arith)
        requires
            a < 2 * MANT_MIN,
            b >= MANT_MIN,
            v >= 2 * u,
            u > 0,
    ;
}

/// The order of normalized numbers is that of their exponents, then of their mantissas.
pub proof fn lemma_less(x: Binary64, y: Binary64)
    requires
        x.wf(),
        y.wf(),
    ensures
        x.less(y) <==> if x.mant == 0 {
            y.mant != 0
        } else if y.mant == 0 {
            false
        } else if x.exp == y.exp {
            x.mant < y.mant
        } else {
            x.exp < y.exp
        },
{
    let (p, q) = (pow2(up(x.exp as int)), pow2(down(x.exp as int)));
    let (s, t) = (pow2(up(y.exp as int)), pow2(down(y.exp as int)));
    let (a, b) = (x.mant as nat, y.mant as nat);
    lemma_pow2_pos(up(x.exp as int));
    lemma_pow2_pos(down(x.exp as int));
    lemma_pow2_pos(up(y.exp as int));
    lemma_pow2_pos(down(y.exp as int));
    lemma_pow2_adds(up(x.exp as int), down(y.exp as int));
    lemma_pow2_adds(up(y.exp as int), down(x.exp as int));
    let (u, v) = (p * t, s * q);
    assert(a * p * t == a * u) by (nonlinear_arith)
        requires
            u == p * t,
    ;
    assert(b * s * q == b * v) by (nonlinear_arith)
        requires
            v == s * q,
    ;
    if a == 0 {
        assert(a * u == 0 && (b > 0 ==> b * v > 0) && (b == 0 ==> b * v == 0)) by (nonlinear_arith)
            requires
                a == 0,
                v > 0,
        ;
    } else if b == 0 {
        assert(a * u > 0 && b * v == 0) by (nonlinear_arith)
            requires
                a > 0,
                b == 0,
                u > 0,
        ;
    } else if x.exp == y.exp {
        assert(u == v);
        assert(a * u < b * v <==> a < b) by (nonlinear_arith)
            requires
                u == v,
                u > 0,
        ;
    } else if x.exp < y.exp {
        lemma_exp_order(
            a,
            u,
            up(x.exp as int) + down(y.exp as int),
            b,
            v,
            up(y.exp as int) + down(x.exp as int),
        );
    } else {
        lemma_exp_order(
            b,
            v,
            up(y.exp as int) + down(x.exp as int),
            a,
            u,
            up(x.exp as int) + down(y.exp as int),
        );
    }
}

/// A rounding is normalized.
proof fn lemma_nearest_normalized(num: nat, den: nat)
    requires
        num > 0,
        den > 0,
    ensures
        MANT_MIN <= nearest(num, den).0 < MANT_END,
        exponent(num, den) - 52 <= nearest(num, den).1 <= exponent(num, den) - 51,
{
    let k = exponent(num, den);
    lemma_exponent(num, den);
    lemma_pow2_pos(up(k));
    lemma2_to64_rest();
    let (a, b, t) = (num * pow2(down(k)), den * pow2(up(k)), pow2(52));
    assert(b > 0) by (nonlinear_arith)
        requires
            den > 0,
            pow2(up(k)) > 0,
            b == den * pow2(up(k)),
    ;
    lemma_fundamental_div_mod((a * t) as int, b as int);
    let (q, r) = ((a * t) / b, (a * t) % b);
    assert(t <= q < 2 * t) by (nonlinear_arith)
        requires
            b <= a < 2 * b,
            a * t == b * q + r,
            0 <= r < b,
            t > 0,
    ;
}

/// The rounding of a counter is representable.
pub proof fn lemma_integer_rounding(n: nat)
    requires
        n <= u64::MAX,
    ensures
        rounded_ratio(n, 1).wf(),
        is_nearest(rounded_ratio(n, 1), n, 1),
        rounded_ratio(n, 1).mant == 0 <==> n == 0,
        n > 0 ==> 0 <= rounded_ratio(n, 1).log() <= 64,
{
    if n > 0 {
        lemma2_to64();
        assert(n * pow2(0) == n) by (nonlinear_arith)
            requires
                pow2(0) == 1,
        ;
        lemma_nearest_normalized(n, 1);
        lemma_exponent_range(n, 1, 0, 64);
    }
}

/// The leading bit of the rounding of an integer.
pub proof fn lemma_integer_log(n: nat, lo: nat, hi: nat)
    requires
        n <= u64::MAX,
        pow2(lo) <= n < pow2(hi),
    ensures
        lo <= rounded_ratio(n, 1).log() <= hi,
{
    lemma_pow2_pos(lo);
    lemma2_to64();
    assert(n * pow2(0) == n) by (nonlinear_arith)
        requires
            pow2(0) == 1,
    ;
    lemma_integer_rounding(n);
    lemma_nearest_normalized(n, 1);
    lemma_exponent_range(n, 1, lo as int, hi as int);
}

/// The rounding of a proper fraction is at most one.
pub proof fn lemma_proper_fraction(num: nat, den: nat)
    requires
        0 < num <= den <= u64::MAX,
    ensures
        rounded_ratio(num, den).wf(),
        rounded_ratio(num, den).mant != 0,
        -64 <= rounded_ratio(num, den).log() <= 64,
        is_nearest(rounded_ratio(num, den), num, den),
        rounded_ratio(num, den).num() <= rounded_ratio(num, den).den(),
{
    let one = Binary64 { mant: MANT_MIN, exp: -52i32 };
    let r = rounded_ratio(num, den);
    lemma2_to64();
    lemma2_to64_rest();
    assert(den * pow2(0) <= num * pow2(64)) by (nonlinear_arith)
        requires
            den < 0x1_0000_0000_0000_0000,
            num >= 1,
            pow2(0) == 1,
            pow2(64) == 0x1_0000_0000_0000_0000,
    ;
    assert(num * pow2(0) < den * pow2(64)) by (nonlinear_arith)
        requires
            num < 0x1_0000_0000_0000_0000,
            den >= 1,
            pow2(0) == 1,
            pow2(64) == 0x1_0000_0000_0000_0000,
    ;
    lemma_nearest_normalized(num, den);
    lemma_exponent_range(num, den, -64, 64);
    assert(down(-52) == 52 && up(-52) == 0);
    assert(one.num() == MANT_MIN && one.den() == MANT_MIN) by (nonlinear_arith)
        requires
            one.num() == MANT_MIN * pow2(0),
            one.den() == pow2(52),
            pow2(0) == 1,
            pow2(52) == MANT_MIN,
    ;
    assert(num * one.den() <= one.num() * den) by (nonlinear_arith)
        requires
            one.num() == MANT_MIN,
            one.den() == MANT_MIN,
            num <= den,
    ;
    lemma_rounding_keeps_bound(one, num, den);
    let (a, b) = (r.num(), r.den());
    assert(a <= b) by (nonlinear_arith)
        requires
            !(MANT_MIN * b < a * MANT_MIN),
    ;
}

/// The leading bit of `2^-k`.
pub proof fn lemma_unit_fraction_log(k: nat)
    requires
        0 < k < 64,
    ensures
        -(k as int) <= rounded_ratio(1, pow2(k)).log() <= -k + 1,
{
    lemma2_to64();
    lemma_pow2_pos(k);
    lemma_pow2_unfold(k + 1);
    lemma_nearest_normalized(1, pow2(k));
    assert(pow2(k) * pow2(0) <= 1 * pow2(k) && 1 * pow2((k - 1) as nat) < pow2(k) * pow2(0)) by {
        lemma_pow2_unfold(k);
    }
    lemma_exponent_range(1, pow2(k), -(k as int), 1 - k);
}

/// A product in the normal range is representable.
pub proof fn lemma_product_in_range(a: Binary64, b: Binary64)
    requires
        a.wf(),
        b.wf(),
        a.mant != 0 && b.mant != 0 ==> -1100 <= a.log() + b.log() <= 1100,
    ensures
        product(a, b).wf(),
        is_nearest(product(a, b), a.num() * b.num(), a.den() * b.den()),
        product(a, b).mant == 0 <==> a.mant == 0 || b.mant == 0,
        a.den() * b.den() > 0,
        a.mant != 0 && b.mant != 0 ==> a.log() + b.log() <= product(a, b).log() <= a.log() + b.log() + 2,
{
    let (m, n) = (a.mant as nat, b.mant as nat);
    let (x1, x2) = (up(a.exp as int), up(b.exp as int));
    let (y1, y2) = (down(a.exp as int), down(b.exp as int));
    lemma_pow2_adds(x1, x2);
    lemma_pow2_adds(y1, y2);
    lemma_pow2_pos(y1 + y2);
    let (p1, p2) = (pow2(x1), pow2(x2));
    assert((m * p1) * (n * p2) == (m * n) * (p1 * p2)) by (nonlinear_arith);
    if m == 0 || n == 0 {
        assert((m * p1) * (n * p2) == 0) by (nonlinear_arith)
            requires
                m == 0 || n == 0,
        ;
    } else {
        lemma2_to64_rest();
        lemma2_to64();
        lemma_pow2_adds(52, 52);
        lemma_pow2_adds(53, 53);
        assert(pow2(52) * pow2(52) <= m * n < pow2(53) * pow2(53)) by (nonlinear_arith)
            requires
                pow2(52) <= m < pow2(53),
                pow2(52) <= n < pow2(53),
        ;
        assert((m * n) * pow2(0) == m * n) by (nonlinear_arith)
            requires
                pow2(0) == 1,
        ;
        lemma_nearest_scale(m * n, 1, x1 + x2, y1 + y2);
        lemma_nearest_normalized(m * n, 1);
        lemma_exponent_range(m * n, 1, 104, 106);
    }
}

/// The quotient of two numbers is representable while its exponent is in range.
pub proof fn lemma_quotient_in_range(x: Binary64, y: Binary64)
    requires
        x.wf(),
        y.wf(),
        y.mant != 0,
        x.mant != 0 ==> -1100 <= x.log() - y.log() <= 1100,
    ensures
        quotient(x, y).wf(),
        is_nearest(quotient(x, y), x.num() * y.den(), x.den() * y.num()),
        quotient(x, y).mant == 0 <==> x.mant == 0,
        x.den() * y.num() > 0,
        x.mant != 0 ==> x.log() - y.log() - 1 <= quotient(x, y).log() <= x.log() - y.log() + 1,
{
    let (a, b) = (x.mant as nat, y.mant as nat);
    let (x1, x2) = (up(x.exp as int), up(y.exp as int));
    let (y1, y2) = (down(x.exp as int), down(y.exp as int));
    lemma2_to64();
    lemma_pow2_pos(x2);
    lemma_pow2_pos(y1);
    lemma_pow2_adds(x1, y2);
    lemma_pow2_adds(y1, x2);
    let (p1, q2, q1, p2) = (pow2(x1), pow2(y2), pow2(y1), pow2(x2));
    assert((a * p1) * q2 == a * (p1 * q2)) by (nonlinear_arith);
    assert(q1 * (b * p2) == b * (q1 * p2) && q1 * (b * p2) > 0) by (nonlinear_arith)
        requires
            q1 > 0,
            p2 > 0,
            b > 0,
    ;
    if a == 0 {
        assert((a * p1) * q2 == 0) by (nonlinear_arith)
            requires
                a == 0,
        ;
    } else {
        lemma_nearest_scale(a, b, x1 + y2, y1 + x2);
        lemma_nearest_normalized(a, b);
        assert(b * pow2(0) <= a * pow2(1) && a * pow2(0) < b * pow2(1)) by (nonlinear_arith)
            requires
                pow2(0) == 1,
                pow2(1) == 2,
                MANT_MIN <= a < 2 * MANT_MIN,
                MANT_MIN <= b < 2 * MANT_MIN,
        ;
        lemma_exponent_range(a, b, -1, 1);
    }
}

/// The sum of two finite numbers is representable.
pub proof fn lemma_sum_of_finite(a: Binary64, b: Binary64)
    requires
        a.finite(),
        b.finite(),
    ensures
        sum(a, b).wf(),
        is_nearest(sum(a, b), sum_num(a, b), a.den() * b.den()),
        sum(a, b).mant == 0 <==> a.mant == 0 && b.mant == 0,
        a.den() * b.den() > 0,
        b.mant == 0 ==> sum(a, b) == a,
        a.mant == 0 ==> sum(a, b) == b,
        a.mant != 0 ==> a.log() <= sum(a, b).log(),
        b.mant != 0 ==> b.log() <= sum(a, b).log(),
{
    lemma_sum_commutes(a, b);
    lemma_pow2_pos(down(a.exp as int));
    lemma_pow2_pos(down(b.exp as int));
    assert(a.den() * b.den() > 0) by (nonlinear_arith)
        requires
            a.den() > 0,
            b.den() > 0,
    ;
    if a.mant == 0 {
        lemma_zero_sum(a, b);
    } else if b.mant == 0 {
        lemma_zero_sum(b, a);
    } else if a.exp <= b.exp {
        lemma_sum_in_range(a, b);
    } else {
        lemma_sum_in_range(b, a);
    }
}

/// Rounding raises a value by no more than the part `2^-53` of it.
pub proof fn lemma_rounding_above(f: Binary64, num: nat, den: nat)
    requires
        den > 0,
        is_nearest(f, num, den),
    ensures
        f.num() * den * pow2(53) <= num * f.den() * (pow2(53) + 1),
{
    lemma2_to64_rest();
    if num == 0 {
        assert(f.num() == 0) by (nonlinear_arith)
            requires
                f.num() == f.mant * pow2(up(f.exp as int)),
                f.mant == 0,
        ;
        assert(0 * den * pow2(53) == 0) by (nonlinear_arith);
    } else {
        let k = exponent(num, den);
        lemma_exponent(num, den);
        lemma_pow2_pos(up(k));
        lemma_pow2_pos(down(k));
        let (u, v) = (pow2(up(k)), pow2(down(k)));
        let (a, b) = (num * v, den * u);
        let t = pow2(52);
        assert(b > 0) by (nonlinear_arith)
            requires
                b == den * u,
                den > 0,
                u > 0,
        ;
        let q = half_even(a * t, b);
        lemma_fundamental_div_mod((a * t) as int, b as int);
        let (d, r) = ((a * t) / b, (a * t) % b);
        assert(2 * (q * b) <= 2 * (a * t) + b) by (nonlinear_arith)
            requires
                a * t == b * d + r,
                0 <= r < b,
                q == d || (q == d + 1 && 2 * r >= b),
        ;
        assert(2 * (q * b) <= a * (pow2(53) + 1)) by (nonlinear_arith)
            requires
                2 * (q * b) <= 2 * (a * t) + b,
                b <= a,
                pow2(53) == 2 * t,
        ;
        // The value is q * 2^(k - 52), whichever way it is written.
        let e = k - 52;
        let (x, y) = (pow2(up(e)), pow2(down(e)));
        let (m, fx, fy) = (f.mant as nat, pow2(up(f.exp as int)), f.den());
        lemma_pow2_pos(up(e));
        lemma_pow2_pos(down(e));
        lemma_pow2_pos(down(f.exp as int));
        assert(m * fx * y == q * x * fy) by {
            if q == MANT_END {
                let e2 = e + 1;
                lemma_pow2_adds(up(e2), down(e));
                lemma_pow2_adds(up(e), down(e2));
                lemma_pow2_unfold((up(e2) + down(e)) as nat);
                assert(fx * y == 2 * (x * fy));
                assert(m * fx * y == q * x * fy) by (nonlinear_arith)
                    requires
                        fx * y == 2 * (x * fy),
                        q == 2 * m,
                ;
            } else {
                assert(m * fx * y == q * x * fy) by (nonlinear_arith)
                    requires
                        m == q,
                        fx == x,
                        fy == y,
                ;
            }
        }
        lemma_pow2_adds(up(e), down(k));
        lemma_pow2_adds(up(e) + down(k), 52);
        lemma_pow2_adds(up(k), down(e));
        assert(x * v * t == u * y);
        assert(m * fx * den * pow2(53) <= num * fy * (pow2(53) + 1)) by {
            let s = pow2(53) + 1;
            // Scaled by y * v.
            assert((m * fx * den * pow2(53)) * (y * v) == (m * fx * y) * (den * v * pow2(53))) by (nonlinear_arith);
            assert((q * x * fy) * (den * v * pow2(53)) == (2 * (q * den) * fy) * (x * v * t)) by (nonlinear_arith)
                requires
                    pow2(53) == 2 * t,
            ;
            assert((2 * (q * den) * fy) * (u * y) == (2 * (q * (den * u))) * (fy * y)) by (nonlinear_arith);
            assert((2 * (q * b)) * (fy * y) <= (a * s) * (fy * y)) by (nonlinear_arith)
                requires
                    2 * (q * b) <= a * s,
            ;
            assert((num * v * s) * (fy * y) == (num * fy * s) * (y * v)) by (nonlinear_arith);
            let w = y * v;
            assert(w > 0) by (nonlinear_arith)
                requires
                    w == y * v,
                    y > 0,
                    v > 0,
            ;
            assert(m * fx * den * pow2(53) <= num * fy * s) by (nonlinear_arith)
                requires
                    (m * fx * den * pow2(53)) * w <= (num * fy * s) * w,
                    w > 0,
            ;
        }
    }
}

/// Rounding lowers a value by no more than the part `2^-53` of it.
pub proof fn lemma_rounding_below(f: Binary64, num: nat, den: nat)
    requires
        den > 0,
        is_nearest(f, num, den),
    ensures
        num * f.den() * (pow2(53) - 1) <= f.num() * den * pow2(53),
{
    lemma2_to64_rest();
    if num == 0 {
        assert(f.num() == 0) by (nonlinear_arith)
            requires
                f.num() == f.mant * pow2(up(f.exp as int)),
                f.mant == 0,
        ;
        assert(0 * f.den() * (pow2(53) - 1) == 0 && 0 * den * pow2(53) == 0) by (nonlinear_arith);
    } else {
        let k = exponent(num, den);
        lemma_exponent(num, den);
        lemma_pow2_pos(up(k));
        lemma_pow2_pos(down(k));
        let (u, v) = (pow2(up(k)), pow2(down(k)));
        let (a, b) = (num * v, den * u);
        let t = pow2(52);
        assert(b > 0) by (nonlinear_arith)
            requires
                b == den * u,
                den > 0,
                u > 0,
        ;
        let q = half_even(a * t, b);
        lemma_fundamental_div_mod((a * t) as int, b as int);
        let (d, r) = ((a * t) / b, (a * t) % b);
        assert(2 * (a * t) <= 2 * (q * b) + b) by (nonlinear_arith)
            requires
                a * t == b * d + r,
                0 <= r < b,
                (q == d && 2 * r <= b) || q == d + 1,
        ;
        assert(a * (pow2(53) - 1) <= 2 * (q * b)) by (nonlinear_arith)
            requires
                2 * (a * t) <= 2 * (q * b) + b,
                b <= a,
                pow2(53) == 2 * t,
        ;
        // The value is q * 2^(k - 52), whichever way it is written.
        let e = k - 52;
        let (x, y) = (pow2(up(e)), pow2(down(e)));
        let (m, fx, fy) = (f.mant as nat, pow2(up(f.exp as int)), f.den());
        lemma_pow2_pos(up(e));
        lemma_pow2_pos(down(e));
        lemma_pow2_pos(down(f.exp as int));
        assert(m * fx * y == q * x * fy) by {
            if q == MANT_END {
                let e2 = e + 1;
                lemma_pow2_adds(up(e2), down(e));
                lemma_pow2_adds(up(e), down(e2));
                lemma_pow2_unfold((up(e2) + down(e)) as nat);
                assert(fx * y == 2 * (x * fy));
                assert(m * fx * y == q * x * fy) by (nonlinear_arith)
                    requires
                        fx * y == 2 * (x * fy),
                        q == 2 * m,
                ;
            } else {
                assert(m * fx * y == q * x * fy) by (nonlinear_arith)
                    requires
                        m == q,
                        fx == x,
                        fy == y,
                ;
            }
        }
        lemma_pow2_adds(up(e), down(k));
        lemma_pow2_adds(up(e) + down(k), 52);
        lemma_pow2_adds(up(k), down(e));
        assert(x * v * t == u * y);
        assert(num * fy * (pow2(53) - 1) <= m * fx * den * pow2(53)) by {
            let s = pow2(53) - 1;
            // Scaled by y * v.
            assert((m * fx * den * pow2(53)) * (y * v) == (m * fx * y) * (den * v * pow2(53))) by (nonlinear_arith);
            assert((q * x * fy) * (den * v * pow2(53)) == (2 * (q * den) * fy) * (x * v * t)) by (nonlinear_arith)
                requires
                    pow2(53) == 2 * t,
            ;
            assert((2 * (q * den) * fy) * (u * y) == (2 * (q * (den * u))) * (fy * y)) by (nonlinear_arith);
            assert((a * s) * (fy * y) <= (2 * (q * b)) * (fy * y)) by (nonlinear_arith)
                requires
                    a * s <= 2 * (q * b),
                    fy > 0,
                    y > 0,
            ;
            assert((num * v * s) * (fy * y) == (num * fy * s) * (y * v)) by (nonlinear_arith);
            let w = y * v;
            assert(w > 0) by (nonlinear_arith)
                requires
                    w == y * v,
                    y > 0,
                    v > 0,
            ;
            assert(num * fy * s <= m * fx * den * pow2(53)) by (nonlinear_arith)
                requires
                    (num * fy * s) * w <= (m * fx * den * pow2(53)) * w,
                    w > 0,
            ;
        }
    }
}

/// Rounding never leaves a representable upper bound behind.
pub proof fn lemma_rounding_keeps_bound(f: Binary64, num: nat, den: nat)
    requires
        f.wf(),
        den > 0,
        num * f.den() <= f.num() * den,
        rounded_ratio(num, den).wf(),
        is_nearest(rounded_ratio(num, den), num, den),
    ensures
        !f.less(rounded_ratio(num, den)),
{
    let g = rounded_ratio(num, den);
    let (m, e) = (f.mant as nat, f.exp as int);
    lemma_less(f, g);
    if num > 0 {
        lemma_pow2_pos(down(e));
        lemma_pow2_pos(up(e));
        let (u, d) = (pow2(up(e)), pow2(down(e)));
        assert(m > 0) by (nonlinear_arith)
            requires
                num * d <= m * u * den,
                num > 0,
                d > 0,
        ;
        let k = exponent(num, den);
        lemma_exponent(num, den);
        lemma2_to64_rest();
        // num / den is below 2^(e + 53).
        let hi = e + 53;
        lemma_pow2_pos(down(hi));
        let (hu, hd) = (pow2(up(hi)), pow2(down(hi)));
        lemma_pow2_adds(53, up(e));
        lemma_pow2_adds(53 + up(e), down(hi));
        lemma_pow2_adds(up(hi), down(e));
        assert(pow2(53) * u * hd == hu * d);
        assert(num * hd < den * hu) by {
            assert(m * u * den < pow2(53) * u * den) by (nonlinear_arith)
                requires
                    m < pow2(53),
                    u > 0,
                    den > 0,
            ;
            assert(num * d * hd < pow2(53) * u * den * hd) by (nonlinear_arith)
                requires
                    num * d < pow2(53) * u * den,
                    hd > 0,
            ;
            assert(pow2(53) * u * den * hd == den * (pow2(53) * u * hd)) by (nonlinear_arith);
            assert(num * d * hd == (num * hd) * d) by (nonlinear_arith);
            assert(den * (hu * d) == (den * hu) * d) by (nonlinear_arith);
            assert(num * hd < den * hu) by (nonlinear_arith)
                requires
                    (num * hd) * d < (den * hu) * d,
                    d > 0,
            ;
        }
        lemma_exponent_range(num, den, k, hi);
        if k == e + 52 {
            let (p, n) = (pow2(up(k)), pow2(down(k)));
            let t = pow2(52);
            lemma_pow2_pos(up(k));
            lemma_pow2_pos(down(k));
            lemma_pow2_adds(up(e), down(k));
            lemma_pow2_adds(up(e) + down(k), 52);
            lemma_pow2_adds(up(k), down(e));
            assert(u * n * t == p * d);
            assert(num * n * t <= m * (den * p)) by {
                assert(num * d * (n * t) <= m * u * den * (n * t)) by (nonlinear_arith)
                    requires
                        num * d <= m * u * den,
                ;
                assert(num * d * (n * t) == (num * n * t) * d) by (nonlinear_arith);
                assert(m * u * den * (n * t) == m * den * (u * n * t)) by (nonlinear_arith);
                assert(m * den * (p * d) == (m * (den * p)) * d) by (nonlinear_arith);
                assert(num * n * t <= m * (den * p)) by (nonlinear_arith)
                    requires
                        (num * n * t) * d <= (m * (den * p)) * d,
                        d > 0,
                ;
            }
            assert(den * p > 0) by (nonlinear_arith)
                requires
                    den > 0,
                    p > 0,
            ;
            lemma_half_even_bound(num * n * t, den * p, m);
        }
    }
}

/// The sum of two numbers of the normal range is representable.
pub proof fn lemma_sum_in_range(a: Binary64, b: Binary64)
    requires
        a.finite(),
        b.finite(),
        a.mant != 0,
        b.mant != 0,
        a.exp <= b.exp,
    ensures
        sum(a, b).wf(),
        sum(a, b).mant != 0,
        is_nearest(sum(a, b), sum_num(a, b), a.den() * b.den()),
        a.den() * b.den() > 0,
        b.log() <= sum(a, b).log() <= b.log() + 2,
{
    lemma_sum_commutes(a, b);
    let (m, n) = (b.mant as nat, a.mant as nat);
    let d = (b.exp - a.exp) as nat;
    let (x1, x2) = (up(b.exp as int), up(a.exp as int));
    let (y1, y2) = (down(b.exp as int), down(a.exp as int));
    let p = pow2(d);
    lemma2_to64();
    lemma2_to64_rest();
    lemma_pow2_pos(d);
    lemma_pow2_adds(x1, y2);
    lemma_pow2_adds(x2, y1);
    lemma_pow2_adds(y1, y2);
    lemma_pow2_pos(y1 + y2);
    lemma_pow2_adds(d, x2 + y1);
    let (p1, q2, p2, q1) = (pow2(x1), pow2(y2), pow2(x2), pow2(y1));
    let t = pow2(x2 + y1);
    assert((m * p1) * q2 + (n * p2) * q1 == (m * p + n) * t) by (nonlinear_arith)
        requires
            p1 * q2 == p * t,
            p2 * q1 == t,
    ;
    let whole = m * p + n;
    assert(pow2(52) * p <= m * p && whole < pow2(54) * p && m * p > 0) by (nonlinear_arith)
        requires
            whole == m * p + n,
            pow2(52) <= m < pow2(53),
            n < pow2(53),
            pow2(52) > 0,
            pow2(54) == 2 * pow2(53),
            p >= 1,
    ;
    lemma_pow2_adds(52, d);
    lemma_pow2_adds(54, d);
    assert(whole * pow2(0) == whole) by (nonlinear_arith)
        requires
            pow2(0) == 1,
    ;
    lemma_nearest_scale(whole, 1, x2 + y1, y1 + y2);
    lemma_nearest_normalized(whole, 1);
    lemma_exponent_range(whole, 1, (52 + d) as int, (54 + d) as int);
    assert(q1 * q2 == q2 * q1) by (nonlinear_arith);
}

/// Half of a positive number has its mantissa and the exponent below.
proof fn lemma_half(s: Binary64)
    requires
        s.wf(),
        s.mant != 0,
    ensures
        (quotient(s, rounded_ratio(2, 1)).mant, quotient(s, rounded_ratio(2, 1)).exp as int) == (s.mant, s.exp - 1),
{
    let two = rounded_ratio(2, 1);
    lemma2_to64();
    lemma2_to64_rest();
    let exact = Binary64 { mant: MANT_MIN, exp: -51i32 };
    assert(down(-51) == 51 && up(-51) == 0);
    assert(exact.num() == pow2(52)) by (nonlinear_arith)
        requires
            exact.num() == MANT_MIN * pow2(0),
            pow2(0) == 1,
            pow2(52) == MANT_MIN,
    ;
    lemma_exact(exact);
    lemma_nearest_scale(2, 1, 51, 51);
    assert(2 * pow2(51) == pow2(52) && 1 * pow2(51) == pow2(51)) by {
        lemma_pow2_unfold(52);
    }
    assert(two == exact);
    lemma_pow2_pos(up(s.exp as int));
    lemma_pow2_pos(down(s.exp as int));
    assert(s.num() > 0) by (nonlinear_arith)
        requires
            s.num() == s.mant * pow2(up(s.exp as int)),
            s.mant > 0,
            pow2(up(s.exp as int)) > 0,
    ;
    lemma_exact(s);
    lemma_nearest_scale(s.num(), s.den(), 51, 52);
}

/// Twice a positive number is not above the sum with a larger one, nor below the sum with a smaller one.
proof fn lemma_double(a: Binary64, b: Binary64)
    requires
        a.finite(),
        b.finite(),
        a.mant != 0,
        b.mant != 0,
        !b.less(a),
        a.exp <= b.exp,
    ensures
        !sum(a, b).less(Binary64 { mant: a.mant, exp: (a.exp + 1) as i32 }),
        !(Binary64 { mant: b.mant, exp: (b.exp + 1) as i32 }).less(sum(a, b)),
{
    lemma_sum_in_range(a, b);
    let a2 = Binary64 { mant: a.mant, exp: (a.exp + 1) as i32 };
    let b2 = Binary64 { mant: b.mant, exp: (b.exp + 1) as i32 };
    let (na, da, nb, db) = (a.num(), a.den(), b.num(), b.den());
    lemma_doubled(a);
    lemma_doubled(b);
    lemma_exact(a2);
    lemma_exact(b2);
    let (n, d) = (sum_num(a, b), da * db);
    // 2 * na / da <= na / da + nb / db <= 2 * nb / db
    let (na2, da2, nb2, db2) = (a2.num(), a2.den(), b2.num(), b2.den());
    assert(na2 * d <= n * da2) by (nonlinear_arith)
        requires
            na2 * da == 2 * na * da2,
            n == na * db + nb * da,
            d == da * db,
            na * db <= nb * da,
            da > 0,
            da2 > 0,
            db > 0,
    ;
    assert(n * db2 <= nb2 * d) by (nonlinear_arith)
        requires
            nb2 * db == 2 * nb * db2,
            n == na * db + nb * da,
            d == da * db,
            na * db <= nb * da,
            da > 0,
            db2 > 0,
            db > 0,
    ;
    lemma_rounding_monotone(na2, da2, n, d);
    lemma_rounding_monotone(n, d, nb2, db2);
}

/// The value of a number with the next exponent is twice its own.
proof fn lemma_doubled(a: Binary64)
    requires
        a.finite(),
        a.mant != 0,
    ensures
        ({
            let b = Binary64 { mant: a.mant, exp: (a.exp + 1) as i32 };
            &&& b.wf()
            &&& b.num() * a.den() == 2 * a.num() * b.den()
            &&& a.den() > 0
            &&& b.den() > 0
        }),
{
    let b = Binary64 { mant: a.mant, exp: (a.exp + 1) as i32 };
    let e = a.exp as int;
    lemma2_to64();
    lemma_pow2_pos(down(e));
    lemma_pow2_pos(down(e + 1));
    let (m, u, v) = (a.mant as nat, pow2(up(e)), pow2(down(e)));
    let (u2, v2) = (pow2(up(e + 1)), pow2(down(e + 1)));
    if e >= 0 {
        lemma_pow2_unfold((e + 1) as nat);
    } else {
        lemma_pow2_unfold((-e) as nat);
    }
    assert((m * u2) * v == 2 * (m * u) * v2) by (nonlinear_arith)
        requires
            (u2 == 2 * u && v == 1 && v2 == 1) || (u2 == 1 && u == 1 && v == 2 * v2),
    ;
}

/// The rounded mean of two numbers lies between them.
pub proof fn lemma_mean_between(a: Binary64, b: Binary64)
    requires
        a.finite(),
        b.finite(),
        !b.less(a),
    ensures
        ({
            let m = quotient(sum(a, b), rounded_ratio(2, 1));
            m.wf() && !m.less(a) && !b.less(m)
        }),
{
    lemma_less(b, a);
    let m = quotient(sum(a, b), rounded_ratio(2, 1));
    if b.mant == 0 {
        lemma_zero_sum(a, b);
        lemma_half_of_zero(b);
        lemma_less(m, a);
        lemma_less(b, m);
    } else if a.mant == 0 {
        lemma_zero_sum(a, b);
        lemma_half(b);
        lemma_less(m, a);
        lemma_less(b, m);
    } else {
        let s = sum(a, b);
        lemma_sum_in_range(a, b);
        lemma_double(a, b);
        let a2 = Binary64 { mant: a.mant, exp: (a.exp + 1) as i32 };
        let b2 = Binary64 { mant: b.mant, exp: (b.exp + 1) as i32 };
        lemma_less(s, a2);
        lemma_less(b2, s);
        lemma_half(s);
        lemma_less(m, a);
        lemma_less(b, m);
    }
}

proof fn lemma_half_of_zero(z: Binary64)
    requires
        z.wf(),
        z.mant == 0,
    ensures
        quotient(z, rounded_ratio(2, 1)) == z,
{
    let q = rounded_ratio(2, 1).den();
    assert(z.num() * q == 0) by (nonlinear_arith)
        requires
            z.num() == z.mant * pow2(up(z.exp as int)),
            z.mant == 0,
    ;
}

/// A larger number is not rounded to a smaller integer.
pub proof fn lemma_integer_rounding_monotone(a: Binary64, b: Binary64)
    requires
        !b.less(a),
    ensures
        a.rounded() <= b.rounded(),
{
    let (n1, d1, n2, d2) = (a.num(), a.den(), b.num(), b.den());
    lemma_pow2_pos(down(a.exp as int));
    lemma_pow2_pos(down(b.exp as int));
    let q = half_up(n1, d1);
    let x = (2 * n1 + d1) as int;
    lemma_fundamental_div_mod(x, (2 * d1) as int);
    assert(q * (2 * d1) <= 2 * n1 + d1) by (nonlinear_arith)
        requires
            x == (2 * d1) * q + x % (2 * d1) as int,
            x % (2 * d1) as int >= 0,
            x == 2 * n1 + d1,
    ;
    assert(q * (2 * d2) <= 2 * n2 + d2) by (nonlinear_arith)
        requires
            q * (2 * d1) <= 2 * n1 + d1,
            n1 * d2 <= n2 * d1,
            d1 > 0,
            d2 > 0,
    ;
    let y = (2 * n2 + d2) as int;
    lemma_fundamental_div_mod(y, (2 * d2) as int);
    let r = half_up(n2, d2) as int;
    assert(q <= r) by (nonlinear_arith)
        requires
            q * (2 * d2) <= y,
            y == (2 * d2) * r + y % (2 * d2) as int,
            (y % (2 * d2) as int) < 2 * d2,
            d2 > 0,
    ;
}

proof fn lemma_half_even_monotone(a: nat, b: nat, c: nat, d: nat)
    requires
        b > 0,
        d > 0,
        a * d <= c * b,
    ensures
        half_even(a, b) <= half_even(c, d),
{
    let (q1, r1) = (a / b, a % b);
    let (q2, r2) = (c / d, c % d);
    lemma_fundamental_div_mod(a as int, b as int);
    lemma_fundamental_div_mod(c as int, d as int);
    assert(q1 <= q2) by (nonlinear_arith)
        requires
            a == b * q1 + r1,
            c == d * q2 + r2,
            a * d <= c * b,
            0 <= r1 < b,
            0 <= r2 < d,
    ;
    if q1 == q2 {
        assert(r1 * d <= r2 * b) by (nonlinear_arith)
            requires
                a == b * q1 + r1,
                c == d * q1 + r2,
                a * d <= c * b,
        ;
        assert(2 * r1 > b ==> 2 * r2 > d) by (nonlinear_arith)
            requires
                r1 * d <= r2 * b,
                b > 0,
                d > 0,
        ;
        assert(2 * r1 == b ==> 2 * r2 >= d) by (nonlinear_arith)
            requires
                r1 * d <= r2 * b,
                b > 0,
                d > 0,
        ;
    }
}

/// A larger number does not round to a smaller one.
pub proof fn lemma_rounding_monotone(n1: nat, d1: nat, n2: nat, d2: nat)
    requires
        d1 > 0,
        d2 > 0,
        n1 * d2 <= n2 * d1,
        rounded_ratio(n1, d1).wf(),
        is_nearest(rounded_ratio(n1, d1), n1, d1),
        rounded_ratio(n2, d2).wf(),
        is_nearest(rounded_ratio(n2, d2), n2, d2),
    ensures
        !rounded_ratio(n2, d2).less(rounded_ratio(n1, d1)),
{
    let (r1, r2) = (rounded_ratio(n1, d1), rounded_ratio(n2, d2));
    lemma_less(r2, r1);
    if n1 > 0 {
        assert(n2 > 0) by (nonlinear_arith)
            requires
                n1 * d2 <= n2 * d1,
                n1 > 0,
                d2 > 0,
        ;
        let (k1, k2) = (exponent(n1, d1), exponent(n2, d2));
        lemma_exponent(n1, d1);
        lemma_exponent(n2, d2);
        lemma_nearest_normalized(n1, d1);
        lemma_nearest_normalized(n2, d2);
        let (u, v) = (pow2(up(k1)), pow2(down(k1)));
        lemma_pow2_pos(up(k1));
        lemma_pow2_pos(down(k1));
        assert(d2 * u <= n2 * v) by {
            assert((d1 * u) * d2 <= (n1 * v) * d2) by (nonlinear_arith)
                requires
                    d1 * u <= n1 * v,
            ;
            assert((n1 * v) * d2 == (n1 * d2) * v) by (nonlinear_arith);
            assert((n1 * d2) * v <= (n2 * d1) * v) by (nonlinear_arith)
                requires
                    n1 * d2 <= n2 * d1,
            ;
            assert((d1 * u) * d2 == (d2 * u) * d1) by (nonlinear_arith);
            assert((n2 * d1) * v == (n2 * v) * d1) by (nonlinear_arith);
            assert(d2 * u <= n2 * v) by (nonlinear_arith)
                requires
                    (d2 * u) * d1 <= (n2 * v) * d1,
                    d1 > 0,
            ;
        }
        let hi = k2 + 1;
        assert(n2 * pow2(down(hi)) < d2 * pow2(up(hi))) by {
            lemma_pow2_pos(up(k2));
            if k2 >= 0 {
                lemma_pow2_unfold(hi as nat);
                let x = pow2(k2 as nat);
                assert(d2 * (2 * x) == 2 * (d2 * x)) by (nonlinear_arith);
            } else {
                lemma_pow2_unfold((-k2) as nat);
                let x = pow2((-k2 - 1) as nat);
                assert(n2 * (2 * x) == 2 * (n2 * x)) by (nonlinear_arith);
                lemma2_to64();
            }
        }
        lemma_exponent_range(n2, d2, k1, hi);
        if k1 == k2 {
            let t = pow2(52);
            lemma_pow2_pos(52);
            assert((n1 * v * t) * (d2 * u) <= (n2 * v * t) * (d1 * u)) by {
                assert((n1 * v * t) * (d2 * u) == (n1 * d2) * (v * t * u)) by (nonlinear_arith);
                assert((n2 * v * t) * (d1 * u) == (n2 * d1) * (v * t * u)) by (nonlinear_arith);
                assert((n1 * d2) * (v * t * u) <= (n2 * d1) * (v * t * u)) by (nonlinear_arith)
                    requires
                        n1 * d2 <= n2 * d1,
                ;
            }
            assert(d1 * u > 0 && d2 * u > 0) by (nonlinear_arith)
                requires
                    d1 > 0,
                    d2 > 0,
                    u > 0,
            ;
            lemma_half_even_monotone(n1 * v * t, d1 * u, n2 * v * t, d2 * u);
        }
    }
}

proof fn lemma_half_even_bound(a: nat, b: nat, m: nat)
    requires
        b > 0,
        a <= m * b,
    ensures
        half_even(a, b) <= m,
{
    lemma_fundamental_div_mod(a as int, b as int);
    let (q, r) = (a / b, a % b);
    assert(q <= m && (q == m ==> r == 0)) by (nonlinear_arith)
        requires
            a == b * q + r,
            a <= m * b,
            0 <= r < b,
    ;
}

/// The rounding of a positive integer is an integer.
proof fn lemma_integer_stays_integer(c: nat)
    requires
        c > 0,
    ensures
        nearest(c, 1).1 >= -52,
        nearest(c, 1).1 >= 0 || nearest(c, 1).0 % pow2((-nearest(c, 1).1) as nat) == 0,
{
    lemma2_to64();
    lemma2_to64_rest();
    assert(c * pow2(0) == c) by (nonlinear_arith)
        requires
            pow2(0) == 1,
    ;
    let k = exponent(c, 1);
    lemma_exponent(c, 1);
    if k < 0 {
        lemma_pow2_strictly_increases(0, down(k));
        assert(c * pow2(down(k)) >= 2) by (nonlinear_arith)
            requires
                c >= 1,
                pow2(down(k)) >= 2,
        ;
    }
    lemma_nearest_normalized(c, 1);
    if k < 52 {
        let (s, t) = (pow2((52 - k) as nat), pow2(k as nat));
        lemma_pow2_pos((52 - k) as nat);
        lemma_pow2_pos(k as nat);
        lemma_pow2_adds((52 - k) as nat, k as nat);
        assert((c * pow2(52)) * 1 == (c * s) * (1 * t)) by (nonlinear_arith)
            requires
                pow2(52) == s * t,
        ;
        lemma_half_even_ratio(c * pow2(0) * pow2(52), 1 * t, c * s, 1);
        assert((c * s) % 1 == 0 && (c * s) / 1 == c * s);
        assert(c * s < 2 * pow2(52)) by (nonlinear_arith)
            requires
                c < 2 * t,
                pow2(52) == s * t,
                s > 0,
        ;
        lemma_mod_multiples_basic(c as int, s as int);
    }
}

/// A positive integer below `2^53` is its own rounding.
proof fn lemma_small_integer_stays(c: nat)
    requires
        0 < c < pow2(53),
    ensures
        -52 <= nearest(c, 1).1 <= 0,
        nearest(c, 1).0 == c * pow2((-nearest(c, 1).1) as nat),
        MANT_MIN <= nearest(c, 1).0 < MANT_END,
{
    lemma2_to64();
    lemma2_to64_rest();
    assert(c * pow2(0) == c) by (nonlinear_arith)
        requires
            pow2(0) == 1,
    ;
    let k = exponent(c, 1);
    lemma_exponent_range(c, 1, 0, 53);
    lemma_exponent(c, 1);
    lemma_nearest_normalized(c, 1);
    let (s, t) = (pow2((52 - k) as nat), pow2(k as nat));
    lemma_pow2_pos((52 - k) as nat);
    lemma_pow2_pos(k as nat);
    lemma_pow2_adds((52 - k) as nat, k as nat);
    assert((c * pow2(52)) * 1 == (c * s) * (1 * t)) by (nonlinear_arith)
        requires
            pow2(52) == s * t,
    ;
    lemma_half_even_ratio(c * pow2(0) * pow2(52), 1 * t, c * s, 1);
    assert((c * s) % 1 == 0 && (c * s) / 1 == c * s);
    assert(c * s < 2 * pow2(52)) by (nonlinear_arith)
        requires
            c < 2 * t,
            pow2(52) == s * t,
            s > 0,
    ;
}

/// An integer below `2^53` is represented exactly.
pub proof fn lemma_small_integer(n: nat)
    requires
        n < pow2(53),
    ensures
        rounded_ratio(n, 1).num() == n * rounded_ratio(n, 1).den(),
{
    lemma2_to64();
    let z = rounded_ratio(n, 1);
    if n == 0 {
        assert(z.num() == 0) by (nonlinear_arith)
            requires
                z.num() == 0 * pow2(0),
        ;
        assert(0 * z.den() == 0) by (nonlinear_arith);
    } else {
        lemma_small_integer_stays(n);
        assert(z.mant * pow2(0) == z.mant) by (nonlinear_arith)
            requires
                pow2(0) == 1,
        ;
    }
}

/// What a power of two divides, a smaller power of two divides.
proof fn lemma_smaller_power_divides(m: nat, i: nat, j: nat)
    requires
        i <= j,
        m % pow2(j) == 0,
    ensures
        m % pow2(i) == 0,
{
    lemma_pow2_pos(i);
    lemma_pow2_pos(j);
    lemma_pow2_adds(i, (j - i) as nat);
    lemma_fundamental_div_mod(m as int, pow2(j) as int);
    let (q, a, b) = (m / pow2(j), pow2(i), pow2((j - i) as nat));
    assert(m == (q * b) * a) by (nonlinear_arith)
        requires
            m == (a * b) * q,
    ;
    lemma_mod_multiples_basic((q * b) as int, a as int);
}

/// Rounding keeps multiples of a power of two.
proof fn lemma_rounding_in_grains(r: Binary64, n: nat, e: int, g: nat)
    requires
        n > 0,
        (r.mant as nat, r.exp as int) == (nearest(n, 1).0, nearest(n, 1).1 + e),
        e >= -g || n % pow2((-g - e) as nat) == 0,
    ensures
        r.in_grains(g),
        r.log() >= -g,
{
    if e >= -g {
        lemma_integer_stays_integer(n);
        if r.exp < -g {
            lemma_smaller_power_divides(r.mant as nat, (-g - r.exp) as nat, (-nearest(n, 1).1) as nat);
        }
    } else {
        let s = (-g - e) as nat;
        let t = pow2(s);
        lemma_pow2_pos(s);
        lemma_fundamental_div_mod(n as int, t as int);
        let c = n / t;
        assert(n == c * t && c > 0) by (nonlinear_arith)
            requires
                n == t * c,
                n > 0,
                c >= 0,
        ;
        lemma2_to64();
        lemma_nearest_scale(c, 1, s, 0);
        lemma_integer_stays_integer(c);
    }
}

/// The mantissas of two multiples of `2^-g`, brought to the lower exponent, in units of `2^-g`.
proof fn lemma_common_grain(x: Binary64, y: Binary64, g: nat) -> (r: (nat, nat))
    requires
        x.in_grains(g),
        y.in_grains(g),
        y.exp <= x.exp,
        y.exp < -g,
    ensures
        x.mant as nat * pow2((x.exp - y.exp) as nat) == r.0 * pow2((-g - y.exp) as nat),
        y.mant as nat == r.1 * pow2((-g - y.exp) as nat),
{
    let s = (-g - y.exp) as nat;
    let d = (x.exp - y.exp) as nat;
    let t = pow2(s);
    let (a, b) = (x.mant as nat, y.mant as nat);
    lemma_pow2_pos(s);
    lemma_fundamental_div_mod(b as int, t as int);
    let v = b / t;
    assert(b == v * t) by (nonlinear_arith)
        requires
            b == t * v,
    ;
    if x.exp >= -g {
        let q = pow2((d - s) as nat);
        lemma_pow2_adds((d - s) as nat, s);
        assert(a * (q * t) == (a * q) * t) by (nonlinear_arith);
        (a * q, v)
    } else {
        let w = pow2((-g - x.exp) as nat);
        let p = pow2(d);
        lemma_pow2_pos((-g - x.exp) as nat);
        lemma_pow2_adds((-g - x.exp) as nat, d);
        lemma_fundamental_div_mod(a as int, w as int);
        let u = a / w;
        assert(a * p == u * t) by (nonlinear_arith)
            requires
                a == w * u,
                t == w * p,
        ;
        (u, v)
    }
}

/// Subtracting what is far below the last bit changes nothing.
proof fn lemma_far_difference(x: Binary64, y: Binary64)
    requires
        x.wf(),
        y.wf(),
        x.mant != 0,
        y.mant != 0,
        x.exp - y.exp > 66,
    ensures
        x == difference(x, y),
{
    let d = (x.exp - y.exp) as nat;
    let (a, b, p) = (x.mant as nat, y.mant as nat, pow2(d));
    let (x1, x2) = (up(x.exp as int), up(y.exp as int));
    let (y1, y2) = (down(x.exp as int), down(y.exp as int));
    lemma2_to64();
    lemma2_to64_rest();
    lemma_pow2_adds(x1, y2);
    lemma_pow2_adds(x2, y1);
    lemma_pow2_adds(y1, y2);
    lemma_pow2_adds(d, x2 + y1);
    let (p1, q2, p2, q1) = (pow2(x1), pow2(y2), pow2(x2), pow2(y1));
    let t = pow2(x2 + y1);
    assert((a * p1) * q2 - (b * p2) * q1 == (a * p - b) * t) by (nonlinear_arith)
        requires
            p1 * q2 == p * t,
            p2 * q1 == t,
    ;
    lemma_pow2_strictly_increases(60, d);
    assert(4 * b < p);
    assert(a * p >= p) by (nonlinear_arith)
        requires
            a >= 1,
    ;
    let n = (a * p - b) as nat;
    lemma_nearest_scale(n, 1, x2 + y1, y1 + y2);
    assert(n * pow2(0) == n) by (nonlinear_arith)
        requires
            pow2(0) == 1,
    ;
    let low = if a == MANT_MIN {
        51nat
    } else {
        52nat
    };
    lemma_pow2_adds(low, d);
    lemma_pow2_adds(low + 1, d);
    assert(pow2(low) * p <= n < pow2(low + 1) * p) by (nonlinear_arith)
        requires
            n == a * p - b,
            0 < b < p,
            (a == MANT_MIN && pow2(low + 1) == MANT_MIN && 2 * pow2(low) == MANT_MIN) || (MANT_MIN < a < MANT_END
                && pow2(low) == MANT_MIN && pow2(low + 1) == MANT_END),
    ;
    lemma_exponent_range(n, 1, (low + d) as int, (low + d + 1) as int);
    // The quotient falls short of a whole number of units by less than half of one.
    let c = pow2((52 - low) as nat);
    lemma_pow2_adds((52 - low) as nat, low);
    let big = pow2(low) * p;
    assert((n * pow2(52)) * p == (c * n) * big) by (nonlinear_arith)
        requires
            pow2(52) == c * pow2(low),
            big == pow2(low) * p,
    ;
    lemma_pow2_pos(low + d);
    lemma_half_even_ratio(n * pow2(0) * pow2(52), 1 * pow2((low + d) as nat), c * n, p);
    assert(c * n == p * (c * a - 1) + (p - c * b)) by (nonlinear_arith)
        requires
            n == a * p - b,
    ;
    assert(c == 1 || c == 2);
    assert(0 <= p - c * b < p && 2 * (p - c * b) > p) by (nonlinear_arith)
        requires
            c == 1 || c == 2,
            0 < b,
            4 * b < p,
    ;
    lemma_fundamental_div_mod_converse((c * n) as int, p as int, c * a - 1, p - c * b);
}

/// A number is its own rounding.
pub proof fn lemma_exact(f: Binary64)
    requires
        f.wf(),
    ensures
        is_nearest(f, f.num(), f.den()),
{
    let m = f.mant as nat;
    if m == 0 {
        assert(f.num() == 0) by (nonlinear_arith)
            requires
                f.num() == m * pow2(up(f.exp as int)),
                m == 0,
        ;
    } else {
        lemma2_to64();
        lemma2_to64_rest();
        lemma_nearest_scale(m, 1, up(f.exp as int), down(f.exp as int));
        lemma_exponent_range(m, 1, 52, 53);
        lemma_half_even_ratio(m * pow2(0) * pow2(52), 1 * pow2(52), m, 1);
        assert(m % 1 == 0);
    }
}

proof fn lemma_zero_sum(zero: Binary64, f: Binary64)
    requires
        zero.wf(),
        f.wf(),
        zero.mant == 0,
    ensures
        is_nearest(f, sum_num(zero, f), zero.den() * f.den()),
{
    lemma_exact(f);
    lemma2_to64();
    assert(sum_num(zero, f) == f.num() && zero.den() * f.den() == f.den()) by (nonlinear_arith)
        requires
            zero.num() == 0 * pow2(0),
            zero.den() == 1,
            sum_num(zero, f) == zero.num() * f.den() + f.num() * zero.den(),
    ;
}

pub proof fn lemma_sum_commutes(a: Binary64, b: Binary64)
    ensures
        sum_num(a, b) == sum_num(b, a),
        a.den() * b.den() == b.den() * a.den(),
{
    assert(a.den() * b.den() == b.den() * a.den()) by (nonlinear_arith);
}

/// Subtracting zero changes nothing.
pub proof fn lemma_zero_difference(a: Binary64)
    requires
        a.wf(),
    ensures
        difference(a, rounded_ratio(0, 1)) == a,
        !a.less(rounded_ratio(0, 1)),
{
    let z = rounded_ratio(0, 1);
    lemma2_to64();
    lemma_less(a, z);
    lemma_exact(a);
    let (n, d) = (a.num(), a.den());
    assert(z.num() == 0) by (nonlinear_arith)
        requires
            z.num() == 0 * pow2(0),
    ;
    assert(n * 1 - 0 * d == n && d * 1 == d) by (nonlinear_arith);
}

/// Subtracting its integer part from a number leaves exactly the rest.
pub proof fn lemma_truncation(a: Binary64, n: nat)
    requires
        a.wf(),
        a.mant != 0 ==> -100 <= a.log() <= 64,
        !rounded_ratio(u64::MAX as nat, 1).less(a),
        n == a.truncated(),
    ensures
        !a.less(rounded_ratio(n, 1)),
        ({
            let l = difference(a, rounded_ratio(n, 1));
            &&& l.wf()
            &&& l.num() < l.den()
            &&& l.num() * a.den() + n * a.den() * l.den() <= a.num() * l.den()
            &&& l.mant != 0 ==> a.exp <= l.log() <= 0
            &&& n == 0 ==> l == a
        }),
{
    a.lemma_integer_part(n);
    let z = rounded_ratio(n, 1);
    let l = difference(a, z);
    let (m, e) = (a.mant as nat, a.exp as int);
    lemma2_to64();
    lemma2_to64_rest();
    lemma_pow2_pos(down(e));
    lemma_pow2_pos(down(z.exp as int));
    lemma_integer_rounding(n);
    if a.mant == 0 {
        assert(a.num() == 0) by (nonlinear_arith)
            requires
                a.num() == m * pow2(up(e)),
                m == 0,
        ;
        assert(n == 0);
        assert(z.num() == 0) by (nonlinear_arith)
            requires
                z.num() == 0 * pow2(0),
        ;
        assert(a.num() * z.den() - z.num() * a.den() == 0) by (nonlinear_arith)
            requires
                a.num() == 0,
                z.num() == 0,
        ;
        lemma_nothing_left(a, n, l);
    } else if e >= 0 {
        assert(a.den() == 1);
        lemma_div_basics(a.num() as int);
        if a.num() <= u64::MAX {
            lemma_exact(a);
            assert(z == a);
            assert(n > 0) by (nonlinear_arith)
                requires
                    n == m * pow2(up(e)),
                    m > 0,
                    pow2(up(e)) > 0,
            ;
        } else {
            let top = Binary64 { mant: MANT_MIN, exp: 12 };
            assert(top.num() == 0x1_0000_0000_0000_0000 && top.den() == 1);
            lemma_rounding_keeps_bound(top, n, 1);
            lemma_less(top, z);
            lemma_less(z, a);
            lemma_less(a, top);
            assert(!a.less(top)) by (nonlinear_arith)
                requires
                    a.den() == 1,
                    top.den() == 1,
                    a.num() >= 0x1_0000_0000_0000_0000,
                    top.num() == 0x1_0000_0000_0000_0000,
            ;
            assert(z == a);
        }
        assert(a.num() * z.den() - z.num() * a.den() == 0);
        lemma_nothing_left(a, n, l);
    } else {
        let d = (-e) as nat;
        let p = pow2(d);
        assert(a.num() == m) by (nonlinear_arith)
            requires
                a.num() == m * pow2(0),
                pow2(0) == 1,
        ;
        lemma_fundamental_div_mod(m as int, p as int);
        let j = (m % p) as nat;
        assert(m / p <= m) by (nonlinear_arith)
            requires
                m == p * (m / p) + j,
                p >= 1,
        ;
        assert(n == m / p);
        lemma_small_integer(n);
        let zd = z.den();
        assert(m * zd - (n * zd) * p == j * zd && p * zd == 1 * (p * zd)) by (nonlinear_arith)
            requires
                m == p * n + j,
        ;
        if j == 0 {
            assert(j * zd == 0) by (nonlinear_arith)
                requires
                    j == 0,
            ;
            if n == 0 {
                assert(m == 0) by (nonlinear_arith)
                    requires
                        m == p * n + j,
                        n == 0,
                        j == 0,
                ;
            }
            lemma_nothing_left(a, n, l);
        } else {
            let y = down(z.exp as int);
            assert(z.exp <= 0) by {
                if n > 0 {
                    lemma_small_integer_stays(n);
                }
            }
            lemma_pow2_adds(d, y);
            lemma_nearest_scale(j, 1, y, d + y);
            assert(j < pow2(53));
            lemma_small_integer_stays(j);
            let (mj, ej) = nearest(j, 1);
            let s = pow2((-ej) as nat);
            lemma_pow2_pos((-ej) as nat);
            lemma_pow2_adds(d, (-ej) as nat);
            assert(l.mant == mj && l.exp == ej - d);
            assert(l.num() == mj) by (nonlinear_arith)
                requires
                    l.num() == l.mant * pow2(0),
                    l.mant == mj,
                    pow2(0) == 1,
            ;
            assert(l.den() == p * s);
            assert(j * s < p * s && (j * s) * p + n * p * (p * s) == m * (p * s)) by (nonlinear_arith)
                requires
                    j < p,
                    s > 0,
                    m == p * n + j,
            ;
            if n == 0 {
                assert(j == m) by (nonlinear_arith)
                    requires
                        m == p * n + j,
                        n == 0,
                ;
                lemma_exact(a);
                assert(zd == 1);
                assert(m * 1 - 0 * p == m && p * 1 == p);
            }
            l.lemma_log_at_most_one();
        }
    }
}

/// A remainder of zero is none.
proof fn lemma_nothing_left(a: Binary64, n: nat, l: Binary64)
    requires
        l == (Binary64 { mant: 0, exp: 0 }),
        n <= a.num() / a.den(),
        a.den() > 0,
    ensures
        l.num() < l.den(),
        l.num() * a.den() + n * a.den() * l.den() <= a.num() * l.den(),
{
    lemma2_to64();
    let (x, d) = (a.num(), a.den());
    assert(l.num() == 0) by (nonlinear_arith)
        requires
            l.num() == 0 * pow2(0),
    ;
    assert(0 * d + n * d * 1 <= x * 1) by (nonlinear_arith)
        requires
            n <= x / d,
            d > 0,
    ;
}

impl Binary64 {
    /// A number that is at most one has no bit above the units.
    pub proof fn lemma_log_at_most_one(self)
        requires
            self.wf(),
            self.num() <= self.den(),
        ensures
            self.mant != 0 ==> self.log() <= 0,
    {
        if self.mant != 0 && self.log() > 0 {
            let m = self.mant as nat;
            lemma2_to64();
            lemma2_to64_rest();
            if self.exp >= 0 {
                lemma_pow2_pos(self.exp as nat);
                let p = pow2(self.exp as nat);
                assert(m * p > 1) by (nonlinear_arith)
                    requires
                        m > 1,
                        p >= 1,
                ;
            } else {
                lemma_pow2_strictly_increases(down(self.exp as int), 52);
                assert(m * pow2(0) == m) by (nonlinear_arith)
                    requires
                        pow2(0) == 1,
                ;
            }
        }
    }

    /// A number without a bit at or above the units has no integer part.
    pub proof fn lemma_log_below_one(self)
        requires
            self.wf(),
            self.mant != 0,
            self.log() < 0,
        ensures
            self.truncated() == 0,
    {
        lemma2_to64();
        lemma2_to64_rest();
        if down(self.exp as int) > 53 {
            lemma_pow2_strictly_increases(53, down(self.exp as int));
        }
        let m = self.mant as nat;
        assert(m * pow2(0) == m) by (nonlinear_arith)
            requires
                pow2(0) == 1,
        ;
        lemma_basic_div(m as int, self.den() as int);
    }

    /// What is not below a positive number is itself positive, with no lower leading bit.
    pub proof fn lemma_positive_bound(self, v: Self)
        requires
            self.wf(),
            v.wf(),
            self.mant != 0,
            !v.less(self),
        ensures
            v.mant != 0,
            v.log() >= self.log(),
    {
        lemma_less(v, self);
    }

    /// A positive multiple of `2^-g` is not below it.
    pub proof fn lemma_grain_log(self, g: nat)
        requires
            self.wf(),
            self.mant != 0,
            self.in_grains(g),
        ensures
            self.log() >= -g,
    {
        if self.log() < -g {
            let s = (-g - self.exp) as nat;
            lemma2_to64();
            lemma2_to64_rest();
            if s > 53 {
                lemma_pow2_strictly_increases(53, s);
            }
            lemma_small_mod(self.mant as nat, pow2(s));
        }
    }

    /// A number whose integer part is not capped is below `2^64`.
    pub proof fn lemma_uncapped_log(self)
        requires
            self.wf(),
            self.truncated() < u64::MAX,
        ensures
            self.log() <= 64,
    {
        if self.log() > 64 {
            let m = self.mant as nat;
            let p = pow2(self.exp as nat);
            lemma2_to64();
            lemma2_to64_rest();
            if self.exp > 13 {
                lemma_pow2_strictly_increases(13, self.exp as nat);
            }
            assert(m * p > u64::MAX) by (nonlinear_arith)
                requires
                    m >= MANT_MIN,
                    p >= 0x2000,
            ;
            let v = m * p;
            lemma_div_basics(v as int);
            assert(self.den() == 1);
        }
    }

    /// An integer that is not above the integer part of a number does not round above the number.
    pub proof fn lemma_integer_part(self, n: nat)
        requires
            self.wf(),
            n <= self.truncated(),
        ensures
            !self.less(rounded_ratio(n, 1)),
    {
        let (a, d) = (self.num(), self.den());
        lemma_pow2_pos(down(self.exp as int));
        lemma_integer_rounding(n);
        assert(n * d <= a * 1) by (nonlinear_arith)
            requires
                n <= a / d,
                d > 0,
        ;
        lemma_rounding_keeps_bound(self, n, 1);
    }
}

proof fn lemma_half_even_distance(a: nat, b: nat)
    requires
        b > 0,
    ensures
        2 * (half_even(a, b) * b) <= 2 * a + b,
        2 * a <= 2 * (half_even(a, b) * b) + b,
{
    lemma_fundamental_div_mod(a as int, b as int);
    let (q, r) = (a / b, a % b);
    assert(q * b == b * q && (q + 1) * b == b * q + b) by (nonlinear_arith);
}

/// The number that a decimal with `places` digits after its point stands for, in units of the last place.
pub open spec fn read_fixed(s: Seq<char>, places: nat) -> int {
    text::read_in_base(s.take(s.len() - places - 1), 10) * pow10(places) + text::read_in_base(s.skip(s.len() - places), 10)
}

/// The text of a number has a point before its last `places` digits, and what it reads is off the number by no more
/// than half a unit of the last place.
pub proof fn lemma_fixed_reads_back(f: Binary64, places: nat)
    requires
        f.wf(),
    ensures
        f.fixed(places).len() > places + 1,
        f.fixed(places)[f.fixed(places).len() - places - 1] == '.',
        2 * (read_fixed(f.fixed(places), places) * f.den()) <= 2 * (f.num() * pow10(places)) + f.den(),
        2 * (f.num() * pow10(places)) <= 2 * (read_fixed(f.fixed(places), places) * f.den()) + f.den(),
{
    let v = f.in_units(places);
    let p = pow10(places);
    lemma_pow10_positive(places);
    lemma_pow2_pos(down(f.exp as int));
    lemma_half_even_distance(f.num() * p, f.den());
    lemma_fundamental_div_mod(v as int, p as int);
    let (a, b) = (text::decimal(v / p), text::fixed_width(v % p, places));
    let s = f.fixed(places);
    text::lemma_decimal_reads_back(v / p);
    text::lemma_fixed_width_reads_back(v % p, places);
    assert(s.take(s.len() - places - 1) =~= a);
    assert(s.skip(s.len() - places) =~= b);
    let q = v / p;
    assert(q * p == p * q) by (nonlinear_arith);
    assert(read_fixed(s, places) == v);
}

proof fn lemma_pow10_positive(n: nat)
    ensures
        pow10(n) > 0,
    decreases n,
{
    if n > 0 {
        lemma_pow10_positive((n - 1) as nat);
    }
}

/// A rounded number is off by no more than a half, and one half is rounded up; what does not fit is cut to the
/// largest integer.
pub proof fn lemma_rounded_distance(f: Binary64)
    requires
        f.wf(),
    ensures
        2 * (f.rounded() * f.den()) <= 2 * f.num() + f.den(),
        f.rounded() < u64::MAX ==> 2 * f.num() < 2 * (f.rounded() * f.den()) + f.den(),
{
    lemma_pow2_pos(down(f.exp as int));
    let (n, d) = (f.num() as int, f.den() as int);
    let v = half_up(f.num(), f.den()) as int;
    let r = f.rounded() as int;
    lemma_fundamental_div_mod(2 * n + d, 2 * d);
    let m = (2 * n + d) % (2 * d);
    assert(2 * n + d == (2 * d) * v + m && 0 <= m < 2 * d);
    assert((2 * d) * v == 2 * (v * d)) by (nonlinear_arith);
    assert(r * d <= v * d) by (nonlinear_arith)
        requires
            r <= v,
            d > 0,
    ;
}

/// Cutting a number takes less than one from it; what does not fit is cut to the largest integer.
pub proof fn lemma_truncated_distance(f: Binary64)
    requires
        f.wf(),
    ensures
        f.truncated() * f.den() <= f.num(),
        f.truncated() < u64::MAX ==> f.num() < f.truncated() * f.den() + f.den(),
{
    lemma_pow2_pos(down(f.exp as int));
    let (n, d) = (f.num() as int, f.den() as int);
    let v = n / d;
    lemma_fundamental_div_mod(n, d);
    assert(d * v == v * d) by (nonlinear_arith);
    let r = f.truncated() as int;
    assert(r * d <= v * d) by (nonlinear_arith)
        requires
            r <= v,
            d > 0,
    ;
}

/// The rounded difference is the number nearest to the difference.
pub proof fn lemma_difference_nearest(a: Binary64, b: Binary64)
    requires
        a.wf(),
        b.wf(),
        !a.less(b),
    ensures
        is_nearest(
            difference(a, b),
            (a.num() * b.den() - b.num() * a.den()) as nat,
            a.den() * b.den(),
        ),
        a.den() * b.den() > 0,
{
    let (an, ad, bn, bd) = (a.num(), a.den(), b.num(), b.den());
    let n = (an * bd - bn * ad) as nat;
    let d = ad * bd;
    lemma_pow2_pos(down(a.exp as int));
    lemma_pow2_pos(down(b.exp as int));
    lemma2_to64();
    lemma2_to64_rest();
    assert(d > 0) by (nonlinear_arith)
        requires
            d == ad * bd,
            ad > 0,
            bd > 0,
    ;
    if n > 0 {
        lemma_pow2_adds(down(a.exp as int), down(b.exp as int));
        let y = down(a.exp as int) + down(b.exp as int);
        lemma_pow2_strictly_increases(y, 2500);
        assert(d * pow2(0) <= n * pow2(2500)) by (nonlinear_arith)
            requires
                d <= pow2(2500),
                n >= 1,
                pow2(0) == 1,
        ;
        let x = up(a.exp as int);
        lemma_pow2_adds(53, x);
        lemma_pow2_strictly_increases(53 + x, 1200);
        lemma_pow2_pos(x);
        assert(an < pow2(1200)) by (nonlinear_arith)
            requires
                an == a.mant as nat * pow2(x),
                a.mant < pow2(53),
                pow2(53) * pow2(x) <= pow2(1200),
                pow2(x) > 0,
        ;
        let top = pow2(1200);
        assert(bn * ad >= 0);
        assert(an * bd < top * bd) by (nonlinear_arith)
            requires
                an < top,
                bd > 0,
        ;
        assert(top * bd <= (ad * bd) * top) by (nonlinear_arith)
            requires
                ad >= 1,
                bd > 0,
                top > 0,
        ;
        assert(n * pow2(0) == n) by (nonlinear_arith)
            requires
                pow2(0) == 1,
        ;
        lemma_nearest_normalized(n, d);
        lemma_exponent_range(n, d, -2500, 1200);
    }
}

/// Rounding to an integer goes to the nearest, by no more than a half, and to the even one of two that are equally
/// near.
pub proof fn lemma_half_even_is_nearest(a: nat, b: nat)
    requires
        b > 0,
    ensures
        2 * (half_even(a, b) * b) <= 2 * a + b,
        2 * a <= 2 * (half_even(a, b) * b) + b,
        2 * (half_even(a, b) * b) == 2 * a + b || 2 * a == 2 * (half_even(a, b) * b) + b ==> half_even(a, b) % 2 == 0,
{
    lemma_half_even_distance(a, b);
    lemma_fundamental_div_mod(a as int, b as int);
    let (q, r) = (a / b, a % b);
    assert(q * b == b * q && (q + 1) * b == b * q + b) by (nonlinear_arith);
}

/// A ratio of numbers of 64 bits is rounded to a representable number.
pub proof fn lemma_ratio_rounding(num: nat, den: nat)
    requires
        0 < num <= u64::MAX,
        0 < den <= u64::MAX,
    ensures
        rounded_ratio(num, den).wf(),
        is_nearest(rounded_ratio(num, den), num, den),
        rounded_ratio(num, den).mant != 0,
{
    lemma2_to64();
    assert(den * pow2(0) <= num * pow2(64)) by (nonlinear_arith)
        requires
            den <= pow2(64),
            num >= 1,
            pow2(0) == 1,
    ;
    assert(num * pow2(0) < den * pow2(64)) by (nonlinear_arith)
        requires
            num < pow2(64),
            den >= 1,
            pow2(0) == 1,
    ;
    lemma_nearest_normalized(num, den);
    lemma_exponent_range(num, den, -64, 64);
}

} // verus!
