//! How far rounded figures can be from the exact ones.
//!
//! Numbers are compared as fractions: a figure is near a fraction when neither exceeds the other by more than
//! a few parts in `2^52`.

use vstd::arithmetic::power2::*;
use vstd::prelude::*;

use crate::float::Binary64;
use crate::{figures, float};

verus! {

/// `2^52`: differences are counted in parts of this size.
pub const UNIT_PARTS: u64 = 0x10_0000_0000_0000;

/// Whether `a / b` exceeds `c / d` by no more than `k` parts in `2^52`.
pub open spec fn within(a: int, b: int, c: int, d: int, k: int) -> bool {
    a * d * UNIT_PARTS <= c * b * (UNIT_PARTS + k)
}

/// Whether `a / b` and `c / d` exceed each other by no more than `k` parts in `2^52`.
pub open spec fn close(a: int, b: int, c: int, d: int, k: int) -> bool {
    within(a, b, c, d, k) && within(c, d, a, b, k)
}

/// Whether a number is `n / d`, but for `k` parts in `2^52`.
pub open spec fn near(f: Binary64, n: int, d: int, k: int) -> bool {
    close(f.num() as int, f.den() as int, n, d, k)
}

/// More parts allow no less.
pub proof fn lemma_within_more(a: int, b: int, c: int, d: int, k: int, m: int)
    requires
        within(a, b, c, d, k),
        k <= m,
        b >= 0,
        c >= 0,
    ensures
        within(a, b, c, d, m),
{
    let e = UNIT_PARTS as int;
    assert(c * b * (e + k) <= c * b * (e + m)) by (nonlinear_arith)
        requires
            c >= 0,
            b >= 0,
            k <= m,
    ;
}

/// Parts add up, with one more for their product.
proof fn lemma_parts(w: int, k1: int, k2: int)
    requires
        w >= 0,
        0 <= k1 < 1000,
        0 <= k2 < 1000,
    ensures
        w * ((UNIT_PARTS + k1) * (UNIT_PARTS + k2)) <= w * (UNIT_PARTS * (UNIT_PARTS + k1 + k2 + 1)),
{
    let e = UNIT_PARTS as int;
    assert(k1 * k2 <= e) by (nonlinear_arith)
        requires
            0 <= k1 < 1000,
            0 <= k2 < 1000,
            e >= 1000000,
    ;
    let (x, y) = ((e + k1) * (e + k2), e * (e + k1 + k2 + 1));
    assert(x <= y) by (nonlinear_arith)
        requires
            x == (e + k1) * (e + k2),
            y == e * (e + k1 + k2 + 1),
            k1 * k2 <= e,
    ;
    assert(w * x <= w * y) by (nonlinear_arith)
        requires
            w >= 0,
            x <= y,
    ;
}

/// Differences add up along a chain.
proof fn lemma_within_chain(a: int, b: int, c: int, d: int, f: int, g: int, k1: int, k2: int)
    requires
        within(a, b, c, d, k1),
        within(c, d, f, g, k2),
        b >= 0,
        d > 0,
        f >= 0,
        g >= 0,
        0 <= k1 < 1000,
        0 <= k2 < 1000,
    ensures
        within(a, b, f, g, k1 + k2 + 1),
{
    let e = UNIT_PARTS as int;
    let (p, q) = (e + k1, e + k2);
    let (x, y, u, v) = (a * d * e, c * b * p, c * g * e, f * d * q);
    assert(x * (g * e) <= y * (g * e)) by (nonlinear_arith)
        requires
            x <= y,
            g >= 0,
            e > 0,
    ;
    assert(u * (b * p) <= v * (b * p)) by (nonlinear_arith)
        requires
            u <= v,
            b >= 0,
            p > 0,
    ;
    assert(y * (g * e) == u * (b * p)) by (nonlinear_arith)
        requires
            y == c * b * p,
            u == c * g * e,
    ;
    let (l, r) = (a * g * e, f * b);
    assert(x * (g * e) == (l * e) * d) by (nonlinear_arith)
        requires
            x == a * d * e,
            l == a * g * e,
    ;
    assert(v * (b * p) == (r * (p * q)) * d) by (nonlinear_arith)
        requires
            v == f * d * q,
            r == f * b,
    ;
    assert(l * e <= r * (p * q)) by (nonlinear_arith)
        requires
            (l * e) * d <= (r * (p * q)) * d,
            d > 0,
    ;
    assert(r >= 0) by (nonlinear_arith)
        requires
            r == f * b,
            f >= 0,
            b >= 0,
    ;
    lemma_parts(r, k1, k2);
    let s = e + k1 + k2 + 1;
    assert(r * (e * s) == (r * s) * e) by (nonlinear_arith);
    assert(l <= r * s) by (nonlinear_arith)
        requires
            l * e <= (r * s) * e,
            e > 0,
    ;
}

/// Differences of factors add up.
proof fn lemma_within_product(a1: int, b1: int, c1: int, d1: int, k1: int, a2: int, b2: int, c2: int, d2: int, k2: int)
    requires
        within(a1, b1, c1, d1, k1),
        within(a2, b2, c2, d2, k2),
        a1 >= 0,
        a2 >= 0,
        b1 >= 0,
        b2 >= 0,
        c1 >= 0,
        c2 >= 0,
        d1 >= 0,
        d2 >= 0,
        0 <= k1 < 1000,
        0 <= k2 < 1000,
    ensures
        within(a1 * a2, b1 * b2, c1 * c2, d1 * d2, k1 + k2 + 1),
{
    let e = UNIT_PARTS as int;
    let (p, q) = (e + k1, e + k2);
    let (x1, y1, x2, y2) = (a1 * d1, c1 * b1, a2 * d2, c2 * b2);
    assert(x1 >= 0 && x2 >= 0 && y1 >= 0 && y2 >= 0) by (nonlinear_arith)
        requires
            x1 == a1 * d1,
            x2 == a2 * d2,
            y1 == c1 * b1,
            y2 == c2 * b2,
            a1 >= 0,
            a2 >= 0,
            b1 >= 0,
            b2 >= 0,
            c1 >= 0,
            c2 >= 0,
            d1 >= 0,
            d2 >= 0,
    ;
    let (l1, r1, l2, r2) = (x1 * e, y1 * p, x2 * e, y2 * q);
    assert(l1 >= 0 && l2 >= 0) by (nonlinear_arith)
        requires
            l1 == x1 * e,
            l2 == x2 * e,
            x1 >= 0,
            x2 >= 0,
            e > 0,
    ;
    assert(l1 * l2 <= r1 * r2) by (nonlinear_arith)
        requires
            0 <= l1 <= r1,
            0 <= l2 <= r2,
    ;
    let (l, r) = (x1 * x2, y1 * y2);
    assert(l1 * l2 == (l * e) * e) by (nonlinear_arith)
        requires
            l1 == x1 * e,
            l2 == x2 * e,
            l == x1 * x2,
    ;
    assert(r1 * r2 == r * (p * q)) by (nonlinear_arith)
        requires
            r1 == y1 * p,
            r2 == y2 * q,
            r == y1 * y2,
    ;
    assert(r >= 0) by (nonlinear_arith)
        requires
            r == y1 * y2,
            y1 >= 0,
            y2 >= 0,
    ;
    lemma_parts(r, k1, k2);
    let s = e + k1 + k2 + 1;
    assert(r * (e * s) == (r * s) * e) by (nonlinear_arith);
    assert(l * e <= r * s) by (nonlinear_arith)
        requires
            (l * e) * e <= (r * s) * e,
            e > 0,
    ;
    assert((a1 * a2) * (d1 * d2) == l) by (nonlinear_arith)
        requires
            l == (a1 * d1) * (a2 * d2),
    ;
    assert((c1 * c2) * (b1 * b2) == r) by (nonlinear_arith)
        requires
            r == (c1 * b1) * (c2 * b2),
    ;
}

/// A fraction can be written with another denominator.
proof fn lemma_close_expand(a: int, b: int, c: int, d: int, k: int, m: int)
    requires
        close(a, b, c, d, k),
        m >= 0,
    ensures
        close(a, b, c * m, d * m, k),
{
    let e = UNIT_PARTS as int;
    let s = e + k;
    let (x, y, u, v) = (a * d * e, c * b * s, c * b * e, a * d * s);
    assert(a * (d * m) * e == x * m) by (nonlinear_arith)
        requires
            x == a * d * e,
    ;
    assert((c * m) * b * s == y * m) by (nonlinear_arith)
        requires
            y == c * b * s,
    ;
    assert((c * m) * b * e == u * m) by (nonlinear_arith)
        requires
            u == c * b * e,
    ;
    assert(a * (d * m) * s == v * m) by (nonlinear_arith)
        requires
            v == a * d * s,
    ;
    assert(x * m <= y * m && u * m <= v * m) by (nonlinear_arith)
        requires
            x <= y,
            u <= v,
            m >= 0,
    ;
}

/// A sum of fractions with one denominator.
proof fn lemma_within_sum(a1: int, b1: int, a2: int, b2: int, c1: int, c2: int, d: int, k: int)
    requires
        within(a1, b1, c1, d, k),
        within(a2, b2, c2, d, k),
        b1 >= 0,
        b2 >= 0,
    ensures
        within(a1 * b2 + a2 * b1, b1 * b2, c1 + c2, d, k),
{
    let e = UNIT_PARTS as int;
    let s = e + k;
    let (x1, y1, x2, y2) = (a1 * d * e, c1 * b1 * s, a2 * d * e, c2 * b2 * s);
    assert(x1 * b2 <= y1 * b2 && x2 * b1 <= y2 * b1) by (nonlinear_arith)
        requires
            x1 <= y1,
            x2 <= y2,
            b1 >= 0,
            b2 >= 0,
    ;
    let (u, v, w) = (a1 * b2, a2 * b1, d * e);
    assert((u + v) * d * e == u * w + v * w) by (nonlinear_arith)
        requires
            w == d * e,
    ;
    assert(u * w == x1 * b2) by (nonlinear_arith)
        requires
            u == a1 * b2,
            w == d * e,
            x1 == a1 * d * e,
    ;
    assert(v * w == x2 * b1) by (nonlinear_arith)
        requires
            v == a2 * b1,
            w == d * e,
            x2 == a2 * d * e,
    ;
    let z = b1 * b2 * s;
    assert((c1 + c2) * (b1 * b2) * s == c1 * z + c2 * z) by (nonlinear_arith)
        requires
            z == b1 * b2 * s,
    ;
    assert(c1 * z == y1 * b2) by (nonlinear_arith)
        requires
            z == b1 * b2 * s,
            y1 == c1 * b1 * s,
    ;
    assert(c2 * z == y2 * b1) by (nonlinear_arith)
        requires
            z == b1 * b2 * s,
            y2 == c2 * b2 * s,
    ;
}

/// The same for fractions that are bounded from below.
proof fn lemma_within_sum_below(a1: int, b1: int, a2: int, b2: int, c1: int, c2: int, d: int, k: int)
    requires
        within(c1, d, a1, b1, k),
        within(c2, d, a2, b2, k),
        b1 >= 0,
        b2 >= 0,
    ensures
        within(c1 + c2, d, a1 * b2 + a2 * b1, b1 * b2, k),
{
    let e = UNIT_PARTS as int;
    let s = e + k;
    let (x1, y1, x2, y2) = (c1 * b1 * e, a1 * d * s, c2 * b2 * e, a2 * d * s);
    assert(x1 * b2 <= y1 * b2 && x2 * b1 <= y2 * b1) by (nonlinear_arith)
        requires
            x1 <= y1,
            x2 <= y2,
            b1 >= 0,
            b2 >= 0,
    ;
    let z = b1 * b2 * e;
    assert((c1 + c2) * (b1 * b2) * e == c1 * z + c2 * z) by (nonlinear_arith)
        requires
            z == b1 * b2 * e,
    ;
    assert(c1 * z == x1 * b2) by (nonlinear_arith)
        requires
            z == b1 * b2 * e,
            x1 == c1 * b1 * e,
    ;
    assert(c2 * z == x2 * b1) by (nonlinear_arith)
        requires
            z == b1 * b2 * e,
            x2 == c2 * b2 * e,
    ;
    let (u, v, w) = (a1 * b2, a2 * b1, d * s);
    assert((u + v) * d * s == u * w + v * w) by (nonlinear_arith)
        requires
            w == d * s,
    ;
    assert(u * w == y1 * b2) by (nonlinear_arith)
        requires
            u == a1 * b2,
            w == d * s,
            y1 == a1 * d * s,
    ;
    assert(v * w == y2 * b1) by (nonlinear_arith)
        requires
            v == a2 * b1,
            w == d * s,
            y2 == a2 * d * s,
    ;
}

/// Rounding moves a value by no more than one part.
proof fn lemma_rounding_near(f: Binary64, num: nat, den: nat)
    requires
        den > 0,
        float::is_nearest(f, num, den),
    ensures
        near(f, num as int, den as int, 1),
        f.den() > 0,
{
    lemma2_to64_rest();
    lemma_pow2_pos(float::down(f.exp as int));
    float::lemma_rounding_above(f, num, den);
    float::lemma_rounding_below(f, num, den);
    let e = UNIT_PARTS as int;
    let (x, y) = (f.num() * den, num * f.den());
    assert(x >= 0 && y >= 0) by (nonlinear_arith)
        requires
            x == f.num() * den,
            y == num * f.den(),
    ;
    assert(x * e <= y * (e + 1)) by (nonlinear_arith)
        requires
            x * (2 * e) <= y * (2 * e + 1),
            y >= 0,
    ;
    assert(y * e <= x * (e + 1)) by (nonlinear_arith)
        requires
            y * (2 * e - 1) <= x * (2 * e),
            e == 0x10_0000_0000_0000,
            x >= 0,
    ;
}

/// Rounding a ratio that is close to a fraction.
proof fn lemma_rounding_of_close(f: Binary64, num: nat, den: nat, n: int, d: int, k: int)
    requires
        den > 0,
        float::is_nearest(f, num, den),
        close(num as int, den as int, n, d, k),
        n >= 0,
        d >= 0,
        0 <= k < 1000,
    ensures
        near(f, n, d, k + 2),
        f.den() > 0,
{
    lemma_rounding_near(f, num, den);
    let (x, y) = (f.num() as int, f.den() as int);
    lemma_within_chain(x, y, num as int, den as int, n, d, 1, k);
    lemma_within_chain(n, d, num as int, den as int, x, y, k, 1);
}

/// More parts allow no less.
pub proof fn lemma_near_more(f: Binary64, n: int, d: int, k: int, m: int)
    requires
        near(f, n, d, k),
        k <= m,
        n >= 0,
        d >= 0,
    ensures
        near(f, n, d, m),
{
    lemma_within_more(f.num() as int, f.den() as int, n, d, k, m);
    lemma_within_more(n, d, f.num() as int, f.den() as int, k, m);
}

/// A number that is near a fraction is near it written with another denominator.
pub proof fn lemma_near_expand(f: Binary64, n: int, d: int, k: int, m: int)
    requires
        near(f, n, d, k),
        m >= 0,
    ensures
        near(f, n * m, d * m, k),
{
    lemma_close_expand(f.num() as int, f.den() as int, n, d, k, m);
}

/// The rounding of a ratio is near it.
pub proof fn lemma_near_ratio(num: nat, den: nat)
    requires
        0 < num <= u64::MAX,
        0 < den <= u64::MAX,
    ensures
        near(float::rounded_ratio(num, den), num as int, den as int, 1),
{
    float::lemma_ratio_rounding(num, den);
    lemma_rounding_near(float::rounded_ratio(num, den), num, den);
}

/// The rounding of an integer is near it.
pub proof fn lemma_near_integer(n: nat)
    requires
        n <= u64::MAX,
    ensures
        near(figures::integer(n), n as int, 1, 1),
        figures::integer(n).wf(),
        figures::integer(n).mant == 0 <==> n == 0,
        n > 0 ==> 0 <= figures::integer(n).log() <= 64,
{
    float::lemma_integer_rounding(n);
    lemma_rounding_near(figures::integer(n), n, 1);
}

/// A rounded product is near the product.
pub proof fn lemma_near_product(x: Binary64, y: Binary64, n1: int, d1: int, k1: int, n2: int, d2: int, k2: int)
    requires
        x.wf(),
        y.wf(),
        x.mant != 0 && y.mant != 0 ==> -1100 <= x.log() + y.log() <= 1100,
        near(x, n1, d1, k1),
        near(y, n2, d2, k2),
        n1 >= 0,
        n2 >= 0,
        d1 >= 0,
        d2 >= 0,
        0 <= k1 < 100,
        0 <= k2 < 100,
    ensures
        near(float::product(x, y), n1 * n2, d1 * d2, k1 + k2 + 3),
{
    float::lemma_product_in_range(x, y);
    let (a, b, c, e) = (x.num() as int, x.den() as int, y.num() as int, y.den() as int);
    lemma_within_product(a, b, n1, d1, k1, c, e, n2, d2, k2);
    lemma_within_product(n1, d1, a, b, k1, n2, d2, c, e, k2);
    assert(n1 * n2 >= 0 && d1 * d2 >= 0) by (nonlinear_arith)
        requires
            n1 >= 0,
            n2 >= 0,
            d1 >= 0,
            d2 >= 0,
    ;
    lemma_rounding_of_close(
        float::product(x, y),
        x.num() * y.num(),
        x.den() * y.den(),
        n1 * n2,
        d1 * d2,
        k1 + k2 + 1,
    );
}

/// A rounded quotient is near the quotient.
pub proof fn lemma_near_quotient(x: Binary64, y: Binary64, n1: int, d1: int, k1: int, n2: int, d2: int, k2: int)
    requires
        x.wf(),
        y.wf(),
        y.mant != 0,
        x.mant != 0 ==> -1100 <= x.log() - y.log() <= 1100,
        near(x, n1, d1, k1),
        near(y, n2, d2, k2),
        n1 >= 0,
        n2 >= 0,
        d1 >= 0,
        d2 >= 0,
        0 <= k1 < 100,
        0 <= k2 < 100,
    ensures
        near(float::quotient(x, y), n1 * d2, d1 * n2, k1 + k2 + 3),
{
    float::lemma_quotient_in_range(x, y);
    let (a, b, c, e) = (x.num() as int, x.den() as int, y.num() as int, y.den() as int);
    assert(within(e, c, d2, n2, k2) && within(d2, n2, e, c, k2)) by {
        lemma_turned(c, e, n2, d2, k2);
    }
    lemma_within_product(a, b, n1, d1, k1, e, c, d2, n2, k2);
    lemma_within_product(n1, d1, a, b, k1, d2, n2, e, c, k2);
    assert(n1 * d2 >= 0 && d1 * n2 >= 0) by (nonlinear_arith)
        requires
            n1 >= 0,
            n2 >= 0,
            d1 >= 0,
            d2 >= 0,
    ;
    lemma_rounding_of_close(
        float::quotient(x, y),
        x.num() * y.den(),
        x.den() * y.num(),
        n1 * d2,
        d1 * n2,
        k1 + k2 + 1,
    );
}

/// Fractions that are close stay so when they are turned over.
proof fn lemma_turned(a: int, b: int, c: int, d: int, k: int)
    requires
        close(a, b, c, d, k),
    ensures
        close(b, a, d, c, k),
{
    let e = UNIT_PARTS as int;
    assert(b * c == c * b && d * a == a * d) by (nonlinear_arith);
}

/// A rounded sum is near the sum.
pub proof fn lemma_near_sum(x: Binary64, y: Binary64, n1: int, n2: int, d: int, k: int)
    requires
        x.finite(),
        y.finite(),
        near(x, n1, d, k),
        near(y, n2, d, k),
        n1 >= 0,
        n2 >= 0,
        d >= 0,
        0 <= k < 100,
    ensures
        near(float::sum(x, y), n1 + n2, d, k + 2),
{
    float::lemma_sum_of_finite(x, y);
    let (a, b, c, e) = (x.num() as int, x.den() as int, y.num() as int, y.den() as int);
    lemma_within_sum(a, b, c, e, n1, n2, d, k);
    lemma_within_sum_below(a, b, c, e, n1, n2, d, k);
    lemma_rounding_of_close(float::sum(x, y), float::sum_num(x, y), x.den() * y.den(), n1 + n2, d, k);
}

/// A rounded difference is near the difference.
pub proof fn lemma_near_difference(x: Binary64, y: Binary64)
    requires
        x.wf(),
        y.wf(),
        !x.less(y),
    ensures
        near(
            float::difference(x, y),
            x.num() * y.den() - y.num() * x.den(),
            (x.den() * y.den()) as int,
            1,
        ),
{
    float::lemma_difference_nearest(x, y);
    lemma_rounding_near(
        float::difference(x, y),
        (x.num() * y.den() - y.num() * x.den()) as nat,
        x.den() * y.den(),
    );
}

/// Numbers in order stand for fractions in order, but for some parts.
pub proof fn lemma_near_order(x: Binary64, y: Binary64, n1: int, d1: int, k1: int, n2: int, d2: int, k2: int)
    requires
        x.wf(),
        y.wf(),
        !y.less(x),
        near(x, n1, d1, k1),
        near(y, n2, d2, k2),
        n1 >= 0,
        n2 >= 0,
        d1 >= 0,
        d2 >= 0,
        0 <= k1 < 100,
        0 <= k2 < 100,
    ensures
        within(n1, d1, n2, d2, k1 + k2 + 2),
{
    let (a, b, c, e) = (x.num() as int, x.den() as int, y.num() as int, y.den() as int);
    lemma_pow2_pos(float::down(x.exp as int));
    lemma_pow2_pos(float::down(y.exp as int));
    let m = UNIT_PARTS as int;
    assert(a * e * m <= c * b * (m + 0)) by (nonlinear_arith)
        requires
            a * e <= c * b,
            m > 0,
    ;
    lemma_within_chain(n1, d1, a, b, c, e, k1, 0);
    lemma_within_chain(n1, d1, c, e, n2, d2, k1 + 1, k2);
}

} // verus!
