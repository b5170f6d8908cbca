//! What a shaper hands out over many ticks.
//!
//! Each operation on tokens is rounded, so that they can exceed what the limit allows by a tiny part. This
//! module bounds that part.

use vstd::arithmetic::power::*;
use vstd::arithmetic::power2::*;
use vstd::prelude::*;

use crate::figures;
use crate::figures::Duration;
use crate::float;
use crate::float::Binary64;
use crate::sampler;
use crate::shaper::Shaper;

verus! {

/// `2^53`: rounding raises a number by no more than one part in so many.
pub const PARTS: u64 = 0x20_0000_0000_0000;

/// Nanoseconds in a second.
pub open spec fn second() -> int {
    figures::NANOS_PER_SEC as int
}

/// Whether a number is at most `n / d`, but for what `k` roundings can add.
pub open spec fn bounded(f: Binary64, n: int, d: int, k: nat) -> bool {
    f.num() * d * pow(PARTS as int, k) <= n * f.den() * pow(PARTS + 1, k)
}

/// Rounding a ratio that is at most `n / d`, but for some roundings, adds one to them.
proof fn lemma_compose(f: Binary64, num: nat, den: nat, n: int, d: int, k: nat)
    requires
        den > 0,
        n >= 0,
        d >= 0,
        float::is_nearest(f, num, den),
        num * d * pow(PARTS as int, k) <= n * den * pow(PARTS + 1, k),
    ensures
        bounded(f, n, d, k + 1),
{
    lemma2_to64_rest();
    float::lemma_rounding_above(f, num, den);
    let (a, b) = (PARTS as int, PARTS + 1);
    let (p, q) = (pow(a, k), pow(b, k));
    lemma_pow_positive(a, k);
    lemma_pow_positive(b, k);
    lemma_pow_adds(a, k, 1);
    lemma_pow_adds(b, k, 1);
    lemma_pow1(a);
    lemma_pow1(b);
    lemma_pow2_pos(float::down(f.exp as int));
    let (x, y) = (f.num() as int, f.den() as int);
    assert(x * den * a * (d * p) <= num * y * b * (d * p)) by (nonlinear_arith)
        requires
            x * den * a <= num * y * b,
            d >= 0,
            p > 0,
    ;
    assert((num * d * p) * (y * b) <= (n * den * q) * (y * b)) by (nonlinear_arith)
        requires
            num * d * p <= n * den * q,
            y > 0,
            b > 0,
    ;
    assert(num * y * b * (d * p) == (num * d * p) * (y * b)) by (nonlinear_arith);
    assert(x * den * a * (d * p) == (x * d * (p * a)) * den) by (nonlinear_arith);
    assert((n * den * q) * (y * b) == (n * y * (q * b)) * den) by (nonlinear_arith);
    assert(x * d * (p * a) <= n * y * (q * b)) by (nonlinear_arith)
        requires
            (x * d * (p * a)) * den <= (n * y * (q * b)) * den,
            den > 0,
    ;
}

/// A bound holds with more roundings too.
proof fn lemma_weaken(f: Binary64, n: int, d: int, k: nat)
    requires
        n >= 0,
        bounded(f, n, d, k),
    ensures
        bounded(f, n, d, k + 1),
{
    let (a, b) = (PARTS as int, PARTS + 1);
    let (p, q) = (pow(a, k), pow(b, k));
    lemma_pow_positive(b, k);
    lemma_pow_adds(a, k, 1);
    lemma_pow_adds(b, k, 1);
    lemma_pow1(a);
    lemma_pow1(b);
    let (x, y) = (f.num() as int, f.den() as int);
    assert(x * d * p * a <= n * y * q * a) by (nonlinear_arith)
        requires
            x * d * p <= n * y * q,
            a > 0,
    ;
    assert(n * y * q * a <= n * y * q * b) by (nonlinear_arith)
        requires
            n >= 0,
            y >= 0,
            q > 0,
            a <= b,
    ;
    assert(x * d * p * a == x * d * (p * a)) by (nonlinear_arith);
    assert(n * y * q * b == n * y * (q * b)) by (nonlinear_arith);
}

/// A bound can be written with another denominator.
proof fn lemma_expand(f: Binary64, n: int, d: int, k: nat, c: int)
    requires
        c >= 0,
        bounded(f, n, d, k),
    ensures
        bounded(f, n * c, d * c, k),
{
    let (p, q) = (pow(PARTS as int, k), pow(PARTS + 1, k));
    let (x, y) = (f.num() as int, f.den() as int);
    assert(x * (d * c) * p == (x * d * p) * c) by (nonlinear_arith);
    assert((n * c) * y * q == (n * y * q) * c) by (nonlinear_arith);
    assert((x * d * p) * c <= (n * y * q) * c) by (nonlinear_arith)
        requires
            x * d * p <= n * y * q,
            c >= 0,
    ;
}

/// The rounding of an integer.
proof fn lemma_bounded_integer(n: nat)
    requires
        n <= u64::MAX,
    ensures
        bounded(figures::integer(n), n as int, 1, 1),
{
    float::lemma_integer_rounding(n);
    lemma_pow0(PARTS as int);
    lemma_pow0(PARTS + 1);
    lemma_compose(figures::integer(n), n, 1, n as int, 1, 0);
}

/// The rounded sum of two bounded numbers.
proof fn lemma_bounded_sum(x: Binary64, y: Binary64, n1: int, n2: int, d: int, k: nat)
    requires
        x.finite(),
        y.finite(),
        n1 >= 0,
        n2 >= 0,
        d >= 0,
        bounded(x, n1, d, k),
        bounded(y, n2, d, k),
    ensures
        bounded(float::sum(x, y), n1 + n2, d, k + 1),
{
    float::lemma_sum_of_finite(x, y);
    let (p, q) = (pow(PARTS as int, k), pow(PARTS + 1, k));
    let (a, b, c, e) = (x.num() as int, x.den() as int, y.num() as int, y.den() as int);
    assert((a * e + c * b) * d * p <= (n1 + n2) * (b * e) * q) by {
        assert((a * d * p) * e <= (n1 * b * q) * e) by (nonlinear_arith)
            requires
                a * d * p <= n1 * b * q,
                e >= 0,
        ;
        assert((c * d * p) * b <= (n2 * e * q) * b) by (nonlinear_arith)
            requires
                c * d * p <= n2 * e * q,
                b >= 0,
        ;
        let (g, h, i, j) = (a * e, c * b, d * p, b * e * q);
        assert((g + h) * d * p == g * i + h * i) by (nonlinear_arith)
            requires
                i == d * p,
        ;
        assert(g * i == (a * d * p) * e) by (nonlinear_arith)
            requires
                g == a * e,
                i == d * p,
        ;
        assert(h * i == (c * d * p) * b) by (nonlinear_arith)
            requires
                h == c * b,
                i == d * p,
        ;
        assert((n1 + n2) * (b * e) * q == n1 * j + n2 * j) by (nonlinear_arith)
            requires
                j == b * e * q,
        ;
        assert(n1 * j == (n1 * b * q) * e) by (nonlinear_arith)
            requires
                j == b * e * q,
        ;
        assert(n2 * j == (n2 * e * q) * b) by (nonlinear_arith)
            requires
                j == b * e * q,
        ;
    }
    lemma_compose(float::sum(x, y), float::sum_num(x, y), x.den() * y.den(), n1 + n2, d, k);
}

/// The rounded product of two bounded numbers.
proof fn lemma_bounded_product(x: Binary64, y: Binary64, n1: int, d1: int, k1: nat, n2: int, d2: int, k2: nat)
    requires
        x.wf(),
        y.wf(),
        x.mant != 0 && y.mant != 0 ==> -1100 <= x.log() + y.log() <= 1100,
        n1 >= 0,
        n2 >= 0,
        d1 >= 0,
        d2 >= 0,
        bounded(x, n1, d1, k1),
        bounded(y, n2, d2, k2),
    ensures
        bounded(float::product(x, y), n1 * n2, d1 * d2, k1 + k2 + 1),
{
    float::lemma_product_in_range(x, y);
    let (r, s) = (PARTS as int, PARTS + 1);
    lemma_pow_adds(r, k1, k2);
    lemma_pow_adds(s, k1, k2);
    lemma_pow_positive(r, k1);
    lemma_pow_positive(r, k2);
    let (p1, q1, p2, q2) = (pow(r, k1), pow(s, k1), pow(r, k2), pow(s, k2));
    let (a, b, c, e) = (x.num() as int, x.den() as int, y.num() as int, y.den() as int);
    let (u, v, w, z) = (a * d1 * p1, n1 * b * q1, c * d2 * p2, n2 * e * q2);
    assert(0 <= u && 0 <= w) by (nonlinear_arith)
        requires
            u == a * d1 * p1,
            w == c * d2 * p2,
            a >= 0,
            c >= 0,
            d1 >= 0,
            d2 >= 0,
            p1 > 0,
            p2 > 0,
    ;
    assert(u * w <= v * z) by (nonlinear_arith)
        requires
            0 <= u <= v,
            0 <= w <= z,
    ;
    assert((a * c) * (d1 * d2) * (p1 * p2) == (a * d1 * p1) * (c * d2 * p2)) by (nonlinear_arith);
    assert((n1 * n2) * (b * e) * (q1 * q2) == (n1 * b * q1) * (n2 * e * q2)) by (nonlinear_arith);
    assert(n1 * n2 >= 0 && d1 * d2 >= 0) by (nonlinear_arith)
        requires
            n1 >= 0,
            n2 >= 0,
            d1 >= 0,
            d2 >= 0,
    ;
    lemma_compose(
        float::product(x, y),
        x.num() * y.num(),
        x.den() * y.den(),
        n1 * n2,
        d1 * d2,
        k1 + k2,
    );
}

/// The rounded quotient of a bounded number and an integer that is represented exactly.
proof fn lemma_bounded_quotient(x: Binary64, c: nat, n: int, d: int, k: nat)
    requires
        x.wf(),
        0 < c < pow2(53),
        x.mant != 0 ==> -500 <= x.log() <= 500,
        n >= 0,
        d >= 0,
        bounded(x, n, d, k),
    ensures
        bounded(float::quotient(x, figures::integer(c)), n, d * c, k + 1),
{
    let y = figures::integer(c);
    lemma2_to64_rest();
    float::lemma_integer_rounding(c);
    float::lemma_small_integer(c);
    float::lemma_quotient_in_range(x, y);
    let (p, q) = (pow(PARTS as int, k), pow(PARTS + 1, k));
    let (a, b, e) = (x.num() as int, x.den() as int, y.den() as int);
    let w = e * c;
    assert((a * e) * (d * c) * p == (a * d * p) * w) by (nonlinear_arith)
        requires
            w == e * c,
    ;
    assert(n * (b * (c * e)) * q == (n * b * q) * w) by (nonlinear_arith)
        requires
            w == e * c,
    ;
    assert((a * d * p) * w <= (n * b * q) * w) by (nonlinear_arith)
        requires
            a * d * p <= n * b * q,
            w == e * c,
            e >= 0,
            c >= 0,
    ;
    assert(d * c >= 0) by (nonlinear_arith)
        requires
            d >= 0,
            c >= 0,
    ;
    lemma_compose(float::quotient(x, y), x.num() * y.den(), x.den() * y.num(), n, d * c, k);
}

/// The length of a span in seconds, and its range.
proof fn lemma_seconds(nanos: nat)
    requires
        nanos <= u64::MAX,
    ensures
        ({
            let s = sampler::span(nanos).seconds();
            &&& s.wf()
            &&& s.mant == 0 <==> nanos == 0
            &&& s.mant != 0 ==> -40 <= s.log() <= 100
            &&& bounded(s, nanos as int, second(), 3)
        }),
{
    let d: Duration = sampler::span(nanos);
    let (whole, part) = (d.secs as nat, d.nanos as nat);
    vstd::arithmetic::div_mod::lemma_fundamental_div_mod(nanos as int, second());
    assert(nanos == whole * 1000000000 + part);
    let (x, y, z) = (figures::integer(whole), figures::integer(part), figures::integer(1000000000));
    lemma2_to64();
    lemma2_to64_rest();
    float::lemma_integer_rounding(whole);
    float::lemma_integer_rounding(part);
    float::lemma_integer_rounding(1000000000);
    lemma_bounded_integer(whole);
    lemma_bounded_integer(part);
    lemma_bounded_quotient(y, 1000000000, part as int, 1, 1);
    float::lemma_integer_log(1000000000, 29, 30);
    float::lemma_quotient_in_range(y, z);
    let q = float::quotient(y, z);
    lemma_weaken(x, whole as int, 1, 1);
    lemma_expand(x, whole as int, 1, 2, second());
    lemma_bounded_sum(x, q, whole * second(), part as int, second(), 2);
    float::lemma_sum_of_finite(x, q);
    let s = float::sum(x, q);
    if s.mant != 0 {
        lemma_sum_top(x, q);
    }
}

/// A sum of small numbers is not large.
proof fn lemma_sum_top(x: Binary64, y: Binary64)
    requires
        x.finite(),
        y.finite(),
        x.mant != 0 ==> x.log() <= 90,
        y.mant != 0 ==> y.log() <= 90,
    ensures
        float::sum(x, y).mant != 0 ==> float::sum(x, y).log() <= 92,
{
    float::lemma_sum_of_finite(x, y);
    if x.mant != 0 && y.mant != 0 {
        float::lemma_sum_commutes(x, y);
        if x.exp <= y.exp {
            float::lemma_sum_in_range(x, y);
        } else {
            float::lemma_sum_in_range(y, x);
        }
    }
}

/// The tokens that come in within a span, and their range.
proof fn lemma_refill(s: Shaper, now: u64, limit: u64)
    requires
        s.prev_ts <= now,
    ensures
        s.refill(now, limit).finite(),
        now == s.prev_ts ==> s.refill(now, limit).mant == 0,
        s.refill(now, limit).mant != 0 ==> -40 <= s.refill(now, limit).log() <= 200,
        bounded(s.refill(now, limit), limit * (now - s.prev_ts), second(), 5),
{
    let nanos = (now - s.prev_ts) as nat;
    let (x, y) = (figures::integer(limit as nat), sampler::span(nanos).seconds());
    lemma_seconds(nanos);
    float::lemma_integer_rounding(limit as nat);
    lemma_bounded_integer(limit as nat);
    float::lemma_product_in_range(x, y);
    lemma_bounded_product(x, y, limit as int, 1, 1, nanos as int, second(), 3);
}

/// `2^1300`, a power of two of which every representable number is a fraction.
spec fn grain() -> nat {
    pow2(1300)
}

/// A number in units of `2^-1300`.
spec fn units(f: Binary64) -> nat {
    f.mant as nat * pow2((f.exp + 1300) as nat)
}

proof fn lemma_units(f: Binary64)
    requires
        f.wf(),
    ensures
        f.num() * grain() == units(f) * f.den(),
        f.den() > 0,
        grain() > 0,
{
    let (u, d, e) = (pow2(float::up(f.exp as int)), f.den(), pow2((f.exp + 1300) as nat));
    lemma_pow2_pos(float::down(f.exp as int));
    lemma_pow2_pos(1300);
    lemma_pow2_adds(float::up(f.exp as int), 1300);
    lemma_pow2_adds((f.exp + 1300) as nat, float::down(f.exp as int));
    let m = f.mant as nat;
    assert(m * u * grain() == m * e * d) by (nonlinear_arith)
        requires
            u * grain() == e * d,
    ;
}

/// A bound in units.
proof fn lemma_units_bounded(f: Binary64, n: int, d: int, k: nat)
    requires
        f.wf(),
        bounded(f, n, d, k),
    ensures
        units(f) * d * pow(PARTS as int, k) <= n * grain() * pow(PARTS + 1, k),
{
    lemma_units(f);
    let (p, q, g) = (pow(PARTS as int, k), pow(PARTS + 1, k), grain() as int);
    let (x, y, u) = (f.num() as int, f.den() as int, units(f) as int);
    assert((x * d * p) * g <= (n * y * q) * g) by (nonlinear_arith)
        requires
            x * d * p <= n * y * q,
            g > 0,
    ;
    assert((x * d * p) * g == (x * g) * (d * p)) by (nonlinear_arith);
    assert((u * y) * (d * p) == (u * d * p) * y) by (nonlinear_arith);
    assert((n * y * q) * g == (n * g * q) * y) by (nonlinear_arith);
    assert(u * d * p <= n * g * q) by (nonlinear_arith)
        requires
            (u * d * p) * y <= (n * g * q) * y,
            y > 0,
    ;
}

/// A rounded sum in units.
proof fn lemma_units_sum(x: Binary64, y: Binary64)
    requires
        x.finite(),
        y.finite(),
    ensures
        units(float::sum(x, y)) * PARTS <= (units(x) + units(y)) * (PARTS + 1),
{
    let t = float::sum(x, y);
    lemma2_to64_rest();
    float::lemma_sum_of_finite(x, y);
    float::lemma_rounding_above(t, float::sum_num(x, y), x.den() * y.den());
    lemma_units(x);
    lemma_units(y);
    lemma_units(t);
    let (a, b, r, s) = (PARTS as int, PARTS + 1, units(x) + units(y), units(t) as int);
    let (xn, xd, yn, yd, tn, td, g) = (
        x.num() as int,
        x.den() as int,
        y.num() as int,
        y.den() as int,
        t.num() as int,
        t.den() as int,
        grain() as int,
    );
    let w = xd * yd;
    let m = xn * yd + yn * xd;
    assert(m * g == r * w) by {
        assert(m * g == (xn * g) * yd + (yn * g) * xd) by (nonlinear_arith)
            requires
                m == xn * yd + yn * xd,
        ;
        assert((units(x) * xd) * yd == units(x) * w) by (nonlinear_arith)
            requires
                w == xd * yd,
        ;
        assert((units(y) * yd) * xd == units(y) * w) by (nonlinear_arith)
            requires
                w == xd * yd,
        ;
        assert(units(x) * w + units(y) * w == r * w) by (nonlinear_arith)
            requires
                r == units(x) + units(y),
        ;
    }
    assert((tn * w * a) * g <= (m * td * b) * g) by (nonlinear_arith)
        requires
            tn * w * a <= m * td * b,
            g > 0,
    ;
    assert((tn * w * a) * g == (tn * g) * (w * a)) by (nonlinear_arith);
    assert((m * td * b) * g == (m * g) * (td * b)) by (nonlinear_arith);
    let z = td * w;
    assert(z > 0) by (nonlinear_arith)
        requires
            z == td * w,
            td > 0,
            w > 0,
    ;
    assert((s * td) * (w * a) == (s * a) * z) by (nonlinear_arith)
        requires
            z == td * w,
    ;
    assert((r * w) * (td * b) == (r * b) * z) by (nonlinear_arith)
        requires
            z == td * w,
    ;
    assert(s * a <= r * b) by (nonlinear_arith)
        requires
            (s * a) * z <= (r * b) * z,
            z > 0,
    ;
}

/// The smaller of two numbers in units.
proof fn lemma_units_smaller(x: Binary64, y: Binary64)
    requires
        x.wf(),
        y.wf(),
    ensures
        units(float::smaller(x, y)) <= units(x),
{
    lemma_units(x);
    lemma_units(y);
    if y.less(x) {
        let (xn, xd, yn, yd, g) = (x.num() as int, x.den() as int, y.num() as int, y.den() as int, grain() as int);
        let (u, v, z) = (units(x) as int, units(y) as int, xd * yd);
        assert((yn * xd) * g <= (xn * yd) * g) by (nonlinear_arith)
            requires
                yn * xd < xn * yd,
                g > 0,
        ;
        assert((yn * xd) * g == (yn * g) * xd) by (nonlinear_arith);
        assert((xn * yd) * g == (xn * g) * yd) by (nonlinear_arith);
        assert((v * yd) * xd == v * z && (u * xd) * yd == u * z && z > 0) by (nonlinear_arith)
            requires
                z == xd * yd,
                xd > 0,
                yd > 0,
        ;
        assert(v <= u) by (nonlinear_arith)
            requires
                v * z <= u * z,
                z > 0,
        ;
    }
}

/// The integer part and the rest of a number in units.
proof fn lemma_units_parts(a: Binary64, l: Binary64, n: int)
    requires
        a.wf(),
        l.wf(),
        l.num() < l.den(),
        l.num() * a.den() + n * a.den() * l.den() <= a.num() * l.den(),
    ensures
        n * grain() + units(l) <= units(a),
        units(l) <= grain(),
{
    lemma_units(a);
    lemma_units(l);
    let (an, ad, ln, ld, g) = (a.num() as int, a.den() as int, l.num() as int, l.den() as int, grain() as int);
    let (u, v, z) = (units(a) as int, units(l) as int, ad * ld);
    assert((ln * ad + n * ad * ld) * g <= (an * ld) * g) by (nonlinear_arith)
        requires
            ln * ad + n * ad * ld <= an * ld,
            g > 0,
    ;
    let (i, j) = (ln * ad, n * ad * ld);
    assert((i + j) * g == i * g + j * g) by (nonlinear_arith);
    assert(i * g == (ln * g) * ad) by (nonlinear_arith)
        requires
            i == ln * ad,
    ;
    assert(j * g == (n * g) * z) by (nonlinear_arith)
        requires
            j == n * ad * ld,
            z == ad * ld,
    ;
    assert((an * ld) * g == (an * g) * ld) by (nonlinear_arith);
    assert((v * ld) * ad == v * z && (u * ad) * ld == u * z && z > 0) by (nonlinear_arith)
        requires
            z == ad * ld,
            ad > 0,
            ld > 0,
    ;
    assert(n * g + v <= u) by (nonlinear_arith)
        requires
            v * z + (n * g) * z <= u * z,
            z > 0,
    ;
    assert(v <= g) by (nonlinear_arith)
        requires
            v * ld == ln * g,
            ln < ld,
            ld > 0,
            g > 0,
    ;
}

/// A number with a small integer part in units.
proof fn lemma_units_below(a: Binary64, b: u64)
    requires
        a.wf(),
        a.truncated() < b,
    ensures
        units(a) <= b * grain(),
{
    lemma_units(a);
    let (n, d, g) = (a.num() as int, a.den() as int, grain() as int);
    let u = units(a) as int;
    assert(n <= b * d) by (nonlinear_arith)
        requires
            n / d < b,
            d > 0,
    ;
    assert(u * d <= (b * g) * d) by (nonlinear_arith)
        requires
            u * d == n * g,
            n <= b * d,
            g > 0,
    ;
    assert(u <= b * g) by (nonlinear_arith)
        requires
            u * d <= (b * g) * d,
            d > 0,
    ;
}

/// The shaper, and the number of tokens handed out, after ticks at the given moments, each followed by the
/// consumption of all the tokens that it made available.
pub open spec fn handed_out(s: Shaper, moments: Seq<u64>, limit: u64) -> (Shaper, nat)
    decreases moments.len(),
{
    if moments.len() == 0 {
        (s, 0)
    } else {
        let (before, total) = handed_out(s, moments.drop_last(), limit);
        let (ticked, n) = before.ticked(moments.last(), limit);
        (ticked.consumed(n), total + n as nat)
    }
}

/// Whether a shaper is in a state that ticks and full consumption keep it in.
spec fn is_calm(s: Shaper) -> bool {
    &&& !s.owed
    &&& s.tokens.wf()
    &&& s.tokens.mant != 0 ==> -95 <= s.tokens.log() <= 64
    &&& units(s.tokens) <= (s.burst_size + 1) * grain()
}

/// A number with an integer part below the largest is not above the rounding of the largest.
proof fn lemma_below_top(t: Binary64)
    requires
        t.wf(),
        t.truncated() < u64::MAX,
    ensures
        !figures::integer(u64::MAX as nat).less(t),
{
    float::lemma_exact(t);
    float::lemma_integer_rounding(u64::MAX as nat);
    lemma_pow2_pos(float::down(t.exp as int));
    let (n, d) = (t.num(), t.den());
    assert(n * 1 <= u64::MAX * d) by (nonlinear_arith)
        requires
            n / d < u64::MAX,
            d > 0,
    ;
    float::lemma_rounding_monotone(n, d, u64::MAX as nat, 1);
}

/// What one tick and the consumption of all its tokens does, in units.
proof fn lemma_round(s: Shaper, now: u64, limit: u64)
    requires
        is_calm(s),
        s.prev_ts <= now,
    ensures
        ({
            let (ticked, n) = s.ticked(now, limit);
            let after = ticked.consumed(n);
            &&& is_calm(after)
            &&& after.prev_ts == now
            &&& after.burst_size == s.burst_size
            &&& (n * grain() + units(after.tokens)) * PARTS <= (units(s.tokens) + units(s.refill(now, limit))) * (PARTS
                + 1)
            &&& after.tokens.truncated() == 0 || after.tokens.truncated() < after.burst_size
        }),
{
    let more = s.refill(now, limit);
    lemma_refill(s, now, limit);
    let t = float::sum(s.tokens, more);
    float::lemma_sum_of_finite(s.tokens, more);
    lemma_units_sum(s.tokens, more);
    let rate = figures::integer(limit as nat);
    float::lemma_integer_rounding(limit as nat);
    let top = figures::integer(u64::MAX as nat);
    float::lemma_integer_rounding(u64::MAX as nat);
    assert(limit * 1 <= u64::MAX * 1);
    float::lemma_rounding_monotone(limit as nat, 1, u64::MAX as nat, 1);
    let (ticked, n) = s.ticked(now, limit);
    let a = ticked.tokens;
    assert(a.wf() && (a.mant != 0 ==> -95 <= a.log() <= 64) && !top.less(a) && units(a) <= units(t)) by {
        lemma_units_smaller(t, rate);
        float::lemma_less(rate, t);
        float::lemma_less(top, a);
        float::lemma_less(top, rate);
        if t.truncated() < s.burst_size {
            t.lemma_uncapped_log();
            lemma_below_top(t);
        }
    }
    if t.truncated() < s.burst_size {
        // Nothing is handed out, and the tokens stay.
        float::lemma_zero_difference(a);
        lemma_units_below(a, s.burst_size);
        lemma2_to64();
        assert(n * grain() == 0) by (nonlinear_arith)
            requires
                n == 0,
        ;
        assert(s.burst_size * grain() <= (s.burst_size + 1) * grain()) by (nonlinear_arith);
    } else {
        float::lemma_truncation(a, n as nat);
        let l = float::difference(a, figures::integer(n as nat));
        lemma_units_parts(a, l, n as int);
        lemma_pow2_pos(1300);
        assert(grain() <= (s.burst_size + 1) * grain()) by (nonlinear_arith)
            requires
                s.burst_size >= 0,
                grain() > 0,
        ;
        assert(l.truncated() == 0) by {
            vstd::arithmetic::div_mod::lemma_basic_div(l.num() as int, l.den() as int);
        }
        if l.mant != 0 && more.mant == 0 && a.log() < 0 {
            a.lemma_log_below_one();
        }
    }
    let after = ticked.consumed(n);
    let w = n * grain() + units(after.tokens);
    assert(w * PARTS <= units(t) * PARTS) by (nonlinear_arith)
        requires
            w <= units(t),
    ;
}

/// Whether moments do not go back, from a given one on.
pub open spec fn ascend_from(moments: Seq<u64>, start: u64) -> bool {
    &&& forall|i: int| 0 <= i < moments.len() ==> start <= #[trigger] moments[i]
    &&& forall|i: int, j: int| 0 <= i <= j < moments.len() ==> moments[i] <= moments[j]
}

/// The last of the moments, or the start without any.
pub open spec fn latest(moments: Seq<u64>, start: u64) -> u64 {
    if moments.len() == 0 {
        start
    } else {
        moments.last()
    }
}

/// The tokens handed out and left in units, against those that came in.
proof fn lemma_account(s: Shaper, moments: Seq<u64>, limit: u64)
    requires
        is_calm(s),
        units(s.tokens) == 0,
        ascend_from(moments, s.prev_ts),
    ensures
        ({
            let (after, total) = handed_out(s, moments, limit);
            &&& is_calm(after)
            &&& after.burst_size == s.burst_size
            &&& after.prev_ts == latest(moments, s.prev_ts)
            &&& (total * grain() + units(after.tokens)) * (second() * pow(PARTS as int, 6)) <= limit * (after.prev_ts
                - s.prev_ts) * grain() * pow(PARTS + 1, 6) + moments.len() * (s.burst_size + 1) * grain() * (second()
                * pow(PARTS as int, 5))
        }),
    decreases moments.len(),
{
    let (a, b) = (PARTS as int, PARTS + 1);
    let (p5, p6, q5, q6) = (pow(a, 5), pow(a, 6), pow(b, 5), pow(b, 6));
    lemma_pow_adds(a, 5, 1);
    lemma_pow_adds(b, 5, 1);
    lemma_pow1(a);
    lemma_pow1(b);
    lemma_pow_positive(a, 5);
    lemma_pow_positive(b, 6);
    let g = grain() as int;
    if moments.len() == 0 {
        assert(handed_out(s, moments, limit) == (s, 0nat));
        assert((0 * g + 0) * (second() * p6) == 0) by (nonlinear_arith);
        assert(limit * 0 * g * q6 == 0 && 0 * (s.burst_size + 1) * g * (second() * p5) == 0) by (nonlinear_arith);
    } else {
        let front = moments.drop_last();
        let now = moments.last();
        assert(ascend_from(front, s.prev_ts)) by {
            assert forall|i: int| 0 <= i < front.len() implies s.prev_ts <= #[trigger] front[i] by {
                assert(moments[i] == front[i]);
            }
        }
        lemma_account(s, front, limit);
        let (before, total) = handed_out(s, front, limit);
        assert(before.prev_ts <= now) by {
            if front.len() > 0 {
                assert(moments[front.len() - 1] <= moments[front.len() as int]);
            }
        }
        lemma_round(before, now, limit);
        lemma_refill(before, now, limit);
        let more = before.refill(now, limit);
        lemma_units_bounded(more, limit * (now - before.prev_ts), second(), 5);
        let (ticked, n) = before.ticked(now, limit);
        let after = ticked.consumed(n);
        lemma_step(
            total as int,
            n as int,
            units(before.tokens) as int,
            units(after.tokens) as int,
            units(more) as int,
            limit * (before.prev_ts - s.prev_ts),
            limit * (now - before.prev_ts),
            front.len() as int,
            s.burst_size + 1,
        );
        assert(limit * (before.prev_ts - s.prev_ts) + limit * (now - before.prev_ts) == limit * (now - s.prev_ts))
            by (nonlinear_arith);
    }
}

/// One step of the account: `u` units before and `v` after it, `r` that came in; `x` and `y` are what the
/// limit allows before and in the step.
proof fn lemma_step(total: int, n: int, u: int, v: int, r: int, x: int, y: int, k: int, m: int)
    requires
        ({
            let (a, b, g) = (PARTS as int, PARTS + 1, grain() as int);
            &&& (total * g + u) * (second() * pow(a, 6)) <= x * g * pow(b, 6) + k * m * g * (second() * pow(a, 5))
            &&& (n * g + v) * a <= (u + r) * b
            &&& r * second() * pow(a, 5) <= y * g * pow(b, 5)
            &&& 0 <= u <= m * g
        }),
    ensures
        ({
            let (a, b, g) = (PARTS as int, PARTS + 1, grain() as int);
            ((total + n) * g + v) * (second() * pow(a, 6)) <= (x + y) * g * pow(b, 6) + (k + 1) * m * g * (second()
                * pow(a, 5))
        }),
{
    let (a, b, g) = (PARTS as int, PARTS + 1, grain() as int);
    let (p5, p6, q5, q6) = (pow(a, 5), pow(a, 6), pow(b, 5), pow(b, 6));
    lemma_pow_adds(a, 5, 1);
    lemma_pow_adds(b, 5, 1);
    lemma_pow1(a);
    lemma_pow1(b);
    lemma_pow_positive(a, 5);
    let z = second() * p5;
    assert(z > 0) by (nonlinear_arith)
        requires
            z == 1000000000 * p5,
            p5 > 0,
    ;
    assert(second() * p6 == a * z) by (nonlinear_arith)
        requires
            p6 == p5 * a,
            z == second() * p5,
    ;
    let (h, c, d) = (total * g, n * g + v, r * b);
    assert((total + n) * g + v == h + c) by (nonlinear_arith)
        requires
            h == total * g,
            c == n * g + v,
    ;
    // c * a <= u * a + u + r * b.
    assert(c * a <= u * a + u + d) by (nonlinear_arith)
        requires
            c * a <= (u + r) * b,
            b == a + 1,
            d == r * b,
    ;
    assert((h + c) * (a * z) == (h * a) * z + (c * a) * z) by (nonlinear_arith);
    assert((c * a) * z <= (u * a + u + d) * z) by (nonlinear_arith)
        requires
            c * a <= u * a + u + d,
            z > 0,
    ;
    assert((u * a + u + d) * z == (u * a) * z + u * z + d * z) by (nonlinear_arith);
    assert((h + u) * (a * z) == (h * a) * z + (u * a) * z) by (nonlinear_arith);
    let mg = m * g;
    assert(u * z <= mg * z) by (nonlinear_arith)
        requires
            u <= mg,
            z > 0,
    ;
    assert(d * z <= y * g * q6) by {
        assert(d * z == (r * second() * p5) * b) by (nonlinear_arith)
            requires
                d == r * b,
                z == second() * p5,
        ;
        assert((r * second() * p5) * b <= (y * g * q5) * b) by (nonlinear_arith)
            requires
                r * second() * p5 <= y * g * q5,
                b > 0,
        ;
        assert((y * g * q5) * b == y * g * (q5 * b)) by (nonlinear_arith);
    }
    assert((x + y) * g * q6 == x * g * q6 + y * g * q6) by (nonlinear_arith);
    assert((k + 1) * m * g * z == k * m * g * z + mg * z) by (nonlinear_arith)
        requires
            mg == m * g,
    ;
}

/// A new shaper whose tokens are all consumed after every tick never hands out more than comes in under its
/// limit, but for rounding: over `k` ticks no more than `limit` per second, raised by the part `2^-53` six
/// times over, and `k * (burst_size + 1)` parts of `2^-53` of a token.
pub proof fn lemma_never_above_the_limit(s: Shaper, moments: Seq<u64>, limit: u64)
    requires
        s.tokens == figures::integer(0),
        !s.owed,
        ascend_from(moments, s.prev_ts),
    ensures
        handed_out(s, moments, limit).1 * second() * pow(PARTS as int, 6) <= limit * (latest(moments, s.prev_ts)
            - s.prev_ts) * pow(PARTS + 1, 6) + moments.len() * (s.burst_size + 1) * second() * pow(PARTS as int, 5),
{
    float::lemma_integer_rounding(0);
    lemma_pow2_pos(1300);
    assert(units(s.tokens) == 0) by (nonlinear_arith)
        requires
            units(s.tokens) == s.tokens.mant * pow2((s.tokens.exp + 1300) as nat),
            s.tokens.mant == 0,
    ;
    assert(0 <= (s.burst_size + 1) * grain()) by (nonlinear_arith);
    lemma_account(s, moments, limit);
    let (after, total) = handed_out(s, moments, limit);
    let (p5, p6, q6) = (pow(PARTS as int, 5), pow(PARTS as int, 6), pow(PARTS + 1, 6));
    lemma_pow_positive(PARTS as int, 6);
    let (g, v) = (grain() as int, units(after.tokens) as int);
    let (h, y, w) = (total as int, second() * p6, second() * p5);
    let x = limit * (after.prev_ts - s.prev_ts) * q6;
    let z = moments.len() * (s.burst_size + 1) * w;
    assert(y > 0) by (nonlinear_arith)
        requires
            y == 1000000000 * p6,
            p6 > 0,
    ;
    assert((h * y) * g <= (h * g + v) * y) by (nonlinear_arith)
        requires
            v >= 0,
            y > 0,
    ;
    assert(limit * (after.prev_ts - s.prev_ts) * g * q6 == x * g) by (nonlinear_arith)
        requires
            x == limit * (after.prev_ts - s.prev_ts) * q6,
    ;
    assert(moments.len() * (s.burst_size + 1) * g * w == z * g) by (nonlinear_arith)
        requires
            z == moments.len() * (s.burst_size + 1) * w,
    ;
    assert(h * y <= x + z) by (nonlinear_arith)
        requires
            (h * y) * g <= x * g + z * g,
            g > 0,
    ;
    assert(h * second() * p6 == h * y) by (nonlinear_arith)
        requires
            y == second() * p6,
    ;
    assert(moments.len() * (s.burst_size + 1) * second() * p5 == z) by (nonlinear_arith)
        requires
            z == moments.len() * (s.burst_size + 1) * w,
            w == second() * p5,
    ;
}

/// A tick without any time since the last one, whose tokens were all consumed, makes nothing available.
pub proof fn lemma_nothing_without_time(s: Shaper, moments: Seq<u64>, limit: u64, new_limit: u64)
    requires
        s.tokens == figures::integer(0),
        !s.owed,
        ascend_from(moments, s.prev_ts),
    ensures
        handed_out(s, moments, limit).0.ticked(latest(moments, s.prev_ts), new_limit).1 == 0,
{
    float::lemma_integer_rounding(0);
    lemma_pow2_pos(1300);
    assert(units(s.tokens) == 0) by (nonlinear_arith)
        requires
            units(s.tokens) == s.tokens.mant * pow2((s.tokens.exp + 1300) as nat),
            s.tokens.mant == 0,
    ;
    assert(0 <= (s.burst_size + 1) * grain()) by (nonlinear_arith);
    lemma_account(s, moments, limit);
    let now = latest(moments, s.prev_ts);
    let p = handed_out(s, moments, limit).0;
    assert(p.tokens.truncated() == 0 || p.tokens.truncated() < p.burst_size) by {
        if moments.len() == 0 {
            assert(p.tokens.num() == 0) by (nonlinear_arith)
                requires
                    p.tokens.num() == 0 * pow2(0),
            ;
            lemma2_to64();
        } else {
            let front = moments.drop_last();
            assert(ascend_from(front, s.prev_ts)) by {
                assert forall|i: int| 0 <= i < front.len() implies s.prev_ts <= #[trigger] front[i] by {
                    assert(moments[i] == front[i]);
                }
            }
            lemma_account(s, front, limit);
            if front.len() > 0 {
                assert(moments[front.len() - 1] <= moments[front.len() as int]);
            }
            lemma_round(handed_out(s, front, limit).0, now, limit);
        }
    }
    lemma_refill(p, now, new_limit);
    float::lemma_sum_of_finite(p.tokens, p.refill(now, new_limit));
    let (t, rate) = (p.tokens, figures::integer(new_limit as nat));
    if t.truncated() >= p.burst_size && rate.less(t) {
        float::lemma_integer_rounding(new_limit as nat);
        lemma_pow2_pos(float::down(t.exp as int));
        lemma_pow2_pos(float::down(rate.exp as int));
        let (a, b, c, d) = (rate.num(), rate.den(), t.num(), t.den());
        assert(c < d) by (nonlinear_arith)
            requires
                c / d == 0,
                d > 0,
        ;
        assert(a < b) by (nonlinear_arith)
            requires
                a * d < c * b,
                c < d,
                b > 0,
        ;
        vstd::arithmetic::div_mod::lemma_basic_div(a as int, b as int);
    }
}

} // verus!
