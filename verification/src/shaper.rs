//! A token-bucket shaper.

use vstd::arithmetic::power2::*;
use vstd::prelude::*;

use crate::accuracy::{
    lemma_near_difference, lemma_near_expand, lemma_near_integer, lemma_near_more, lemma_near_product, lemma_near_sum,
    near,
};
use crate::figures::Duration;
use crate::float::Binary64;
use crate::{figures, float, sampler};

verus! {

/// The tokens are multiples of `2^-TOKEN_GRAIN`.
pub const TOKEN_GRAIN: u32 = 100;

/// A token-bucket shaper.
///
/// Moments are nanoseconds since an arbitrary start of the clock.
#[derive(Debug, Clone, Copy, PartialEq, Eq, Structural)]
pub struct Shaper {
    /// How many tokens there are, or are missing.
    pub tokens: Binary64,
    /// Whether the tokens are missing: more were consumed than had come in.
    pub owed: bool,
    pub burst_size: u64,
    pub prev_ts: u64,
}

impl Shaper {
    /// The number of tokens is in the range that ticks and consumption keep it in.
    pub open spec fn wf(self) -> bool {
        &&& self.tokens.wf()
        &&& self.tokens.in_grains(TOKEN_GRAIN as nat)
        &&& self.tokens.mant != 0 ==> -TOKEN_GRAIN <= self.tokens.log() <= 126
        &&& self.owed ==> self.tokens.mant != 0
    }

    /// The tokens that come in up to a moment: `limit` of them each second.
    pub open spec fn refill(self, now: u64, limit: u64) -> Binary64 {
        float::product(
            figures::integer(limit as nat),
            sampler::span(sampler::excess(now as nat, self.prev_ts as nat)).seconds(),
        )
    }

    /// The tokens at a moment, before they are capped, and whether they are missing.
    pub open spec fn refilled(self, now: u64, limit: u64) -> (Binary64, bool) {
        let more = self.refill(now, limit);
        if !self.owed {
            (float::sum(self.tokens, more), false)
        } else if more.less(self.tokens) {
            (float::difference(self.tokens, more), true)
        } else {
            (float::difference(more, self.tokens), false)
        }
    }

    /// The shaper after a tick, and how many tokens can be consumed: none while tokens are missing or
    /// until a burst has gathered, and never more than come in within a second.
    pub open spec fn ticked(self, now: u64, limit: u64) -> (Self, u64) {
        let (t, owed) = self.refilled(now, limit);
        if owed || t.truncated() < self.burst_size {
            (Shaper { tokens: t, owed, prev_ts: now, ..self }, 0)
        } else {
            let capped = float::smaller(t, figures::integer(limit as nat));
            (Shaper { tokens: capped, owed, prev_ts: now, ..self }, capped.truncated())
        }
    }

    /// The shaper after tokens were consumed.
    pub open spec fn consumed(self, num: u64) -> Self {
        let n = figures::integer(num as nat);
        if self.owed {
            Shaper { tokens: float::sum(self.tokens, n), ..self }
        } else if self.tokens.less(n) {
            Shaper { tokens: float::difference(n, self.tokens), owed: true, ..self }
        } else {
            Shaper { tokens: float::difference(self.tokens, n), ..self }
        }
    }

    /// Starts without tokens.
    pub fn new(burst_size: u64, now: u64) -> (r: Self)
        ensures
            r.wf(),
            r == (Shaper { tokens: figures::integer(0), owed: false, burst_size, prev_ts: now }),
    {
        let tokens: Binary64 = Binary64::from_u64(0);
        Shaper { tokens, owed: false, burst_size, prev_ts: now }
    }

    /// Called on each loop tick in a worker.
    ///
    /// Returns the number of tokens available to consume: none while tokens are missing or until a burst
    /// has gathered, and never more than come in within a second.
    pub fn tick(&mut self, now: u64, limit: u64) -> (r: u64)
        requires
            old(self).wf(),
        ensures
            final(self).wf(),
            (*final(self), r) == old(self).ticked(now, limit),
            r > 0 ==> !final(self).owed && r == final(self).tokens.truncated(),
            r > 0 ==> !figures::integer(limit as nat).less(final(self).tokens),
    {
        let nanos: u64 = if now >= self.prev_ts {
            now - self.prev_ts
        } else {
            0
        };
        let elapsed: Duration = Duration::from_nanos(nanos);
        proof {
            assert(elapsed == sampler::span(nanos as nat)) by (nonlinear_arith)
                requires
                    elapsed.secs * figures::NANOS_PER_SEC + elapsed.nanos == nanos,
                    elapsed.nanos < figures::NANOS_PER_SEC,
                    figures::NANOS_PER_SEC == 1000000000,
            ;
        }
        let rate: Binary64 = Binary64::from_u64(limit);
        let more: Binary64 = rate.times(elapsed.to_secs());
        self.prev_ts = now;
        let t: Binary64 = if !self.owed {
            self.tokens.plus(more)
        } else if more.lt(self.tokens) {
            let left: Binary64 = self.tokens.minus(more);
            assert(left.in_grains(TOKEN_GRAIN as nat));
            self.tokens = left;
            return 0;
        } else {
            self.owed = false;
            more.minus(self.tokens)
        };
        assert(t.in_grains(TOKEN_GRAIN as nat));
        if t.trunc_to_u64() < self.burst_size {
            proof {
                t.lemma_uncapped_log();
            }
            self.tokens = t;
            return 0;
        }
        proof {
            float::lemma_less(rate, t);
            float::lemma_less(rate, rate);
        }
        self.tokens = t.min(rate);
        self.tokens.trunc_to_u64()
    }

    /// Consumes the specified amount of tokens, whether or not there are as many.
    ///
    /// Must be called after actual token consumption (i.e. performing requests) to maintain this
    /// shaper.
    pub fn consume(&mut self, num: u64)
        requires
            old(self).wf(),
        ensures
            final(self).wf(),
            *final(self) == old(self).consumed(num),
    {
        let n: Binary64 = Binary64::from_u64(num);
        assert(n.in_grains(TOKEN_GRAIN as nat));
        if self.owed {
            self.tokens = self.tokens.plus(n);
        } else if self.tokens.lt(n) {
            self.tokens = n.minus(self.tokens);
            self.owed = true;
        } else {
            self.tokens = self.tokens.minus(n);
        }
    }
}

/// What a tick makes available can be consumed without any tokens missing after it.
pub proof fn lemma_consumption_is_covered(s: Shaper, now: u64, limit: u64, num: u64)
    requires
        s.wf(),
        s.ticked(now, limit).0.wf(),
        num <= s.ticked(now, limit).1,
    ensures
        num > 0 ==> !s.ticked(now, limit).0.consumed(num).owed,
{
    let (after, available) = s.ticked(now, limit);
    if num > 0 {
        after.tokens.lemma_integer_part(num as nat);
    }
}

/// The tokens that come in are the limit times the seconds that passed.
pub proof fn lemma_refill_is_limit_times_seconds(s: Shaper, now: u64, limit: u64)
    ensures
        s.refill(now, limit).wf(),
        s.refill(now, limit).finite(),
        s.prev_ts <= now ==> near(s.refill(now, limit), limit * (now - s.prev_ts), 1000000000, 11),
        s.prev_ts > now ==> near(s.refill(now, limit), 0, 1000000000, 11),
{
    let nanos = sampler::excess(now as nat, s.prev_ts as nat);
    let d = sampler::span(nanos);
    vstd::arithmetic::div_mod::lemma_fundamental_div_mod(nanos as int, 1000000000);
    assert(d.secs * 1000000000 + d.nanos == nanos);
    figures::lemma_seconds_of_nanos(d);
    figures::lemma_seconds_range(d);
    let (x, y) = (figures::integer(limit as nat), d.seconds());
    lemma_near_integer(limit as nat);
    float::lemma_product_in_range(x, y);
    lemma_near_product(x, y, limit as int, 1, 1, nanos as int, 1000000000, 7);
    assert(limit * 0 == 0);
}

/// Over a tick, a shaper without debt gains the limit times the seconds that passed. While its tokens are fewer than
/// a burst it hands out none and keeps all; from there on it hands out all whole tokens, and keeps and hands
/// out no more than come in within a second.
pub proof fn lemma_tick_hands_out_what_came_in(s: Shaper, now: u64, limit: u64) -> (t: Binary64)
    requires
        s.wf(),
        !s.owed,
        s.prev_ts <= now,
    ensures
        t.wf(),
        near(
            t,
            s.tokens.num() * 1000000000 + limit * (now - s.prev_ts) * s.tokens.den(),
            s.tokens.den() as int * 1000000000,
            13,
        ),
        ({
            let (after, n) = s.ticked(now, limit);
            &&& after.prev_ts == now
            &&& after.burst_size == s.burst_size
            &&& !after.owed
            &&& t.num() < s.burst_size * t.den() ==> n == 0 && after.tokens == t
            &&& t.num() >= s.burst_size * t.den() && !figures::integer(limit as nat).less(t) ==> after.tokens == t
            &&& t.num() >= s.burst_size * t.den() && figures::integer(limit as nat).less(t) ==> after.tokens
                == figures::integer(limit as nat)
            &&& t.num() >= s.burst_size * t.den() ==> {
                &&& n * after.tokens.den() <= after.tokens.num()
                &&& n < u64::MAX ==> after.tokens.num() < n * after.tokens.den() + after.tokens.den()
            }
        }),
{
    let (x, more) = (s.tokens, s.refill(now, limit));
    lemma_refill_is_limit_times_seconds(s, now, limit);
    lemma_pow2_pos(float::down(x.exp as int));
    let (xn, xd) = (x.num() as int, x.den() as int);
    let came = limit * (now - s.prev_ts);
    assert(came >= 0) by (nonlinear_arith)
        requires
            came == limit * (now - s.prev_ts),
            limit >= 0,
            now >= s.prev_ts,
    ;
    lemma_near_expand(x, xn, xd, 0, 1000000000);
    lemma_near_more(x, xn * 1000000000, xd * 1000000000, 0, 11);
    lemma_near_expand(more, came, 1000000000, 11, xd);
    assert(1000000000 * xd == xd * 1000000000);
    assert(came * xd >= 0) by (nonlinear_arith)
        requires
            came >= 0,
            xd > 0,
    ;
    lemma_near_sum(x, more, xn * 1000000000, came * xd, xd * 1000000000, 11);
    float::lemma_sum_of_finite(x, more);
    let t = float::sum(x, more);
    let (after, n) = s.ticked(now, limit);
    float::lemma_integer_rounding(limit as nat);
    float::lemma_truncated_distance(t);
    float::lemma_truncated_distance(after.tokens);
    lemma_pow2_pos(float::down(t.exp as int));
    let (tn, td, b, c) = (t.num() as int, t.den() as int, s.burst_size as int, t.truncated() as int);
    if t.truncated() < s.burst_size {
        assert(tn < b * td) by (nonlinear_arith)
            requires
                tn < c * td + td,
                c + 1 <= b,
                td > 0,
        ;
    } else {
        assert(tn >= b * td) by (nonlinear_arith)
            requires
                c * td <= tn,
                c >= b,
                td > 0,
        ;
    }
    t
}

/// Over a tick, a shaper in debt pays with what comes in and hands out nothing before the debt is paid.
pub proof fn lemma_tick_pays_debt(s: Shaper, now: u64, limit: u64)
    requires
        s.wf(),
        s.owed,
        s.prev_ts <= now,
    ensures
        ({
            let more = s.refill(now, limit);
            let (after, n) = s.ticked(now, limit);
            &&& after.prev_ts == now
            &&& after.burst_size == s.burst_size
            &&& after.owed <==> more.num() * s.tokens.den() < s.tokens.num() * more.den()
            &&& after.owed ==> n == 0 && near(
                after.tokens,
                s.tokens.num() * more.den() - more.num() * s.tokens.den(),
                (s.tokens.den() * more.den()) as int,
                1,
            )
            &&& n > 0 ==> n * (s.tokens.den() * more.den()) * 0x10_0000_0000_0000 <= (more.num() * s.tokens.den()
                - s.tokens.num() * more.den()) * (0x10_0000_0000_0000 + 1)
        }),
{
    let more = s.refill(now, limit);
    lemma_refill_is_limit_times_seconds(s, now, limit);
    let (after, n) = s.ticked(now, limit);
    if more.less(s.tokens) {
        lemma_near_difference(s.tokens, more);
    } else {
        lemma_near_difference(more, s.tokens);
        let t = float::difference(more, s.tokens);
        if n > 0 {
            lemma_pow2_pos(float::down(t.exp as int));
            float::lemma_integer_rounding(limit as nat);
            let capped = float::smaller(t, figures::integer(limit as nat));
            let (tn, td, cn, cd) = (t.num() as int, t.den() as int, capped.num() as int, capped.den() as int);
            lemma_pow2_pos(float::down(capped.exp as int));
            let v = cn / cd;
            vstd::arithmetic::div_mod::lemma_fundamental_div_mod(cn, cd);
            assert(n <= v);
            assert(n * cd <= cn) by (nonlinear_arith)
                requires
                    n <= v,
                    cn == cd * v + cn % cd,
                    cn % cd >= 0,
                    cd > 0,
            ;
            assert(cn * td <= tn * cd) by {
                assert(!t.less(capped));
            }
            assert(n * td <= tn) by (nonlinear_arith)
                requires
                    n * cd <= cn,
                    cn * td <= tn * cd,
                    cd > 0,
                    td > 0,
            ;
            let d = (s.tokens.den() * more.den()) as int;
            let w = more.num() * s.tokens.den() - s.tokens.num() * more.den();
            assert(more.den() * s.tokens.den() == d) by (nonlinear_arith)
                requires
                    d == s.tokens.den() * more.den(),
            ;
            let e = 0x10_0000_0000_0000int;
            assert(tn * d * e <= w * td * (e + 1));
            assert(n * d * e <= w * (e + 1)) by {
                assert((n * d * e) * td <= tn * d * e) by (nonlinear_arith)
                    requires
                        n * td <= tn,
                        d >= 0,
                        e > 0,
                ;
                assert(w * td * (e + 1) == (w * (e + 1)) * td) by (nonlinear_arith);
                assert(n * d * e <= w * (e + 1)) by (nonlinear_arith)
                    requires
                        (n * d * e) * td <= (w * (e + 1)) * td,
                        td > 0,
                ;
            }
        }
    }
}

/// Consuming takes the number of tokens from those there are; where they do not suffice the rest is owed, and what is
/// owed adds up. The moment and the burst size stay.
pub proof fn lemma_consumption_is_paid(s: Shaper, num: u64)
    requires
        s.wf(),
        num < 0x20_0000_0000_0000,
    ensures
        ({
            let (n, d) = (s.tokens.num() as int, s.tokens.den() as int);
            let after = s.consumed(num);
            &&& after.prev_ts == s.prev_ts
            &&& after.burst_size == s.burst_size
            &&& after.owed <==> s.owed || n < num * d
            &&& !s.owed && n >= num * d ==> near(after.tokens, n - num * d, d, 1)
            &&& !s.owed && n < num * d ==> near(after.tokens, num * d - n, d, 1)
            &&& s.owed ==> near(after.tokens, n + num * d, d, 2)
        }),
{
    let (x, y) = (s.tokens, figures::integer(num as nat));
    lemma2_to64_rest();
    float::lemma_integer_rounding(num as nat);
    float::lemma_small_integer(num as nat);
    let (n, d, a, b) = (x.num() as int, x.den() as int, y.num() as int, y.den() as int);
    lemma_pow2_pos(float::down(x.exp as int));
    lemma_pow2_pos(float::down(y.exp as int));
    assert(a == num * b);
    assert(a * d == (num * d) * b) by (nonlinear_arith)
        requires
            a == num * b,
    ;
    assert(n * b < (num * d) * b <==> n < num * d) by (nonlinear_arith)
        requires
            b > 0,
    ;
    if s.owed {
        assert(near(x, n, d, 0));
        assert(y.num() * 1 * 0x10_0000_0000_0000 <= num * y.den() * 0x10_0000_0000_0000);
        assert(near(y, num as int, 1, 0));
        lemma_near_expand(y, num as int, 1, 0, d);
        assert(1 * d == d);
        assert(num * d >= 0) by (nonlinear_arith)
            requires
                num >= 0,
                d > 0,
        ;
        lemma_near_sum(x, y, n, num * d, d, 0);
    } else if x.less(y) {
        float::lemma_less(x, y);
        float::lemma_less(y, x);
        lemma_near_difference(y, x);
        let f = float::difference(y, x);
        assert(a * d - n * b == (num * d - n) * b && b * d == d * b) by (nonlinear_arith)
            requires
                a * d == (num * d) * b,
        ;
        lemma_shrink(f, num * d - n, d, b);
    } else {
        lemma_near_difference(x, y);
        let f = float::difference(x, y);
        assert(n * b - a * d == (n - num * d) * b) by (nonlinear_arith)
            requires
                a * d == (num * d) * b,
        ;
        lemma_shrink(f, n - num * d, d, b);
    }
}

/// A common factor can be dropped from a fraction.
proof fn lemma_shrink(f: Binary64, n: int, d: int, b: int)
    requires
        near(f, n * b, d * b, 1),
        b > 0,
    ensures
        near(f, n, d, 1),
{
    let e = 0x10_0000_0000_0000int;
    let (x, y) = (f.num() as int, f.den() as int);
    let (p, q, r, s) = (x * d * e, n * y * (e + 1), n * y * e, x * d * (e + 1));
    assert(x * (d * b) * e == p * b) by (nonlinear_arith)
        requires
            p == x * d * e,
    ;
    assert((n * b) * y * (e + 1) == q * b) by (nonlinear_arith)
        requires
            q == n * y * (e + 1),
    ;
    assert((n * b) * y * e == r * b) by (nonlinear_arith)
        requires
            r == n * y * e,
    ;
    assert(x * (d * b) * (e + 1) == s * b) by (nonlinear_arith)
        requires
            s == x * d * (e + 1),
    ;
    assert(p <= q && r <= s) by (nonlinear_arith)
        requires
            p * b <= q * b,
            r * b <= s * b,
            b > 0,
    ;
}

} // verus!
