//! Figures of the end-of-run report and their rendering.

use vstd::arithmetic::power::*;
use vstd::arithmetic::power2::*;
use vstd::prelude::*;
use vstd::string::*;

use crate::accuracy::{
    lemma_near_expand, lemma_near_integer, lemma_near_more, lemma_near_order, lemma_near_product, lemma_near_quotient,
    lemma_near_sum, near, within,
};
use crate::float::Binary64;
use crate::{float, text};

verus! {

/// Nanoseconds in a second.
pub const NANOS_PER_SEC: u64 = 1000000000;

/// A span of time.
#[derive(Clone, Copy, Debug, PartialEq, Eq, Structural)]
pub struct Duration {
    pub secs: u64,
    /// Below one second.
    pub nanos: u32,
}

/// The binary64 number nearest to an integer.
pub open spec fn integer(n: nat) -> Binary64 {
    float::rounded_ratio(n, 1)
}

impl Duration {
    /// The fractional part is below one second.
    pub open spec fn wf(self) -> bool {
        self.nanos < NANOS_PER_SEC
    }

    /// The length in seconds.
    pub open spec fn seconds(self) -> Binary64 {
        float::sum(
            integer(self.secs as nat),
            float::quotient(integer(self.nanos as nat), integer(NANOS_PER_SEC as nat)),
        )
    }

    /// The length in seconds, at least the machine epsilon.
    pub open spec fn divisor(self) -> Binary64 {
        if self.seconds().less(epsilon()) {
            epsilon()
        } else {
            self.seconds()
        }
    }

    /// A span of whole seconds.
    pub fn from_secs(secs: u64) -> (r: Self)
        ensures
            r.wf(),
            r.secs == secs,
            r.nanos == 0,
    {
        Duration { secs, nanos: 0 }
    }

    /// A span of the given number of nanoseconds.
    pub fn from_nanos(nanos: u64) -> (r: Self)
        ensures
            r.wf(),
            r.secs * NANOS_PER_SEC + r.nanos == nanos,
    {
        Duration { secs: nanos / NANOS_PER_SEC, nanos: (nanos % NANOS_PER_SEC) as u32 }
    }

    /// Returns the length in seconds.
    pub fn to_secs(self) -> (r: Binary64)
        requires
            self.wf(),
        ensures
            r == self.seconds(),
            r.wf(),
            r.mant == 0 <==> self.secs == 0 && self.nanos == 0,
            r.mant != 0 ==> -32 <= r.log() <= 66,
    {
        proof {
            lemma2_to64();
            float::lemma_integer_log(NANOS_PER_SEC as nat, 29, 30);
            if self.nanos > 0 {
                lemma_small_log(self.nanos as nat, 30);
            }
        }
        let whole: Binary64 = Binary64::from_u64(self.secs);
        let part: Binary64 = Binary64::from_u64(self.nanos as u64).over(Binary64::from_u64(NANOS_PER_SEC));
        whole.plus(part)
    }

    /// Returns the length in seconds, at least the machine epsilon.
    pub fn to_divisor(self) -> (r: Binary64)
        requires
            self.wf(),
        ensures
            r == self.divisor(),
            r.wf(),
            r.mant != 0,
            -52 <= r.log() <= 66,
    {
        let secs: Binary64 = self.to_secs();
        let eps: Binary64 = Binary64::ratio(1, 0x10_0000_0000_0000);
        proof {
            lemma_epsilon_log();
        }
        if secs.lt(eps) {
            eps
        } else {
            proof {
                eps.lemma_positive_bound(secs);
            }
            secs
        }
    }
}

/// The distance from one to the next larger binary64 number, `2^-52`.
pub open spec fn epsilon() -> Binary64 {
    float::rounded_ratio(1, 0x10_0000_0000_0000)
}

proof fn lemma_epsilon_log()
    ensures
        -52 <= epsilon().log() <= -51,
{
    lemma2_to64();
    lemma2_to64_rest();
    float::lemma_unit_fraction_log(52);
}

/// The rounding of a positive integer below `2^hi`.
proof fn lemma_small_log(n: nat, hi: nat)
    requires
        0 < n < pow2(hi),
        n <= u64::MAX,
    ensures
        0 <= integer(n).log() <= hi,
{
    lemma2_to64();
    float::lemma_integer_log(n, 0, hi);
}

/// The share of `part` in `whole`, in percent; zero for an empty whole.
pub open spec fn percentage(part: nat, whole: nat) -> Binary64 {
    if whole == 0 {
        integer(0)
    } else {
        float::quotient(float::product(integer(100), integer(part)), integer(whole))
    }
}

/// Computes a percentage.
pub fn pct(part: u64, whole: u64) -> (r: Binary64)
    ensures
        r == percentage(part as nat, whole as nat),
        r.wf(),
        r.mant == 0 <==> part == 0 || whole == 0,
        r.mant != 0 ==> -70 <= r.log() <= 80,
{
    if whole == 0 {
        return Binary64::from_u64(0);
    }
    proof {
        lemma2_to64();
        float::lemma_integer_log(100, 6, 7);
    }
    Binary64::from_u64(100).times(Binary64::from_u64(part)).over(Binary64::from_u64(whole))
}

/// The range of a length in seconds.
pub proof fn lemma_seconds_range(d: Duration)
    requires
        d.wf(),
    ensures
        d.seconds().wf(),
        d.seconds().mant == 0 <==> d.secs == 0 && d.nanos == 0,
        d.seconds().mant != 0 ==> -32 <= d.seconds().log() <= 66,
{
    lemma2_to64();
    let (x, y, z) = (integer(d.secs as nat), integer(d.nanos as nat), integer(1000000000));
    float::lemma_integer_rounding(d.secs as nat);
    float::lemma_integer_rounding(d.nanos as nat);
    float::lemma_integer_rounding(1000000000);
    float::lemma_integer_log(1000000000, 29, 30);
    if d.nanos > 0 {
        lemma_small_log(d.nanos as nat, 30);
    }
    float::lemma_quotient_in_range(y, z);
    let q = float::quotient(y, z);
    float::lemma_sum_of_finite(x, q);
    if x.mant != 0 && q.mant != 0 {
        float::lemma_sum_commutes(x, q);
        if x.exp <= q.exp {
            float::lemma_sum_in_range(x, q);
        } else {
            float::lemma_sum_in_range(q, x);
        }
    }
}

/// A length in seconds is the number of nanoseconds divided by a thousand million.
pub proof fn lemma_seconds_of_nanos(d: Duration)
    requires
        d.wf(),
    ensures
        near(d.seconds(), d.secs * 1000000000 + d.nanos, 1000000000, 7),
{
    lemma2_to64();
    let (x, y, z) = (integer(d.secs as nat), integer(d.nanos as nat), integer(1000000000));
    lemma_near_integer(d.secs as nat);
    lemma_near_integer(d.nanos as nat);
    lemma_near_integer(1000000000);
    lemma_near_quotient(y, z, d.nanos as int, 1, 1, 1000000000, 1, 1);
    float::lemma_quotient_in_range(y, z);
    let q = float::quotient(y, z);
    lemma_near_expand(x, d.secs as int, 1, 1, 1000000000);
    lemma_near_more(x, d.secs * 1000000000, 1000000000, 1, 5);
    lemma_near_sum(x, q, d.secs * 1000000000, d.nanos as int, 1000000000, 5);
}

/// The divisor is the length in seconds of every span that is not empty; an empty one counts as the machine
/// epsilon, so that no rate is divided by zero.
pub proof fn lemma_divisor_is_length(d: Duration)
    requires
        d.wf(),
    ensures
        d.divisor().wf(),
        d.divisor().mant != 0,
        -52 <= d.divisor().log() <= 66,
        d.secs != 0 || d.nanos != 0 ==> near(d.divisor(), d.secs * 1000000000 + d.nanos, 1000000000, 7),
        d.secs == 0 && d.nanos == 0 ==> near(d.divisor(), 1, 0x10_0000_0000_0000, 1),
{
    lemma_seconds_range(d);
    lemma_seconds_of_nanos(d);
    lemma_epsilon_log();
    lemma2_to64();
    lemma2_to64_rest();
    float::lemma_proper_fraction(1, 0x10_0000_0000_0000);
    crate::accuracy::lemma_near_ratio(1, 0x10_0000_0000_0000);
    let (a, e) = (d.seconds(), epsilon());
    if a.mant != 0 {
        float::lemma_less(a, e);
    } else {
        assert(a.num() == 0) by (nonlinear_arith)
            requires
                a.mant == 0,
                a.num() == a.mant as nat * pow2(float::up(a.exp as int)),
        ;
        lemma_pow2_pos(float::down(a.exp as int));
        lemma_pow2_pos(float::up(e.exp as int));
        assert(a.num() * e.den() < e.num() * a.den()) by (nonlinear_arith)
            requires
                a.num() == 0,
                a.den() > 0,
                e.mant > 0,
                pow2(float::up(e.exp as int)) > 0,
                e.num() == e.mant as nat * pow2(float::up(e.exp as int)),
        ;
    }
}

/// The range of a percentage.
pub proof fn lemma_percentage_range(part: nat, whole: nat)
    requires
        part <= u64::MAX,
        0 < whole <= u64::MAX,
    ensures
        percentage(part, whole).wf(),
        percentage(part, whole).mant == 0 <==> part == 0,
{
    lemma2_to64();
    float::lemma_integer_log(100, 6, 7);
    float::lemma_integer_rounding(100);
    float::lemma_integer_rounding(part);
    float::lemma_integer_rounding(whole);
    float::lemma_product_in_range(integer(100), integer(part));
    float::lemma_quotient_in_range(float::product(integer(100), integer(part)), integer(whole));
}

/// A percentage times the whole is a hundred times the part.
pub proof fn lemma_percentage_of_whole(part: nat, whole: nat)
    requires
        part <= u64::MAX,
        0 < whole <= u64::MAX,
    ensures
        near(percentage(part, whole), (100 * part) as int, whole as int, 9),
{
    lemma2_to64();
    float::lemma_integer_log(100, 6, 7);
    let (c, x, y) = (integer(100), integer(part), integer(whole));
    lemma_near_integer(100);
    lemma_near_integer(part);
    lemma_near_integer(whole);
    float::lemma_product_in_range(c, x);
    lemma_near_product(c, x, 100, 1, 1, part as int, 1, 1);
    lemma_near_quotient(float::product(c, x), y, (100 * part) as int, 1, 5, whole as int, 1, 1);
}

/// The text of a duration: seconds with one decimal below a minute, else `[h]h[mm]m[ss]s`.
pub open spec fn duration_text(d: Duration) -> Seq<char> {
    let (h, m, s) = (d.secs as nat / 3600, (d.secs as nat % 3600) / 60, d.secs as nat % 60);
    if d.seconds().less(integer(60)) {
        d.seconds().fixed(1) + "s"@
    } else if h > 0 {
        text::decimal(h) + "h"@ + text::fixed_width(m, 2) + "m"@ + text::fixed_width(s, 2) + "s"@
    } else {
        text::decimal(m) + "m"@ + text::fixed_width(s, 2) + "s"@
    }
}

/// Formats a duration.
pub fn fmt_duration(d: Duration) -> (r: String)
    requires
        d.wf(),
    ensures
        r@ == duration_text(d),
{
    let mut out: String = String::new();
    let total: Binary64 = d.to_secs();
    if total.lt(Binary64::from_u64(60)) {
        total.push_fixed(&mut out, 1);
        out.append("s");
    } else {
        let h: u64 = d.secs / 3600;
        let m: u64 = (d.secs % 3600) / 60;
        let s: u64 = d.secs % 60;
        if h > 0 {
            text::push_decimal(&mut out, h as u128);
            out.append("h");
            text::push_fixed_width(&mut out, m as u128, 2);
        } else {
            text::push_decimal(&mut out, m as u128);
        }
        out.append("m");
        text::push_fixed_width(&mut out, s as u128, 2);
        out.append("s");
    }
    assert(out@ =~= duration_text(d));
    out
}

/// Names of the binary byte units.
pub open spec fn byte_unit(i: nat) -> Seq<char> {
    if i == 0 {
        "B"@
    } else if i == 1 {
        "KiB"@
    } else if i == 2 {
        "MiB"@
    } else if i == 3 {
        "GiB"@
    } else if i == 4 {
        "TiB"@
    } else {
        "PiB"@
    }
}

/// Scales a value down by `step` until it is below it or the last unit is reached.
pub open spec fn scaled(value: Binary64, step: nat, unit: nat, last: nat) -> (Binary64, nat)
    decreases last - unit,
{
    if unit < last && !value.less(integer(step)) {
        scaled(float::quotient(value, integer(step)), step, unit + 1, last)
    } else {
        (value, unit)
    }
}

/// The text of an amount of bytes.
pub open spec fn bytes_text(v: nat) -> Seq<char> {
    let (value, unit) = scaled(integer(v), 1024, 0, 5);
    if unit == 0 {
        text::decimal(v) + " B"@
    } else {
        value.fixed(2) + " "@ + byte_unit(unit)
    }
}

/// Scales a value down to a readable unit.
fn scale(value: Binary64, step: u64, last: u32) -> (r: (Binary64, u32))
    requires
        value.wf(),
        value.log() <= 127,
        step == 1000 || step == 1024,
        last < 10,
    ensures
        (r.0, r.1 as nat) == scaled(value, step as nat, 0, last as nat),
        r.0.wf(),
        r.0.log() <= 127,
        r.1 <= last,
{
    let mut v: Binary64 = value;
    let mut unit: u32 = 0;
    let bound: Binary64 = Binary64::from_u64(step);
    proof {
        lemma2_to64();
        float::lemma_integer_log(step as nat, 9, 11);
    }
    while unit < last && !v.lt(bound)
        invariant
            unit <= last < 10,
            v.wf(),
            v.log() <= 127,
            bound == integer(step as nat),
            bound.wf(),
            bound.mant != 0,
            9 <= bound.log() <= 11,
            scaled(v, step as nat, unit as nat, last as nat) == scaled(value, step as nat, 0, last as nat),
        decreases last - unit,
    {
        proof {
            bound.lemma_positive_bound(v);
        }
        v = v.over(bound);
        unit = unit + 1;
    }
    (v, unit)
}

/// Formats an amount of bytes.
pub fn fmt_bytes(v: u64) -> (r: String)
    ensures
        r@ == bytes_text(v as nat),
{
    let mut out: String = String::new();
    let (value, unit) = scale(Binary64::from_u64(v), 1024, 5);
    if unit == 0 {
        text::push_decimal(&mut out, v as u128);
        out.append(" B");
    } else {
        value.push_fixed(&mut out, 2);
        out.append(" ");
        out.append(
            match unit {
                1 => "KiB",
                2 => "MiB",
                3 => "GiB",
                4 => "TiB",
                _ => "PiB",
            },
        );
    }
    assert(out@ =~= bytes_text(v as nat));
    out
}

/// Names of the decimal bit-rate units.
pub open spec fn bitrate_unit(i: nat) -> Seq<char> {
    if i == 0 {
        "bit/s"@
    } else if i == 1 {
        "Kbit/s"@
    } else if i == 2 {
        "Mbit/s"@
    } else if i == 3 {
        "Gbit/s"@
    } else {
        "Tbit/s"@
    }
}

/// The text of the mean bit rate of `bytes` over `secs` seconds.
pub open spec fn bitrate_text(bytes: nat, secs: Binary64) -> Seq<char> {
    let (value, unit) = scaled(
        float::quotient(float::product(integer(bytes), integer(8)), secs),
        1000,
        0,
        4,
    );
    value.fixed(1) + " "@ + bitrate_unit(unit)
}

/// Formats the mean bit rate of `bytes` over `secs` seconds.
pub fn fmt_bitrate(bytes: u64, secs: Binary64) -> (r: String)
    requires
        secs.wf(),
        secs.mant != 0,
        -52 <= secs.log() <= 1023,
    ensures
        r@ == bitrate_text(bytes as nat, secs),
{
    let mut out: String = String::new();
    proof {
        lemma2_to64();
        float::lemma_integer_log(8, 3, 4);
    }
    let rate: Binary64 = Binary64::from_u64(bytes).times(Binary64::from_u64(8)).over(secs);
    let (value, unit) = scale(rate, 1000, 4);
    value.push_fixed(&mut out, 1);
    out.append(" ");
    out.append(
        match unit {
            0 => "bit/s",
            1 => "Kbit/s",
            2 => "Mbit/s",
            3 => "Gbit/s",
            _ => "Tbit/s",
        },
    );
    assert(out@ =~= bitrate_text(bytes as nat, secs));
    out
}

/// The text of a latency in microseconds.
pub open spec fn us_text(us: nat) -> Seq<char> {
    if us == u64::MAX {
        "n/a"@
    } else if us < 1000 {
        text::decimal(us) + "us"@
    } else if us < 1000000 {
        float::quotient(integer(us), integer(1000)).fixed(2) + "ms"@
    } else {
        float::quotient(integer(us), integer(1000000)).fixed(2) + "s"@
    }
}

/// Formats a latency in microseconds, scaling the unit for readability.
///
/// The largest value stands for a quantile that does not exist.
pub fn fmt_us(us: u64) -> (r: String)
    ensures
        r@ == us_text(us as nat),
{
    if us == u64::MAX {
        return "n/a".to_owned();
    }
    let mut out: String = String::new();
    if us < 1000 {
        text::push_decimal(&mut out, us as u128);
        out.append("us");
    } else if us < 1000000 {
        Binary64::from_u64(us).over(Binary64::from_u64(1000)).push_fixed(&mut out, 2);
        out.append("ms");
    } else {
        Binary64::from_u64(us).over(Binary64::from_u64(1000000)).push_fixed(&mut out, 2);
        out.append("s");
    }
    assert(out@ =~= us_text(us as nat));
    out
}

proof fn lemma_within_expand(step: int, a: int, n: int, d: int, k: int)
    requires
        within(a, 1, n, d * step, k),
    ensures
        within(step * a, 1, n, d, k),
{
    assert(a * (d * step) == (step * a) * d) by (nonlinear_arith);
}

/// Scaling keeps the value: what comes out is the value divided by `step` once for every unit passed. It stops below
/// `step` or at the last unit, and goes no further than it has to.
proof fn lemma_scaled(value: Binary64, step: nat, unit: nat, last: nat, n: int, d: int, k: int)
    requires
        value.wf(),
        value.mant != 0 ==> -800 - 20 * unit <= value.log() <= 127,
        step == 1000 || step == 1024,
        unit <= last < 10,
        near(value, n, d, k),
        n >= 0,
        d > 0,
        0 <= k,
        k + 4 * (last - unit) < 90,
    ensures
        ({
            let (r, u) = scaled(value, step, unit, last);
            &&& r.wf()
            &&& unit <= u <= last
            &&& near(r, n, d * pow(step as int, (u - unit) as nat), k + 4 * (u - unit))
            &&& u < last ==> r.num() < step * r.den()
            &&& u > unit ==> within(pow(step as int, (u - unit) as nat), 1, n, d, k + 4 * (u - unit))
        }),
    decreases last - unit,
{
    let bound = integer(step);
    lemma2_to64();
    lemma2_to64_rest();
    lemma_near_integer(step);
    float::lemma_integer_log(step, 9, 11);
    float::lemma_small_integer(step);
    lemma_pow0(step as int);
    let (r, u) = scaled(value, step, unit, last);
    if unit < last && !value.less(bound) {
        let next = float::quotient(value, bound);
        float::lemma_quotient_in_range(value, bound);
        lemma_near_quotient(value, bound, n, d, k, step as int, 1, 1);
        assert(d * step > 0) by (nonlinear_arith)
            requires
                d > 0,
                step > 0,
        ;
        assert(n * 1 == n);
        lemma_scaled(next, step, unit + 1, last, n, d * step, k + 4);
        lemma_near_order(bound, value, step as int, 1, 1, n, d, k);
        let (p, q) = (pow(step as int, (u - unit - 1) as nat), pow(step as int, (u - unit) as nat));
        lemma_pow_adds(step as int, 1, (u - unit - 1) as nat);
        lemma_pow1(step as int);
        assert(q == step * p);
        assert(d * step * p == d * q) by (nonlinear_arith)
            requires
                q == step * p,
        ;
        if u == unit + 1 {
            crate::accuracy::lemma_within_more(step as int, 1, n, d, k + 3, k + 4);
        } else {
            lemma_within_expand(step as int, p, n, d, k + 4 * (u - unit));
        }
    } else {
        assert(d * 1 == d);
        if unit < last {
            let (a, b) = (bound.den(), r.den());
            lemma_pow2_pos(float::down(bound.exp as int));
            assert(r.num() < step * b) by (nonlinear_arith)
                requires
                    r.num() * a < (step * a) * b,
                    a > 0,
            ;
        }
    }
}

/// The text of an amount of bytes is the amount divided by 1024 once for each unit: below 1024 the plain number,
/// else a number that is below 1024 unless the unit is the last, and at least one.
pub proof fn lemma_bytes_text(v: nat) -> (r: (Binary64, nat))
    requires
        v <= u64::MAX,
    ensures
        r.0.wf(),
        r.1 <= 5,
        near(r.0, v as int, pow(1024, r.1), 21),
        r.1 < 5 ==> r.0.num() < 1024 * r.0.den(),
        r.1 > 0 ==> within(pow(1024, r.1), 1, v as int, 1, 21),
        bytes_text(v) == (if r.1 == 0 {
            text::decimal(v) + " B"@
        } else if r.1 == 1 {
            r.0.fixed(2) + " "@ + "KiB"@
        } else if r.1 == 2 {
            r.0.fixed(2) + " "@ + "MiB"@
        } else if r.1 == 3 {
            r.0.fixed(2) + " "@ + "GiB"@
        } else if r.1 == 4 {
            r.0.fixed(2) + " "@ + "TiB"@
        } else {
            r.0.fixed(2) + " "@ + "PiB"@
        }),
{
    lemma_near_integer(v);
    lemma_scaled(integer(v), 1024, 0, 5, v as int, 1, 1);
    let (x, u) = scaled(integer(v), 1024, 0, 5);
    lemma_pow_positive(1024, u);
    lemma_near_more(x, v as int, 1 * pow(1024, u), 1 + 4 * u as int, 21);
    if u > 0 {
        crate::accuracy::lemma_within_more(pow(1024, u), 1, v as int, 1, 1 + 4 * u as int, 21);
    }
    (x, u)
}

/// The text of a bit rate is eight times the bytes divided by the seconds, and by 1000 once for each unit, to a
/// number below 1000 unless the unit is the last.
pub proof fn lemma_bitrate_text(bytes: nat, d: Duration) -> (r: (Binary64, nat))
    requires
        bytes <= u64::MAX,
        d.wf(),
        d.secs != 0 || d.nanos != 0,
    ensures
        r.0.wf(),
        r.1 <= 4,
        near(r.0, bytes as int * 8 * 1000000000, (d.secs * 1000000000 + d.nanos) * pow(1000, r.1), 31),
        r.1 < 4 ==> r.0.num() < 1000 * r.0.den(),
        r.1 > 0 ==> within(pow(1000, r.1), 1, bytes as int * 8 * 1000000000, d.secs * 1000000000 + d.nanos, 31),
        bitrate_text(bytes, d.divisor()) == (if r.1 == 0 {
            r.0.fixed(1) + " "@ + "bit/s"@
        } else if r.1 == 1 {
            r.0.fixed(1) + " "@ + "Kbit/s"@
        } else if r.1 == 2 {
            r.0.fixed(1) + " "@ + "Mbit/s"@
        } else if r.1 == 3 {
            r.0.fixed(1) + " "@ + "Gbit/s"@
        } else {
            r.0.fixed(1) + " "@ + "Tbit/s"@
        }),
{
    lemma2_to64();
    float::lemma_integer_log(8, 3, 4);
    lemma_near_integer(bytes);
    lemma_near_integer(8);
    lemma_divisor_is_length(d);
    let (x, y) = (float::product(integer(bytes), integer(8)), d.divisor());
    float::lemma_product_in_range(integer(bytes), integer(8));
    lemma_near_product(integer(bytes), integer(8), bytes as int, 1, 1, 8, 1, 1);
    let nanos = d.secs * 1000000000 + d.nanos;
    let bits = bytes as int * 8;
    lemma_near_quotient(x, y, bits, 1, 5, nanos, 1000000000, 7);
    float::lemma_quotient_in_range(x, y);
    let rate = float::quotient(x, y);
    lemma_scaled(rate, 1000, 0, 4, bits * 1000000000, nanos, 15);
    let (f, u) = scaled(rate, 1000, 0, 4);
    lemma_pow_positive(1000, u);
    assert(nanos * pow(1000, u) >= 0) by (nonlinear_arith)
        requires
            nanos >= 0,
            pow(1000, u) > 0,
    ;
    lemma_near_more(f, bits * 1000000000, nanos * pow(1000, u), 15 + 4 * u as int, 31);
    if u > 0 {
        crate::accuracy::lemma_within_more(pow(1000, u), 1, bits * 1000000000, nanos, 15 + 4 * u as int, 31);
    }
    (f, u)
}

/// The text of a latency is in microseconds below a millisecond, in milliseconds below a second and in seconds from
/// there on; the largest number is no latency.
pub proof fn lemma_us_text(us: nat) -> (r: Binary64)
    requires
        us <= u64::MAX,
    ensures
        us == u64::MAX ==> us_text(us) == "n/a"@,
        us < 1000 ==> us_text(us) == text::decimal(us) + "us"@,
        1000 <= us < 1000000 ==> near(r, us as int, 1000, 5) && us_text(us) == r.fixed(2) + "ms"@,
        1000000 <= us < u64::MAX ==> near(r, us as int, 1000000, 5) && us_text(us) == r.fixed(2) + "s"@,
{
    lemma2_to64();
    lemma_near_integer(us);
    lemma_near_integer(1000);
    lemma_near_integer(1000000);
    if us < 1000000 {
        lemma_near_quotient(integer(us), integer(1000), us as int, 1, 1, 1000, 1, 1);
        float::quotient(integer(us), integer(1000))
    } else {
        lemma_near_quotient(integer(us), integer(1000000), us as int, 1, 1, 1000000, 1, 1);
        float::quotient(integer(us), integer(1000000))
    }
}

/// The text of a duration: below a minute its seconds with one decimal; from a minute on minutes and two-digit
/// seconds, with hours before two-digit minutes where there are any, that add up to its whole seconds.
pub proof fn lemma_duration_text(d: Duration) -> (r: (nat, nat, nat))
    requires
        d.wf(),
    ensures
        d.secs < 60 ==> near(d.seconds(), d.secs * 1000000000 + d.nanos, 1000000000, 7) && duration_text(d)
            == d.seconds().fixed(1) + "s"@,
        d.secs >= 60 ==> {
            let (h, m, s) = r;
            &&& d.secs == h * 3600 + m * 60 + s
            &&& m < 60
            &&& s < 60
            &&& h == 0 ==> duration_text(d) == text::decimal(m) + "m"@ + text::fixed_width(s, 2) + "s"@
            &&& h > 0 ==> duration_text(d) == text::decimal(h) + "h"@ + text::fixed_width(m, 2) + "m"@
                + text::fixed_width(s, 2) + "s"@
        },
{
    lemma2_to64();
    lemma2_to64_rest();
    lemma_seconds_of_nanos(d);
    lemma_seconds_range(d);
    float::lemma_integer_rounding(60);
    float::lemma_small_integer(60);
    let (a, b) = (d.seconds(), integer(60));
    lemma_pow2_pos(float::down(a.exp as int));
    lemma_pow2_pos(float::down(b.exp as int));
    let (an, ad, bd) = (a.num() as int, a.den() as int, b.den() as int);
    if d.secs < 60 {
        let n = d.secs * 1000000000 + d.nanos;
        let e = 0x10_0000_0000_0000int;
        assert(n <= 59999999999);
        assert(an < 60 * ad) by (nonlinear_arith)
            requires
                an * 1000000000 * e <= n * ad * (e + 7),
                0 <= n <= 59999999999,
                ad > 0,
                e == 0x10_0000_0000_0000int,
        ;
        assert(an * bd < (60 * bd) * ad) by (nonlinear_arith)
            requires
                an < 60 * ad,
                bd > 0,
        ;
    } else {
        let (x, y) = (integer(d.secs as nat), float::quotient(integer(d.nanos as nat), integer(1000000000)));
        float::lemma_integer_rounding(d.secs as nat);
        float::lemma_integer_rounding(d.nanos as nat);
        float::lemma_integer_rounding(1000000000);
        float::lemma_quotient_in_range(integer(d.nanos as nat), integer(1000000000));
        float::lemma_sum_of_finite(x, y);
        float::lemma_rounding_monotone(60, 1, d.secs as nat, 1);
        let (xn, xd, yn, yd) = (x.num() as int, x.den() as int, y.num() as int, y.den() as int);
        lemma_pow2_pos(float::down(x.exp as int));
        lemma_pow2_pos(float::down(y.exp as int));
        assert(60 * xd <= xn) by (nonlinear_arith)
            requires
                (60 * bd) * xd <= xn * bd,
                bd > 0,
        ;
        let w = xd * yd;
        assert(60 * w <= (xn * yd + yn * xd) * 1) by (nonlinear_arith)
            requires
                60 * xd <= xn,
                w == xd * yd,
                yd > 0,
                xd > 0,
                yn >= 0,
        ;
        float::lemma_rounding_monotone(60, 1, float::sum_num(x, y), x.den() * y.den());
    }
    let secs = d.secs as nat;
    (secs / 3600, (secs % 3600) / 60, secs % 60)
}

} // verus!
