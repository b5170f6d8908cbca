//! Log-bucketed latency histograms.
//!
//! Bucket `i` covers the latencies from `1.5^i` up to `1.5^(i+1)` microseconds;
//! the first bucket also takes zero, the last everything above its lower bound.

use vstd::arithmetic::power2::*;
use vstd::prelude::*;

use crate::float::Binary64;
use crate::{float, totals};

verus! {

/// Numerator of the ratio between the bounds of neighbouring buckets.
pub const FACTOR_NUM: u64 = 3;

/// Denominator of the ratio between the bounds of neighbouring buckets.
pub const FACTOR_DEN: u64 = 2;

/// The longest latency with a bucket of its own, microseconds (one minute).
pub const MAX_LATENCY: u64 = 60000000;

/// `3^i`.
pub open spec fn pow3(i: nat) -> nat
    decreases i,
{
    if i == 0 {
        1
    } else {
        3 * pow3((i - 1) as nat)
    }
}

/// Whether `us` is at least `1.5^i`.
pub open spec fn reaches(us: nat, i: nat) -> bool {
    pow3(i) <= us * pow2(i)
}

/// The highest bucket up to `i` whose lower bound `us` reaches, the first one if there is none.
pub open spec fn bucket_upto(us: nat, i: nat) -> nat
    decreases i,
{
    if i == 0 || reaches(us, i) {
        i
    } else {
        bucket_upto(us, (i - 1) as nat)
    }
}

/// The bucket of a latency in a histogram of `len` buckets.
pub open spec fn bucket_of(us: nat, len: nat) -> nat {
    bucket_upto(us, (len - 1) as nat)
}

/// Reaching a bound means reaching every lower one.
pub proof fn lemma_reaches_lower(us: nat, i: nat, j: nat)
    requires
        reaches(us, j),
        i <= j,
    ensures
        reaches(us, i),
    decreases j,
{
    if i < j {
        let k = (j - 1) as nat;
        lemma_pow2_unfold(j);
        lemma_pow2_pos(k);
        let (a, p) = (pow3(k), pow2(k));
        // 3 * a <= us * (2 * p), so a <= us * p.
        assert(us * (2 * p) == 2 * (us * p)) by (nonlinear_arith);
        lemma_reaches_lower(us, i, k);
    }
}

/// The bucket found lies between its own bound and the next one.
pub proof fn lemma_bucket_bounds(us: nat, n: nat)
    ensures
        bucket_upto(us, n) <= n,
        bucket_upto(us, n) == 0 || reaches(us, bucket_upto(us, n)),
        forall|j: nat| bucket_upto(us, n) < j <= n ==> !#[trigger] reaches(us, j),
    decreases n,
{
    if n > 0 && !reaches(us, n) {
        lemma_bucket_bounds(us, (n - 1) as nat);
    }
}

/// A bucket that is reached, with no higher one reached, is the one found.
proof fn lemma_bucket_unique(us: nat, i: nat, n: nat)
    requires
        i <= n,
        i == 0 || reaches(us, i),
        forall|j: nat| i < j <= n ==> !#[trigger] reaches(us, j),
    ensures
        bucket_upto(us, n) == i,
    decreases n,
{
    if i < n {
        assert(!reaches(us, n));
        lemma_bucket_unique(us, i, (n - 1) as nat);
    }
}

/// Per-CPU histogram of recorded latencies.
#[derive(Debug)]
pub struct PerCpuLogHistogram {
    buckets: Vec<u64>,
    /// The least whole latency that reaches each bucket.
    bounds: Vec<u64>,
}

impl View for PerCpuLogHistogram {
    type V = Seq<u64>;

    closed spec fn view(&self) -> Seq<u64> {
        self.buckets@
    }
}

impl PerCpuLogHistogram {
    /// There are as many bounds as buckets, each the least latency that reaches its bucket.
    pub closed spec fn wf(&self) -> bool {
        &&& self.buckets.len() == self.bounds.len()
        &&& self.buckets.len() >= 1
        &&& forall|us: u64, i: nat|
            i < self.bounds.len() ==> (#[trigger] reaches(us as nat, i) <==> us >= self.bounds@[i as int])
    }

    /// Returns the bucket counts.
    pub fn buckets(&self) -> (r: &Vec<u64>)
        ensures
            r@ == self@,
    {
        &self.buckets
    }

    /// Counts one latency, given in microseconds.
    pub fn record(&mut self, us: u64)
        requires
            old(self).wf(),
            old(self)@[bucket_of(us as nat, old(self)@.len()) as int] < u64::MAX,
        ensures
            final(self).wf(),
            final(self)@ == recorded(old(self)@, us),
    {
        let ghost before = self@;
        let n: usize = self.bounds.len();
        let mut lo: usize = 0;
        let mut hi: usize = n;
        // Every bound below `lo` is reached, no bound from `hi` on is.
        while lo < hi
            invariant
                lo <= hi <= n,
                n == self.bounds.len(),
                self.wf(),
                self@ == before,
                lo > 0 ==> reaches(us as nat, (lo - 1) as nat),
                forall|j: nat| hi <= j < n ==> !#[trigger] reaches(us as nat, j),
            decreases hi - lo,
        {
            let mid: usize = lo + (hi - lo) / 2;
            if us >= self.bounds[mid] {
                assert(reaches(us as nat, mid as nat));
                lo = mid + 1;
            } else {
                assert(!reaches(us as nat, mid as nat));
                assert forall|j: nat| mid <= j < n implies !#[trigger] reaches(us as nat, j) by {
                    if reaches(us as nat, j) {
                        lemma_reaches_lower(us as nat, mid as nat, j);
                    }
                }
                hi = mid;
            }
        }
        let idx: usize = if lo == 0 {
            0
        } else {
            lo - 1
        };
        proof {
            lemma_bucket_unique(us as nat, idx as nat, (n - 1) as nat);
        }
        let count: u64 = self.buckets[idx] + 1;
        self.buckets.set(idx, count);
    }
}

/// Recording a latency adds one sample to the histogram.
pub proof fn lemma_record_adds_one(s: Seq<u64>, us: u64)
    requires
        s.len() > 0,
        s[bucket_of(us as nat, s.len()) as int] < u64::MAX,
    ensures
        totals::total(recorded(s, us)) == totals::total(s) + 1,
{
    lemma_bucket_bounds(us as nat, (s.len() - 1) as nat);
    let i = bucket_of(us as nat, s.len()) as int;
    totals::lemma_total_update(s, i, (s[i] + 1) as u64);
}

/// The counts after a latency was recorded.
pub open spec fn recorded(s: Seq<u64>, us: u64) -> Seq<u64> {
    let i = bucket_of(us as nat, s.len()) as int;
    s.update(i, (s[i] + 1) as u64)
}

/// The counts after latencies were recorded one after another.
pub open spec fn all_recorded(s: Seq<u64>, latencies: Seq<u64>) -> Seq<u64>
    decreases latencies.len(),
{
    if latencies.len() == 0 {
        s
    } else {
        recorded(all_recorded(s, latencies.drop_last()), latencies.last())
    }
}

/// How many of the latencies belong into a bucket of a histogram of `len` buckets.
pub open spec fn number_in(latencies: Seq<u64>, bucket: int, len: nat) -> nat
    decreases latencies.len(),
{
    if latencies.len() == 0 {
        0
    } else {
        number_in(latencies.drop_last(), bucket, len) + (if bucket_of(latencies.last() as nat, len) == bucket {
            1nat
        } else {
            0nat
        })
    }
}

/// A histogram that starts empty holds as many samples as latencies were recorded, each in its bucket.
pub proof fn lemma_all_are_counted(s: Seq<u64>, latencies: Seq<u64>)
    requires
        s.len() > 0,
        forall|i: int| 0 <= i < s.len() ==> s[i] == 0,
        latencies.len() <= u64::MAX,
    ensures
        all_recorded(s, latencies).len() == s.len(),
        totals::total(all_recorded(s, latencies)) == latencies.len(),
        forall|i: int|
            0 <= i < s.len() ==> #[trigger] all_recorded(s, latencies)[i] == number_in(latencies, i, s.len()) && number_in(
                latencies,
                i,
                s.len(),
            ) <= latencies.len(),
    decreases latencies.len(),
{
    if latencies.len() == 0 {
        lemma_empty_total(s);
    } else {
        let (front, us) = (latencies.drop_last(), latencies.last());
        lemma_all_are_counted(s, front);
        let before = all_recorded(s, front);
        lemma_bucket_bounds(us as nat, (s.len() - 1) as nat);
        let i = bucket_of(us as nat, s.len()) as int;
        assert(before[i] == number_in(front, i, s.len()));
        lemma_record_adds_one(before, us);
    }
}

proof fn lemma_empty_total(s: Seq<u64>)
    requires
        forall|i: int| 0 <= i < s.len() ==> s[i] == 0,
    ensures
        totals::total(s) == 0,
    decreases s.len(),
{
    if s.len() > 0 {
        lemma_empty_total(s.drop_last());
    }
}

/// `n` is the number of buckets whose lower bound is below `max`.
pub open spec fn bucket_count(max: nat, n: nat) -> bool {
    &&& pow3(n) >= max * pow2(n)
    &&& forall|i: nat| i < n ==> #[trigger] pow3(i) < max * pow2(i)
}

proof fn lemma_below_lower(max: nat, i: nat, j: nat)
    requires
        pow3(j) < max * pow2(j),
        i <= j,
    ensures
        pow3(i) < max * pow2(i),
    decreases j,
{
    if i < j {
        let k = (j - 1) as nat;
        lemma_pow2_unfold(j);
        let (a, p) = (pow3(k), pow2(k));
        assert(max * (2 * p) == 2 * (max * p)) by (nonlinear_arith);
        lemma_below_lower(max, i, k);
    }
}

proof fn lemma_minute_buckets()
    ensures
        pow3(44) < MAX_LATENCY * pow2(44),
        pow3(45) >= MAX_LATENCY * pow2(45),
{
    lemma2_to64_rest();
    assert(pow3(11) == 177147) by {
        reveal_with_fuel(pow3, 12);
    }
    assert(pow3(22) == 31381059609) by {
        reveal_with_fuel(pow3, 12);
    }
    assert(pow3(33) == 5559060566555523) by {
        reveal_with_fuel(pow3, 12);
    }
    assert(pow3(44) == 984770902183611232881) by {
        reveal_with_fuel(pow3, 12);
    }
    assert(pow3(45) == 3 * pow3(44));
}

/// The least latency that reaches a bound is the bound rounded up.
proof fn lemma_ceil_reached(num: nat, den: nat, us: nat)
    requires
        den > 0,
    ensures
        us >= (num + den - 1) / den as int <==> num <= us * den,
{
    let c = (num + den - 1) / den as int;
    let r = (num + den - 1) % den as int;
    vstd::arithmetic::div_mod::lemma_fundamental_div_mod(num + den - 1, den as int);
    if us >= c {
        assert(us * den >= c * den) by (nonlinear_arith)
            requires
                us >= c,
                den > 0,
        ;
        assert(c * den == den * c) by (nonlinear_arith);
    } else {
        assert(us * den <= (c - 1) * den) by (nonlinear_arith)
            requires
                us <= c - 1,
                den > 0,
        ;
        assert((c - 1) * den == den * c - den) by (nonlinear_arith);
    }
}

impl Default for PerCpuLogHistogram {
    /// An empty histogram, with a bucket for every bound below one minute.
    fn default() -> (r: Self)
        ensures
            r.wf(),
            r@ == Seq::new(r@.len(), |i: int| 0u64),
            bucket_count(MAX_LATENCY as nat, r@.len()),
            r@.len() == 45,
    {
        let mut buckets: Vec<u64> = Vec::new();
        let mut bounds: Vec<u64> = Vec::new();
        let mut num: u128 = 1;
        let mut den: u128 = 1;
        proof {
            lemma2_to64();
            lemma2_to64_rest();
            lemma_minute_buckets();
        }
        while num < MAX_LATENCY as u128 * den
            invariant
                buckets.len() <= 45,
                bounds.len() == buckets.len(),
                num == pow3(buckets.len() as nat),
                den == pow2(buckets.len() as nat),
                1 <= den <= 0x2000_0000_0000,
                pow2(45) == 0x2000_0000_0000,
                num <= 180000000 * den,
                pow3(45) >= MAX_LATENCY * pow2(45),
                buckets@ == Seq::new(buckets.len() as nat, |j: int| 0u64),
                forall|us: u64, j: nat|
                    j < bounds.len() ==> (#[trigger] reaches(us as nat, j) <==> us >= bounds@[j as int]),
                forall|j: nat|
                    j < buckets.len() ==> #[trigger] pow3(j) < MAX_LATENCY as nat * pow2(j),
            decreases 45 - buckets.len(),
        {
            let ghost i = buckets.len() as nat;
            proof {
                if i >= 45 {
                    assert(i == 45);
                }
                lemma_pow2_unfold(i + 1);
                if i + 1 < 45 {
                    lemma_pow2_strictly_increases(i + 1, 45);
                }
                assert(MAX_LATENCY as nat * pow2(i) == MAX_LATENCY * den);
                vstd::arithmetic::div_mod::lemma_div_is_ordered(
                    num + den - 1,
                    MAX_LATENCY * den + den - 1,
                    den as int,
                );
                assert((MAX_LATENCY * den + den - 1) / den as int <= MAX_LATENCY + 1) by (nonlinear_arith)
                    requires
                        den >= 1,
                ;
                assert forall|us: u64|
                    us >= (num + den - 1) / den as int <==> #[trigger] reaches(us as nat, i) by {
                    lemma_ceil_reached(num as nat, den as nat, us as nat);
                }
            }
            let bound: u128 = (num + den - 1) / den;
            buckets.push(0);
            bounds.push(bound as u64);
            num = 3 * num;
            den = 2 * den;
        }
        proof {
            if buckets.len() < 45 {
                lemma_below_lower(MAX_LATENCY as nat, buckets.len() as nat, 44);
            }
        }
        PerCpuLogHistogram { buckets, bounds }
    }
}

/// A snapshot of bucket counts.
#[derive(Debug)]
pub struct LogHistogram {
    snapshot: Vec<u64>,
}

/// Where a quantile falls in a histogram.
///
/// The latency at the quantile is `factor` raised to
/// `(q * size - below) / count + idx`, the linear interpolation within the
/// bucket in logarithmic coordinates.
#[derive(Clone, Copy, Debug, PartialEq, Eq, Structural)]
pub struct QuantilePoint {
    /// Index of the bucket.
    pub idx: usize,
    /// Number of samples in the buckets before it.
    pub below: u64,
    /// Number of samples in the bucket.
    pub count: u64,
    /// Number of samples in the histogram.
    pub size: u64,
}

/// Whether the samples up to bucket `i` make up the share `q` of all of them.
pub open spec fn covers(s: Seq<u64>, q: Binary64, i: int) -> bool {
    let wanted = float::product(q, float::rounded_ratio(totals::total(s), 1));
    !float::rounded_ratio(totals::total(s.take(i + 1)), 1).less(wanted)
}

/// Whether `p` locates the quantile `q`: the first bucket with which the share is covered.
pub open spec fn is_quantile(s: Seq<u64>, q: Binary64, p: QuantilePoint) -> bool {
    &&& p.idx < s.len()
    &&& covers(s, q, p.idx as int)
    &&& forall|i: int| 0 <= i < p.idx ==> !#[trigger] covers(s, q, i)
    &&& p.below == totals::total(s.take(p.idx as int))
    &&& p.count == s[p.idx as int]
    &&& p.size == totals::total(s)
}

impl View for LogHistogram {
    type V = Seq<u64>;

    closed spec fn view(&self) -> Seq<u64> {
        self.snapshot@
    }
}

impl LogHistogram {
    /// Wraps a snapshot of bucket counts.
    pub fn new(snapshot: Vec<u64>) -> (r: Self)
        ensures
            r@ == snapshot@,
    {
        LogHistogram { snapshot }
    }

    /// Returns the raw snapshot of bucket counts.
    pub fn snapshot(&self) -> (r: &Vec<u64>)
        ensures
            r@ == self@,
    {
        &self.snapshot
    }

    /// Returns the logarithmic factor used for bucket boundaries.
    pub fn factor() -> (r: Binary64)
        ensures
            r == float::rounded_ratio(FACTOR_NUM as nat, FACTOR_DEN as nat),
            crate::accuracy::near(r, 3, 2, 1),
    {
        proof {
            crate::accuracy::lemma_near_ratio(3, 2);
        }
        Binary64::ratio(FACTOR_NUM, FACTOR_DEN)
    }

    /// Finds the first bucket with which the share `q` of all samples is covered.
    pub fn quantile(&self, q: Binary64) -> (r: Option<QuantilePoint>)
        requires
            totals::total(self@) <= u64::MAX,
            q.finite(),
            q.num() <= q.den(),
        ensures
            match r {
                Some(p) => is_quantile(self@, q, p),
                None => self@.len() == 0,
            },
    {
        let size: u64 = totals::sum(self.snapshot.as_slice());
        proof {
            q.lemma_log_at_most_one();
        }
        let wanted: Binary64 = q.times(Binary64::from_u64(size));
        let mut below: u64 = 0;
        let mut idx: usize = 0;
        while idx < self.snapshot.len()
            invariant
                idx <= self@.len(),
                self@ == self.snapshot@,
                totals::total(self@) <= u64::MAX,
                size == totals::total(self@),
                below == totals::total(self@.take(idx as int)),
                wanted == float::product(q, float::rounded_ratio(totals::total(self@), 1)),
                wanted.wf(),
                forall|i: int| 0 <= i < idx ==> !#[trigger] covers(self@, q, i),
            decreases self@.len() - idx,
        {
            proof {
                totals::lemma_total_step(self@, idx as int);
            }
            let count: u64 = self.snapshot[idx];
            if !Binary64::from_u64(below + count).lt(wanted) {
                return Some(QuantilePoint { idx, below, count, size });
            }
            below = below + count;
            idx = idx + 1;
        }
        proof {
            if self@.len() > 0 {
                lemma_last_bucket_covers(self@, q);
            }
        }
        None
    }
}

/// Every share of a histogram with at least one bucket is covered by its last bucket.
pub proof fn lemma_last_bucket_covers(s: Seq<u64>, q: Binary64)
    requires
        s.len() > 0,
        totals::total(s) <= u64::MAX,
        q.finite(),
        q.num() <= q.den(),
    ensures
        covers(s, q, s.len() - 1),
{
    let size = totals::total(s);
    let f = float::rounded_ratio(size, 1);
    assert(s.take(s.len() as int) =~= s);
    float::lemma_integer_rounding(size);
    q.lemma_log_at_most_one();
    float::lemma_product_in_range(q, f);
    let (a, b, c, d) = (q.num(), q.den(), f.num(), f.den());
    // (a / b) * (c / d) <= c / d
    assert((a * c) * d <= c * (b * d)) by (nonlinear_arith)
        requires
            a <= b,
    ;
    float::lemma_rounding_keeps_bound(f, a * c, b * d);
}

/// The wanted number of samples lies between those below the located bucket and those up to it, so that
/// the interpolation stays between the bounds of the bucket.
pub proof fn lemma_quantile_in_bucket(s: Seq<u64>, q: Binary64, p: QuantilePoint)
    requires
        totals::total(s) <= u64::MAX,
        q.finite(),
        q.num() <= q.den(),
        is_quantile(s, q, p),
    ensures
        ({
            let wanted = float::product(q, float::rounded_ratio(p.size as nat, 1));
            &&& !wanted.less(float::rounded_ratio(p.below as nat, 1))
            &&& !float::rounded_ratio((p.below + p.count) as nat, 1).less(wanted)
        }),
{
    let f = float::rounded_ratio(p.size as nat, 1);
    float::lemma_integer_rounding(p.size as nat);
    q.lemma_log_at_most_one();
    float::lemma_product_in_range(q, f);
    let wanted = float::product(q, f);
    let idx = p.idx as int;
    totals::lemma_total_step(s, idx);
    totals::lemma_total_prefix(s, idx);
    let low = float::rounded_ratio(p.below as nat, 1);
    float::lemma_integer_rounding(p.below as nat);
    float::lemma_less(wanted, low);
    float::lemma_less(low, wanted);
    if idx > 0 {
        assert(!covers(s, q, idx - 1));
    } else {
        assert(s.take(0) =~= Seq::empty());
    }
}

/// A larger share is never located before a smaller one.
pub proof fn lemma_quantiles_ordered(s: Seq<u64>, q1: Binary64, q2: Binary64, p1: QuantilePoint, p2: QuantilePoint)
    requires
        totals::total(s) <= u64::MAX,
        q1.finite(),
        q2.finite(),
        q1.num() <= q1.den(),
        q2.num() <= q2.den(),
        !q2.less(q1),
        is_quantile(s, q1, p1),
        is_quantile(s, q2, p2),
    ensures
        p1.idx <= p2.idx,
{
    let size = totals::total(s);
    let f = float::rounded_ratio(size, 1);
    float::lemma_integer_rounding(size);
    q1.lemma_log_at_most_one();
    q2.lemma_log_at_most_one();
    float::lemma_product_in_range(q1, f);
    float::lemma_product_in_range(q2, f);
    let (a1, b1, a2, b2, c, d) = (q1.num(), q1.den(), q2.num(), q2.den(), f.num(), f.den());
    assert((a1 * c) * (b2 * d) <= (a2 * c) * (b1 * d)) by (nonlinear_arith)
        requires
            a1 * b2 <= a2 * b1,
    ;
    float::lemma_rounding_monotone(a1 * c, b1 * d, a2 * c, b2 * d);
    let (w1, w2) = (float::product(q1, f), float::product(q2, f));
    let seen = totals::total(s.take(p2.idx + 1));
    totals::lemma_total_prefix(s, p2.idx + 1);
    float::lemma_integer_rounding(seen);
    let t = float::rounded_ratio(seen, 1);
    float::lemma_less(t, w1);
    float::lemma_less(t, w2);
    float::lemma_less(w2, w1);
    assert(covers(s, q1, p2.idx as int));
}

proof fn lemma_pow3(i: nat)
    ensures
        pow3(i) == vstd::arithmetic::power::pow(3, i),
    decreases i,
{
    if i == 0 {
        vstd::arithmetic::power::lemma_pow0(3);
    } else {
        lemma_pow3((i - 1) as nat);
        vstd::arithmetic::power::lemma_pow1(3);
        vstd::arithmetic::power::lemma_pow_adds(3, 1, (i - 1) as nat);
    }
}

/// A latency lies in bucket `i` or a higher one exactly when it is at least `1.5^i` microseconds, as far as there are
/// buckets; recording it adds one to its bucket and leaves all others.
pub proof fn lemma_bucket_of_latency(us: u64, s: Seq<u64>, i: nat)
    requires
        0 < i < s.len(),
        s[bucket_of(us as nat, s.len()) as int] < u64::MAX,
    ensures
        bucket_of(us as nat, s.len()) < s.len(),
        bucket_of(us as nat, s.len()) >= i <==> vstd::arithmetic::power::pow(3, i) <= us
            * vstd::arithmetic::power::pow(2, i),
        recorded(s, us).len() == s.len(),
        recorded(s, us)[i as int] == s[i as int] + (if bucket_of(us as nat, s.len()) == i {
            1int
        } else {
            0
        }),
        recorded(s, us)[0] == s[0] + (if bucket_of(us as nat, s.len()) == 0 {
            1int
        } else {
            0
        }),
{
    lemma_bucket_bounds(us as nat, (s.len() - 1) as nat);
    lemma_pow3(i);
    lemma_pow2(i);
    let b = bucket_of(us as nat, s.len());
    if b >= i {
        lemma_reaches_lower(us as nat, i, b);
    } else {
        assert(!reaches(us as nat, i));
    }
}

} // verus!
