//! Statistics over the samples taken during a run.

use vstd::arithmetic::power2::*;
use vstd::prelude::*;
use vstd::relations::*;

use crate::accuracy::{lemma_near_expand, lemma_near_integer, lemma_near_quotient, lemma_near_sum, near};
use crate::float::Binary64;
use crate::{figures, float, totals};

verus! {

/// The order of binary64 numbers, zero first and then by exponent and mantissa.
pub open spec fn at_most(a: Binary64, b: Binary64) -> bool {
    let (x, y) = (a.mant != 0, b.mant != 0);
    if x != y {
        y
    } else if a.exp != b.exp {
        a.exp < b.exp
    } else {
        a.mant <= b.mant
    }
}

/// The samples in ascending order.
pub open spec fn ascending(rates: Seq<Binary64>) -> Seq<Binary64> {
    rates.sort_by(|a: Binary64, b: Binary64| at_most(a, b))
}

/// The order of the samples is the order of the numbers they stand for.
pub proof fn lemma_order_by_value(a: Binary64, b: Binary64)
    requires
        a.wf(),
        b.wf(),
    ensures
        at_most(a, b) <==> !b.less(a),
{
    float::lemma_less(b, a);
}

proof fn lemma_total_order()
    ensures
        total_ordering(|a: Binary64, b: Binary64| at_most(a, b)),
{
}

/// Two ascending arrangements of the same samples are equal.
proof fn lemma_ascending_unique(s: Seq<Binary64>, t: Seq<Binary64>)
    requires
        forall|i: int, j: int| 0 <= i <= j < s.len() ==> at_most(s[i], s[j]),
        forall|i: int, j: int| 0 <= i <= j < t.len() ==> at_most(t[i], t[j]),
        s.to_multiset() =~= t.to_multiset(),
    ensures
        s =~= t,
    decreases s.len(),
{
    broadcast use vstd::seq_lib::group_to_multiset_ensures;

    assert(s.len() == s.to_multiset().len() && t.len() == t.to_multiset().len());
    if s.len() > 0 {
        let (a, b) = (s.last(), t.last());
        assert(t.to_multiset().count(b) > 0 && s.to_multiset().count(a) > 0) by {
            assert(t.contains(b) && s.contains(a));
        }
        assert(s.contains(b) && t.contains(a));
        let i = choose|i: int| 0 <= i < s.len() && s[i] == b;
        let j = choose|j: int| 0 <= j < t.len() && t[j] == a;
        assert(at_most(s[i], s[s.len() - 1]) && at_most(t[j], t[t.len() - 1]));
        assert(a == b);
        assert(s =~= s.drop_last().push(a));
        assert(t =~= t.drop_last().push(a));
        assert(s.drop_last().to_multiset() =~= s.to_multiset().remove(a));
        assert(t.drop_last().to_multiset() =~= t.to_multiset().remove(a));
        lemma_ascending_unique(s.drop_last(), t.drop_last());
    }
}

/// The median of ascending samples: the middle one, or the mean of the middle two.
pub open spec fn median(sorted: Seq<Binary64>) -> Binary64 {
    let mid = sorted.len() as int / 2;
    if sorted.len() % 2 == 1 {
        sorted[mid]
    } else {
        float::quotient(float::sum(sorted[mid - 1], sorted[mid]), figures::integer(2))
    }
}

/// The rounded median, minimum and maximum of the samples.
pub open spec fn spread(rates: Seq<Binary64>) -> Option<(u64, u64, u64)> {
    let sorted = ascending(rates);
    if rates.len() == 0 {
        None
    } else {
        Some((median(sorted).rounded(), sorted[0].rounded(), sorted[rates.len() - 1].rounded()))
    }
}

/// Whether every sample is finite.
pub open spec fn samples_wf(rates: Seq<Binary64>) -> bool {
    forall|i: int| 0 <= i < rates.len() ==> (#[trigger] rates[i]).finite()
}

/// Inserts a sample at its place.
fn insert_sample(sorted: &mut Vec<Binary64>, v: Binary64)
    requires
        v.wf(),
        forall|i: int| 0 <= i < old(sorted)@.len() ==> (#[trigger] old(sorted)@[i]).wf(),
        forall|i: int, j: int| 0 <= i <= j < old(sorted)@.len() ==> at_most(old(sorted)@[i], old(sorted)@[j]),
    ensures
        forall|i: int, j: int| 0 <= i <= j < final(sorted)@.len() ==> at_most(final(sorted)@[i], final(sorted)@[j]),
        final(sorted)@.to_multiset() =~= old(sorted)@.to_multiset().insert(v),
{
    let mut at: usize = sorted.len();
    while at > 0 && v.lt(sorted[at - 1])
        invariant
            at <= sorted.len(),
            v.wf(),
            sorted@ == old(sorted)@,
            forall|i: int| 0 <= i < sorted@.len() ==> (#[trigger] sorted@[i]).wf(),
            forall|i: int, j: int| 0 <= i <= j < sorted@.len() ==> at_most(sorted@[i], sorted@[j]),
            forall|i: int| at <= i < sorted@.len() ==> v.less(#[trigger] sorted@[i]),
        decreases at,
    {
        at = at - 1;
    }
    proof {
        assert forall|i: int| 0 <= i < sorted@.len() implies at_most(#[trigger] sorted@[i], v) == (i < at) by {
            lemma_order_by_value(sorted@[i], v);
            if i < at {
                lemma_order_by_value(sorted@[at - 1], v);
                assert(at_most(sorted@[i], sorted@[at - 1]));
            }
        }
        broadcast use vstd::seq_lib::group_to_multiset_ensures;
    }
    sorted.insert(at, v);
    proof {
        let (s, t) = (old(sorted)@, sorted@);
        assert(t == s.insert(at as int, v));
        assert forall|i: int, j: int| 0 <= i <= j < t.len() implies at_most(t[i], t[j]) by {
            let (i2, j2) = (if i < at { i } else { i - 1 }, if j < at { j } else { j - 1 });
            if i != at && j != at {
                assert(at_most(s[i2], s[j2]));
            } else if i == at && j > at {
                assert(!at_most(s[j2], v));
            } else if i < at {
                assert(at_most(s[i2], v));
            }
        }
    }
}

/// Returns the median, the minimum and the maximum of the samples, rounded.
pub fn distribution(rates: &[Binary64]) -> (r: Option<(u64, u64, u64)>)
    requires
        samples_wf(rates@),
    ensures
        r == spread(rates@),
{
    if rates.len() == 0 {
        return None;
    }
    let mut sorted: Vec<Binary64> = Vec::new();
    let mut k: usize = 0;
    proof {
        broadcast use vstd::seq_lib::group_to_multiset_ensures;

        assert(sorted@ =~= rates@.take(0));
    }
    while k < rates.len()
        invariant
            k <= rates.len(),
            samples_wf(rates@),
            forall|i: int| 0 <= i < sorted@.len() ==> (#[trigger] sorted@[i]).finite(),
            forall|i: int, j: int| 0 <= i <= j < sorted@.len() ==> at_most(sorted@[i], sorted@[j]),
            sorted@.to_multiset() =~= rates@.take(k as int).to_multiset(),
        decreases rates.len() - k,
    {
        let ghost before = sorted@;
        insert_sample(&mut sorted, rates[k]);
        proof {
            broadcast use vstd::seq_lib::group_to_multiset_ensures;

            let v = rates@[k as int];
            assert(rates@.take(k + 1) =~= rates@.take(k as int).push(v));
            assert forall|i: int| 0 <= i < sorted@.len() implies (#[trigger] sorted@[i]).finite() by {
                let x = sorted@[i];
                assert(sorted@.contains(x));
                assert(sorted@.to_multiset().count(x) > 0);
                if x != v {
                    assert(before.to_multiset().count(x) > 0);
                    assert(before.contains(x));
                }
            }
        }
        k = k + 1;
    }
    proof {
        let leq = |a: Binary64, b: Binary64| at_most(a, b);
        lemma_total_order();
        rates@.lemma_sort_by_ensures(leq);
        assert(rates@.take(k as int) =~= rates@);
        let s = ascending(rates@);
        assert forall|i: int, j: int| 0 <= i <= j < s.len() implies at_most(s[i], s[j]) by {
            assert(leq(s[i], s[j]));
        }
        lemma_ascending_unique(sorted@, s);
        broadcast use vstd::seq_lib::group_to_multiset_ensures;

        assert(sorted@.len() == sorted@.to_multiset().len());
        lemma2_to64();
        float::lemma_integer_log(2, 1, 2);
    }
    let n: usize = sorted.len();
    let mid: usize = n / 2;
    let middle: Binary64;
    if n % 2 == 1 {
        middle = sorted[mid];
    } else {
        assert(sorted@[mid - 1].finite() && sorted@[mid as int].finite());
        middle = sorted[mid - 1].plus(sorted[mid]).over(Binary64::from_u64(2));
    }
    Some((middle.round_to_u64(), sorted[0].round_to_u64(), sorted[n - 1].round_to_u64()))
}

/// The order of the samples does not matter.
pub proof fn lemma_spread_ignores_order(a: Seq<Binary64>, b: Seq<Binary64>)
    requires
        a.to_multiset() =~= b.to_multiset(),
    ensures
        spread(a) == spread(b),
{
    let leq = |a: Binary64, b: Binary64| at_most(a, b);
    lemma_total_order();
    a.lemma_sort_by_ensures(leq);
    b.lemma_sort_by_ensures(leq);
    let (s, t) = (ascending(a), ascending(b));
    assert forall|i: int, j: int| 0 <= i <= j < s.len() implies at_most(s[i], s[j]) by {
        assert(leq(s[i], s[j]));
    }
    assert forall|i: int, j: int| 0 <= i <= j < t.len() implies at_most(t[i], t[j]) by {
        assert(leq(t[i], t[j]));
    }
    lemma_ascending_unique(s, t);
    broadcast use vstd::seq_lib::group_to_multiset_ensures;

    assert(a.len() == a.to_multiset().len() && b.len() == b.to_multiset().len());
}

/// The minimum and the maximum are those of the samples, rounded.
pub proof fn lemma_spread_ends(rates: Seq<Binary64>, i: int, least: int, greatest: int)
    requires
        samples_wf(rates),
        0 <= i < rates.len(),
        0 <= least < rates.len(),
        0 <= greatest < rates.len(),
        forall|j: int| 0 <= j < rates.len() ==> !(#[trigger] rates[j]).less(rates[least]),
        forall|j: int| 0 <= j < rates.len() ==> !rates[greatest].less(#[trigger] rates[j]),
    ensures
        spread(rates) matches Some((_, min, max)) && min == rates[least].rounded() && max
            == rates[greatest].rounded() && min <= rates[i].rounded() <= max,
{
    let leq = |a: Binary64, b: Binary64| at_most(a, b);
    let s = ascending(rates);
    lemma_total_order();
    rates.lemma_sort_by_ensures(leq);
    broadcast use vstd::seq_lib::group_to_multiset_ensures;

    assert(s.len() == s.to_multiset().len() && rates.len() == rates.to_multiset().len());
    let n = s.len() as int;
    let (low, high) = (rates[least], rates[greatest]);
    assert(rates.contains(low) && rates.contains(high));
    assert(rates.to_multiset().count(low) > 0 && rates.to_multiset().count(high) > 0);
    assert(s.to_multiset().count(low) > 0 && s.to_multiset().count(high) > 0);
    assert(s.contains(low) && s.contains(high));
    let a = choose|a: int| 0 <= a < s.len() && s[a] == low;
    let b = choose|b: int| 0 <= b < s.len() && s[b] == high;
    assert(s.contains(s[0]) && s.contains(s[n - 1]));
    assert(s.to_multiset().count(s[0]) > 0 && s.to_multiset().count(s[n - 1]) > 0);
    assert(rates.contains(s[0]) && rates.contains(s[n - 1]));
    assert(leq(s[0], s[a]) && leq(s[b], s[n - 1]));
    lemma_order_by_value(s[0], low);
    lemma_order_by_value(low, s[0]);
    lemma_order_by_value(high, s[n - 1]);
    lemma_order_by_value(s[n - 1], high);
    assert(s[0] == low && s[n - 1] == high);
    float::lemma_integer_rounding_monotone(low, rates[i]);
    float::lemma_integer_rounding_monotone(rates[i], high);
}

/// The median lies between the minimum and the maximum.
pub proof fn lemma_spread_is_ordered(rates: Seq<Binary64>)
    requires
        samples_wf(rates),
        rates.len() > 0,
    ensures
        spread(rates) matches Some((median, min, max)) && min <= median <= max,
{
    let leq = |a: Binary64, b: Binary64| at_most(a, b);
    let s = ascending(rates);
    lemma_total_order();
    rates.lemma_sort_by_ensures(leq);
    broadcast use vstd::seq_lib::group_to_multiset_ensures;

    assert(s.len() == s.to_multiset().len() && rates.len() == rates.to_multiset().len());
    assert forall|i: int| 0 <= i < s.len() implies (#[trigger] s[i]).finite() by {
        assert(s.contains(s[i]));
        assert(rates.contains(s[i]));
    }
    let n = s.len() as int;
    let mid = n / 2;
    assert(leq(s[0], s[mid]) && leq(s[mid], s[n - 1]));
    lemma_order_by_value(s[0], s[mid]);
    lemma_order_by_value(s[mid], s[n - 1]);
    if s.len() % 2 == 0 {
        assert(leq(s[0], s[mid - 1]) && leq(s[mid - 1], s[mid]));
        lemma_order_by_value(s[mid - 1], s[mid]);
        lemma_order_by_value(s[0], s[mid - 1]);
        float::lemma_mean_between(s[mid - 1], s[mid]);
        let m = median(s);
        lemma_order_by_value(s[mid - 1], m);
        lemma_order_by_value(m, s[mid]);
        lemma_order_by_value(s[0], m);
        lemma_order_by_value(m, s[n - 1]);
    }
    float::lemma_integer_rounding_monotone(s[0], median(s));
    float::lemma_integer_rounding_monotone(median(s), s[n - 1]);
}

/// The integer mean of the samples.
pub open spec fn average(samples: Seq<u64>) -> Option<u64> {
    if samples.len() == 0 {
        None
    } else {
        Some((totals::total(samples) / samples.len()) as u64)
    }
}

/// Returns the integer mean of the samples, `None` when there are none.
pub fn mean(samples: &[u64]) -> (r: Option<u64>)
    requires
        totals::total(samples@) <= u64::MAX,
    ensures
        r == average(samples@),
{
    if samples.len() == 0 {
        return None;
    }
    Some(totals::sum(samples) / samples.len() as u64)
}

/// The number of packets in bursts whose sizes are counted in `counts`, starting at size one.
pub open spec fn packets(counts: Seq<u64>) -> nat
    decreases counts.len(),
{
    if counts.len() == 0 {
        0
    } else {
        packets(counts.drop_last()) + counts.len() * (counts.last() as nat)
    }
}

/// There are at least as many packets as bursts.
pub proof fn lemma_packets_cover_bursts(counts: Seq<u64>)
    ensures
        totals::total(counts) <= packets(counts),
    decreases counts.len(),
{
    if counts.len() > 0 {
        lemma_packets_cover_bursts(counts.drop_last());
        let (n, c) = (counts.len() as int, counts.last() as int);
        assert(c <= n * c) by (nonlinear_arith)
            requires
                n >= 1,
                c >= 0,
        ;
    }
}

proof fn lemma_packets_step(counts: Seq<u64>, i: int)
    requires
        0 <= i < counts.len(),
    ensures
        packets(counts.take(i + 1)) == packets(counts.take(i)) + (i + 1) * counts[i],
        packets(counts.take(i + 1)) <= packets(counts),
    decreases counts.len() - i,
{
    assert(counts.take(i + 1).drop_last() =~= counts.take(i));
    if i + 1 < counts.len() {
        lemma_packets_step(counts, i + 1);
        let (n, c) = (i + 2, counts[i + 1] as int);
        assert(n * c >= 0) by (nonlinear_arith)
            requires
                n >= 0,
                c >= 0,
        ;
    } else {
        assert(counts.take(i + 1) =~= counts);
    }
}

/// The number of bursts, their average size and the share of full ones in percent.
pub open spec fn burst_figures(counts: Seq<u64>) -> Option<(u64, Binary64, Binary64)> {
    let n = totals::total(counts);
    if n == 0 {
        None
    } else {
        Some(
            (
                n as u64,
                float::quotient(figures::integer(packets(counts)), figures::integer(n)),
                figures::percentage(counts.last() as nat, n),
            ),
        )
    }
}

/// Returns the number of bursts, the average burst size and the share of full bursts in percent.
pub fn burst_stats(counts: &[u64]) -> (r: Option<(u64, Binary64, Binary64)>)
    requires
        packets(counts@) <= u64::MAX,
    ensures
        r == burst_figures(counts@),
        r matches Some(f) ==> f.1.wf() && f.1.log() <= 65 && f.2.wf() && f.2.log() <= 80,
{
    proof {
        lemma_packets_cover_bursts(counts@);
    }
    let n: u64 = totals::sum(counts);
    if n == 0 {
        return None;
    }
    let mut weighted: u64 = 0;
    let mut i: usize = 0;
    while i < counts.len()
        invariant
            i <= counts.len(),
            weighted == packets(counts@.take(i as int)),
            packets(counts@) <= u64::MAX,
        decreases counts.len() - i,
    {
        proof {
            lemma_packets_step(counts@, i as int);
            let (k, c) = (i + 1, counts@[i as int] as int);
            assert(0 <= k * c) by (nonlinear_arith)
                requires
                    k >= 0,
                    c >= 0,
            ;
        }
        let k: u64 = i as u64 + 1;
        weighted = weighted + k * counts[i];
        i = i + 1;
    }
    proof {
        assert(counts@.take(i as int) =~= counts@);
        assert(counts.len() > 0);
    }
    let full: u64 = counts[counts.len() - 1];
    Some((n, Binary64::from_u64(weighted).over(Binary64::from_u64(n)), figures::pct(full, n)))
}

/// The median of samples in ascending order is the middle one, or half the sum of the middle two; the order in which
/// they come does not matter.
pub proof fn lemma_median(rates: Seq<Binary64>) -> (m: Binary64)
    requires
        samples_wf(rates),
        rates.len() > 0,
        forall|i: int, j: int| 0 <= i <= j < rates.len() ==> !(#[trigger] rates[j]).less(#[trigger] rates[i]),
    ensures
        spread(rates) matches Some((median, _, _)) && median == m.rounded(),
        rates.len() % 2 == 1 ==> m == rates[rates.len() as int / 2],
        rates.len() % 2 == 0 ==> ({
            let (a, b) = (rates[rates.len() as int / 2 - 1], rates[rates.len() as int / 2]);
            near(m, (a.num() * b.den() + b.num() * a.den()) as int, (2 * (a.den() * b.den())) as int, 6)
        }),
{
    let leq = |a: Binary64, b: Binary64| at_most(a, b);
    lemma_total_order();
    rates.lemma_sort_by_ensures(leq);
    let s = ascending(rates);
    assert forall|i: int, j: int| 0 <= i <= j < s.len() implies at_most(s[i], s[j]) by {
        assert(leq(s[i], s[j]));
    }
    assert forall|i: int, j: int| 0 <= i <= j < rates.len() implies at_most(rates[i], rates[j]) by {
        lemma_order_by_value(rates[i], rates[j]);
    }
    lemma_ascending_unique(s, rates);
    let n = rates.len() as int;
    if n % 2 == 1 {
        rates[n / 2]
    } else {
        let (a, b) = (rates[n / 2 - 1], rates[n / 2]);
        let (an, ad, bn, bd) = (a.num() as int, a.den() as int, b.num() as int, b.den() as int);
        lemma_pow2_pos(float::down(a.exp as int));
        lemma_pow2_pos(float::down(b.exp as int));
        assert(near(a, an, ad, 0) && near(b, bn, bd, 0));
        lemma_near_expand(a, an, ad, 0, bd);
        lemma_near_expand(b, bn, bd, 0, ad);
        let (u, v, w) = (an * bd, bn * ad, ad * bd);
        assert(bd * ad == w && u >= 0 && v >= 0 && w > 0) by (nonlinear_arith)
            requires
                u == an * bd,
                v == bn * ad,
                w == ad * bd,
                an >= 0,
                bn >= 0,
                ad > 0,
                bd > 0,
        ;
        lemma_near_sum(a, b, u, v, w, 0);
        float::lemma_sum_of_finite(a, b);
        let t = float::sum(a, b);
        if a.mant != 0 && b.mant != 0 {
            float::lemma_sum_commutes(a, b);
            if a.exp <= b.exp {
                float::lemma_sum_in_range(a, b);
            } else {
                float::lemma_sum_in_range(b, a);
            }
        }
        lemma2_to64();
        lemma_near_integer(2);
        float::lemma_integer_log(2, 1, 2);
        lemma_near_quotient(t, figures::integer(2), u + v, w, 2, 2, 1, 1);
        assert(w * 2 == 2 * w);
        float::quotient(t, figures::integer(2))
    }
}

/// The mean times the number of samples is their sum, less a remainder below that number.
pub proof fn lemma_mean_times_length(samples: Seq<u64>)
    requires
        totals::total(samples) <= u64::MAX,
    ensures
        average(samples) is None <==> samples.len() == 0,
        average(samples) matches Some(m) ==> m * samples.len() <= totals::total(samples) < (m + 1) * samples.len(),
{
    if samples.len() > 0 {
        let (t, n) = (totals::total(samples) as int, samples.len() as int);
        vstd::arithmetic::div_mod::lemma_fundamental_div_mod(t, n);
        let m = t / n;
        assert(0 <= m <= t) by (nonlinear_arith)
            requires
                n > 0,
                m == t / n,
                t >= 0,
        ;
        assert(m * n == n * m && (m + 1) * n == n * m + n) by (nonlinear_arith);
    }
}

/// A burst of `i + 1` packets adds as many packets; bursts that did not happen add none.
pub proof fn lemma_burst_adds_its_packets(counts: Seq<u64>, i: int)
    requires
        0 <= i < counts.len(),
        counts[i] < u64::MAX,
    ensures
        packets(counts.update(i, (counts[i] + 1) as u64)) == packets(counts) + i + 1,
        packets(counts.push(0)) == packets(counts),
        packets(Seq::empty()) == 0,
    decreases counts.len(),
{
    let after = counts.update(i, (counts[i] + 1) as u64);
    let (n, c) = (counts.len() as int, counts.last() as int);
    assert(counts.push(0).drop_last() =~= counts);
    assert((n + 1) * 0 == 0) by (nonlinear_arith);
    if i == n - 1 {
        assert(after.drop_last() =~= counts.drop_last());
        assert(n * (c + 1) == n * c + n) by (nonlinear_arith);
    } else {
        lemma_burst_adds_its_packets(counts.drop_last(), i);
        assert(after.drop_last() =~= counts.drop_last().update(i, (counts[i] + 1) as u64));
    }
}

/// The average size of bursts times their number is the number of packets, and the share of full bursts times that
/// number is a hundred times the number of bursts of the largest size.
pub proof fn lemma_burst_figures(counts: Seq<u64>)
    requires
        packets(counts) <= u64::MAX,
    ensures
        burst_figures(counts) is None <==> totals::total(counts) == 0,
        burst_figures(counts) matches Some((n, size, full)) ==> {
            &&& n == totals::total(counts)
            &&& near(size, packets(counts) as int, n as int, 5)
            &&& near(full, 100 * counts[counts.len() - 1] as int, n as int, 9)
        },
{
    lemma_packets_cover_bursts(counts);
    let n = totals::total(counts);
    if n > 0 {
        lemma_near_integer(packets(counts));
        lemma_near_integer(n);
        lemma_near_quotient(
            figures::integer(packets(counts)),
            figures::integer(n),
            packets(counts) as int,
            1,
            1,
            n as int,
            1,
            1,
        );
        figures::lemma_percentage_of_whole(counts.last() as nat, n);
    }
}

} // verus!
