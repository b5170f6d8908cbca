//! Sums over sequences of counters.

use vstd::prelude::*;

verus! {

/// The sum of the counters.
pub open spec fn total(s: Seq<u64>) -> nat
    decreases s.len(),
{
    if s.len() == 0 {
        0
    } else {
        total(s.drop_last()) + s.last() as nat
    }
}

/// A prefix sums to no more than the whole.
pub proof fn lemma_total_prefix(s: Seq<u64>, i: int)
    requires
        0 <= i <= s.len(),
    ensures
        total(s.take(i)) <= total(s),
    decreases s.len() - i,
{
    if i < s.len() {
        lemma_total_prefix(s, i + 1);
        assert(s.take(i + 1).drop_last() =~= s.take(i));
    } else {
        assert(s.take(i) =~= s);
    }
}

/// The sum of a prefix that is one longer.
pub proof fn lemma_total_step(s: Seq<u64>, i: int)
    requires
        0 <= i < s.len(),
    ensures
        total(s.take(i + 1)) == total(s.take(i)) + s[i],
        total(s.take(i + 1)) <= total(s),
{
    assert(s.take(i + 1).drop_last() =~= s.take(i));
    lemma_total_prefix(s, i + 1);
}

/// Replacing one counter moves the sum by the difference.
pub proof fn lemma_total_update(s: Seq<u64>, i: int, v: u64)
    requires
        0 <= i < s.len(),
    ensures
        total(s.update(i, v)) == total(s) - s[i] + v,
    decreases s.len(),
{
    let t = s.update(i, v);
    if i == s.len() - 1 {
        assert(t.drop_last() =~= s.drop_last());
    } else {
        lemma_total_update(s.drop_last(), i, v);
        assert(t.drop_last() =~= s.drop_last().update(i, v));
    }
}

/// Sums the counters.
pub fn sum(s: &[u64]) -> (r: u64)
    requires
        total(s@) <= u64::MAX,
    ensures
        r == total(s@),
{
    let mut r: u64 = 0;
    let mut i: usize = 0;
    while i < s.len()
        invariant
            i <= s.len(),
            r == total(s@.take(i as int)),
            total(s@) <= u64::MAX,
        decreases s.len() - i,
    {
        proof {
            lemma_total_step(s@, i as int);
        }
        r = r + s[i];
        i = i + 1;
    }
    assert(s@.take(i as int) =~= s@);
    r
}

/// The sum of two lists of counters is that of their sums, and one counter sums to itself.
pub proof fn lemma_total_adds_up(a: Seq<u64>, b: Seq<u64>, v: u64)
    ensures
        total(a + b) == total(a) + total(b),
        total(seq![v]) == v,
        total(Seq::empty()) == 0,
    decreases b.len(),
{
    assert(seq![v].drop_last() =~= Seq::empty());
    assert(total(seq![v].drop_last()) == 0);
    if b.len() == 0 {
        assert(a + b =~= a);
    } else {
        assert((a + b).drop_last() =~= a + b.drop_last());
        lemma_total_adds_up(a, b.drop_last(), v);
    }
}

} // verus!
