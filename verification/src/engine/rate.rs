//! The shared rate-control loop.

use vstd::arithmetic::div_mod::*;
use vstd::prelude::*;

use crate::totals;

verus! {

/// How often the generator is polled, in milliseconds.
pub const POLL_INTERVAL_MS: u64 = 10;

/// A control event for the generator: suspend, resume, or set a fixed RPS.
#[derive(Debug, Clone, Copy, PartialEq, Eq, Structural)]
pub enum GeneratorEvent {
    Suspend,
    Resume,
    SetRps(u64),
}

/// The part of `v` that goes to the `i`-th of `n` workers: an equal part, and one more for the first
/// ones until the remainder is used up.
pub open spec fn share(v: nat, n: nat, i: int) -> nat {
    v / n + (if i < v % n {
        1nat
    } else {
        0nat
    })
}

/// The parts of `v` for `n` workers.
pub open spec fn shares(v: nat, n: nat) -> Seq<u64> {
    Seq::new(n, |i: int| share(v, n, i) as u64)
}

/// Distributes a rate across workers.
pub fn distribute(v: u64, n: usize) -> (r: Vec<u64>)
    requires
        n > 0,
    ensures
        r@ == shares(v as nat, n as nat),
{
    let lb: u64 = v / n as u64;
    let ub: u64 = v % n as u64;
    let mut out: Vec<u64> = Vec::new();
    let mut idx: usize = 0;
    while idx < n
        invariant
            idx <= n,
            n > 0,
            lb == v as nat / n as nat,
            ub == v as nat % n as nat,
            out@ == shares(v as nat, n as nat).take(idx as int),
        decreases n - idx,
    {
        proof {
            lemma_fundamental_div_mod(v as int, n as int);
            assert(lb < u64::MAX || ub == 0) by (nonlinear_arith)
                requires
                    v == n * lb + ub,
                    n >= 1,
                    v <= u64::MAX,
                    lb <= u64::MAX,
            ;
        }
        let part: u64 = if (idx as u64) < ub {
            lb + 1
        } else {
            lb
        };
        out.push(part);
        assert(out@ =~= shares(v as nat, n as nat).take(idx + 1));
        idx = idx + 1;
    }
    assert(shares(v as nat, n as nat).take(idx as int) =~= shares(v as nat, n as nat));
    out
}

proof fn lemma_prefix_total(v: nat, n: nat, k: nat)
    requires
        0 < n,
        k <= n,
        v <= u64::MAX,
    ensures
        totals::total(shares(v, n).take(k as int)) == k * (v / n) + (if k <= v % n {
            k
        } else {
            v % n
        }),
    decreases k,
{
    let s = shares(v, n);
    let q = v / n;
    if k > 0 {
        let j = (k - 1) as nat;
        lemma_prefix_total(v, n, j);
        assert(s.take(k as int).drop_last() =~= s.take(j as int));
        lemma_fundamental_div_mod(v as int, n as int);
        assert(share(v, n, j as int) <= u64::MAX) by (nonlinear_arith)
            requires
                v == n * q + v % n,
                share(v, n, j as int) == q + (if j < v % n {
                    1nat
                } else {
                    0nat
                }),
                n >= 1,
                v <= u64::MAX,
        ;
        assert(k * q == j * q + q) by (nonlinear_arith)
            requires
                k == j + 1,
        ;
    } else {
        assert(s.take(0) =~= Seq::empty());
        assert(0 * q == 0);
    }
}

/// Nothing of the rate is lost or added by distributing it.
pub proof fn lemma_shares_add_up(v: u64, n: nat)
    requires
        n > 0,
    ensures
        totals::total(shares(v as nat, n)) == v,
{
    lemma_prefix_total(v as nat, n, n);
    assert(shares(v as nat, n).take(n as int) =~= shares(v as nat, n));
    lemma_fundamental_div_mod(v as int, n as int);
}

/// No worker gets more than one request per second above another, and earlier workers never get less
/// than later ones.
pub proof fn lemma_shares_even(v: u64, n: nat, i: int, j: int)
    requires
        0 <= i <= j < n,
    ensures
        share(v as nat, n, j) <= share(v as nat, n, i) <= share(v as nat, n, j) + 1,
{
}

/// What to do in a round of the rate-control loop.
#[derive(Debug)]
pub enum Round {
    /// The profile is exhausted or the run is over: clear the run flag and stop.
    Stop,
    /// Give each worker its part, show the rate, and sleep.
    Apply { limits: Vec<u64>, shown: u64 },
}

/// Decides a round of the rate-control loop from the generator's current rate.
///
/// A control event received in the round acts on the generator, and so on the rate of the next round.
pub fn next_round(current: Option<u64>, is_running: bool, workers: usize) -> (r: Round)
    requires
        workers > 0,
    ensures
        match current {
            Some(v) => if is_running {
                r matches Round::Apply { limits, shown } && limits@ == shares(v as nat, workers as nat) && shown == v
            } else {
                r is Stop
            },
            None => r is Stop,
        },
        applied(current, is_running, workers as nat) == (match r {
            Round::Apply { limits, shown } => Some((limits@, shown)),
            Round::Stop => None,
        }),
        r is Stop <==> current is None || !is_running,
        r matches Round::Apply { limits, shown } ==> {
            &&& current == Some(shown)
            &&& limits@.len() == workers
            &&& totals::total(limits@) == shown
        },
{
    match current {
        Some(v) => {
            if !is_running {
                return Round::Stop;
            }
            proof {
                lemma_shares_add_up(v, workers as nat);
            }
            Round::Apply { limits: distribute(v, workers), shown: v }
        },
        None => Round::Stop,
    }
}

/// What a round of the rate-control loop applies: the limits of the workers and the rate to show; nothing where the
/// loop stops.
pub open spec fn applied(current: Option<u64>, is_running: bool, workers: nat) -> Option<(Seq<u64>, u64)> {
    if is_running && current is Some {
        Some((shares(current->0 as nat, workers), current->0))
    } else {
        None
    }
}

/// The loop goes on while it is running and has a rate. It shows the rate as it is, and the limits of the workers, one
/// for each, add up to it and differ by no more than one.
pub proof fn lemma_rounds_apply_the_rate(current: Option<u64>, is_running: bool, workers: nat, i: int, j: int)
    requires
        0 <= i <= j < workers,
    ensures
        applied(current, is_running, workers) is Some <==> is_running && current is Some,
        applied(current, is_running, workers) matches Some((limits, shown)) ==> {
            &&& current == Some(shown)
            &&& limits.len() == workers
            &&& totals::total(limits) == shown
            &&& limits[j] <= limits[i] <= limits[j] + 1
        },
{
    if is_running && current is Some {
        let v = current->0;
        lemma_shares_add_up(v, workers);
        lemma_shares_even(v, workers, i, j);
        lemma_share_fits(v, workers, i);
        lemma_share_fits(v, workers, j);
    }
}

proof fn lemma_share_fits(v: u64, n: nat, i: int)
    requires
        0 <= i < n,
    ensures
        share(v as nat, n, i) <= u64::MAX,
{
    lemma_fundamental_div_mod(v as int, n as int);
    let q = v as int / n as int;
    let r = v as int % n as int;
    assert(q <= v && (r > 0 ==> q < v)) by (nonlinear_arith)
        requires
            v == n * q + r,
            n >= 1,
            r >= 0,
            q >= 0,
    ;
}

} // verus!
