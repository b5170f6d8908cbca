//! Endless producers that cycle over their values.

use vstd::arithmetic::div_mod::*;
use vstd::prelude::*;

use crate::engine::http3;

verus! {

/// Infinite cycle producing iterator, that yields the same value.
#[derive(Debug)]
pub struct OneProduce<T> {
    v: T,
}

impl<T> OneProduce<T> {
    /// The value produced.
    pub closed spec fn value(&self) -> T {
        self.v
    }

    /// Constructs a new [`OneProduce`] from the given value.
    pub fn new(v: T) -> (r: Self)
        ensures
            r.value() == v,
    {
        OneProduce { v }
    }

    /// Returns the next value.
    pub fn next(&self) -> (r: &T)
        ensures
            *r == self.value(),
    {
        &self.v
    }
}

/// The position after a value was handed out.
pub open spec fn following(position: usize) -> usize {
    if position == usize::MAX {
        0
    } else {
        (position + 1) as usize
    }
}

/// The position of a new producer after a number of values were handed out.
pub open spec fn position_after(k: nat) -> usize
    decreases k,
{
    if k == 0 {
        0
    } else {
        following(position_after((k - 1) as nat))
    }
}

/// Infinite cycle producing iterator over the given vector.
#[derive(Debug)]
pub struct VecProduce<T> {
    vec: Vec<T>,
    idx: usize,
}

impl<T> View for VecProduce<T> {
    type V = Seq<T>;

    /// The values produced, in order.
    closed spec fn view(&self) -> Seq<T> {
        self.vec@
    }
}

impl<T> VecProduce<T> {
    /// The number of values handed out so far; it starts over after the largest `usize`.
    pub closed spec fn position(&self) -> usize {
        self.idx
    }

    /// Constructs a new [`VecProduce`] from the given vector.
    pub fn new(vec: Vec<T>) -> (r: Self)
        ensures
            r@ == vec@,
            r.position() == 0,
    {
        VecProduce { vec, idx: 0 }
    }

    /// Returns the value with the given ticket.
    ///
    /// Tickets drawn from a shared counter make the producer safe to use from many threads.
    pub fn pick(&self, ticket: usize) -> (r: &T)
        requires
            self@.len() > 0,
        ensures
            *r == self@[ticket as int % self@.len() as int],
            *r == item_at(self@, ticket as int),
    {
        let i: usize = ticket % self.vec.len();
        &self.vec[i]
    }

    /// Advances this producer and returns the next value.
    pub fn next(&mut self) -> (r: &T)
        requires
            old(self)@.len() > 0,
        ensures
            *r == old(self)@[old(self).position() as int % old(self)@.len() as int],
            *r == item_at(old(self)@, old(self).position() as int),
            final(self)@ == old(self)@,
            final(self).position() == following(old(self).position()),
    {
        let ticket: usize = self.idx;
        self.idx = if ticket == usize::MAX {
            0
        } else {
            ticket + 1
        };
        let i: usize = ticket % self.vec.len();
        &self.vec[i]
    }

    /// Returns the number of values in the cycle.
    pub fn len(&self) -> (r: usize)
        ensures
            r == self@.len(),
    {
        self.vec.len()
    }
}

/// The `k`-th call, counted from zero, yields the value at `k` modulo the length, as long as the calls can
/// be counted in a `usize`.
pub proof fn lemma_kth_value<T>(p: VecProduce<T>, k: nat)
    requires
        k <= usize::MAX,
        p.position() == position_after(k),
        p@.len() > 0,
    ensures
        p.position() == k,
        p@[p.position() as int % p@.len() as int] == p@[k as int % p@.len() as int],
{
    lemma_position(k);
}

proof fn lemma_position(k: nat)
    requires
        k <= usize::MAX,
    ensures
        position_after(k) == k,
    decreases k,
{
    if k > 0 {
        lemma_position((k - 1) as nat);
    }
}

/// A number of whole rounds yields each value equally often: once per round.
pub proof fn lemma_rounds_are_even(n: nat, rounds: nat, j: int)
    requires
        0 <= j < n,
    ensures
        http3::dealt_to(rounds * n, n, j) == rounds,
{
    http3::lemma_dealt_in_turn(rounds * n, n, j);
    lemma_fundamental_div_mod_converse((rounds * n) as int, n as int, rounds as int, 0);
}

/// Every round over the cycle yields the same values: a whole number of rounds later the same value
/// comes again.
pub proof fn lemma_cycle(n: int, ticket: int, rounds: int)
    requires
        n > 0,
        0 <= ticket,
        0 <= rounds,
    ensures
        (ticket + rounds * n) % n == ticket % n,
{
    lemma_mod_multiples_vanish(rounds, ticket, n);
    assert(n * rounds + ticket == ticket + rounds * n) by (nonlinear_arith);
}

/// The value that comes at a position of an endless cycle.
pub open spec fn item_at<T>(s: Seq<T>, position: int) -> T {
    s[position % s.len() as int]
}

/// The cycle starts with the first value, goes on with the value after the last one handed out, and starts over
/// after the last value.
pub proof fn lemma_values_in_order<T>(s: Seq<T>, position: int)
    requires
        s.len() > 0,
        position >= 0,
    ensures
        position < s.len() ==> item_at(s, position) == s[position],
        item_at(s, position + s.len()) == item_at(s, position),
{
    if position < s.len() {
        lemma_small_mod(position as nat, s.len());
    }
    lemma_mod_multiples_vanish(1, position, s.len() as int);
    assert(s.len() as int * 1 + position == position + s.len());
}

/// A value handed out moves the position on by one; behind the largest `usize` it starts over at zero.
pub proof fn lemma_positions_go_on(position: usize)
    ensures
        position < usize::MAX ==> following(position) == position + 1,
        following(usize::MAX) == 0,
        position_after(0) == 0,
{
}

} // verus!
