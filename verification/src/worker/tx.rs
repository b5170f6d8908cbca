//! Transmission loop of a DPDK worker.
//!
//! A worker sends its packets round and round, in bursts that stop at the end of the ring.

use vstd::arithmetic::div_mod::*;
use vstd::prelude::*;

use crate::engine::http3;
use crate::worker::dpdk::{MBUFS_BURST_SIZE, MBUFS_COUNT};

verus! {

/// Rounds over all packets between two refreshes of their reference counts.
pub const ROUNDS_PER_REFRESH: u64 = 16384;

/// The reference count that a refresh sets: one per round, and some in reserve.
pub const REFRESHED_REFCNT: u16 = 17408;

/// The reference count that lets the driver free a packet.
pub const FINAL_REFCNT: u16 = 1;

/// A worker, as far as its place in the ring of packets goes.
#[derive(Debug, Clone, Copy, PartialEq, Eq, Structural)]
pub struct Worker {
    /// Number of packets in the ring.
    pub mbufs_count: u64,
    /// Number of packets sent so far.
    pub packets_count_tx: u64,
}

/// A part of the ring to hand to the device.
#[derive(Debug, Clone, Copy, PartialEq, Eq, Structural)]
pub struct Burst {
    /// Index of the first packet.
    pub start: u64,
    /// Number of packets.
    pub count: u16,
}

/// What a burst adds to the statistics and takes from the shaper.
#[derive(Debug, Clone, Copy, PartialEq, Eq, Structural)]
pub struct Sent {
    pub requests: u64,
    /// Size of the burst, which is counted once.
    pub burst: u64,
    pub bytes: u64,
    /// Tokens that the shaper loses.
    pub consumed: u64,
}

/// The smaller of two numbers.
pub open spec fn least(a: int, b: int) -> int {
    if a <= b {
        a
    } else {
        b
    }
}

impl Worker {
    /// There is at least one packet, and all of them fit into the ring.
    pub open spec fn wf(self) -> bool {
        0 < self.mbufs_count <= MBUFS_COUNT
    }

    /// The number of packets between two refreshes.
    pub open spec fn refresh_period(self) -> int {
        self.mbufs_count * ROUNDS_PER_REFRESH
    }

    /// Whether the reference counts are to be refreshed now.
    pub open spec fn wants_refresh(self) -> bool {
        self.packets_count_tx as int % self.refresh_period() == 0
    }

    /// Index of the next packet.
    pub open spec fn at(self) -> int {
        self.packets_count_tx as int % self.mbufs_count as int
    }

    /// Returns whether the reference counts are to be refreshed before the next burst.
    pub fn refresh_due(&self) -> (r: bool)
        requires
            self.wf(),
        ensures
            r == self.wants_refresh(),
    {
        let m: u64 = self.mbufs_count;
        assert(0 < m * ROUNDS_PER_REFRESH <= 4294967296) by (nonlinear_arith)
            requires
                0 < m <= 262144,
                ROUNDS_PER_REFRESH == 16384,
        ;
        self.packets_count_tx % (m * ROUNDS_PER_REFRESH) == 0
    }

    /// Returns the next burst for a number of tokens; `None` without tokens.
    ///
    /// A burst has at most 32 packets and does not reach past the end of the ring.
    pub fn next_burst(&self, tokens: u64) -> (r: Option<Burst>)
        requires
            self.wf(),
        ensures
            r is None <==> tokens == 0,
            r matches Some(b) ==> {
                &&& b.start == self.at()
                &&& b.count == least(least(MBUFS_BURST_SIZE as int, self.mbufs_count - self.at()), tokens as int)
                &&& 0 < b.count
                &&& b.start + b.count <= self.mbufs_count
                &&& b.count == self.burst_len(tokens as int)
                &&& b.count <= 32 && b.count <= tokens
                &&& b.count == 32 || b.count == tokens || b.start + b.count == self.mbufs_count
            },
    {
        if tokens == 0 {
            return None;
        }
        let start: u64 = self.packets_count_tx % self.mbufs_count;
        let left: u64 = self.mbufs_count - start;
        let mut count: u64 = MBUFS_BURST_SIZE as u64;
        if left < count {
            count = left;
        }
        if tokens < count {
            count = tokens;
        }
        Some(Burst { start, count: count as u16 })
    }

    /// Accounts for the packets that the device took; `None` when it took none.
    ///
    /// All tokens are consumed, whatever part of the burst was taken.
    pub fn on_sent(&mut self, tx_size: u16, bytes: u64, tokens: u64) -> (r: Option<Sent>)
        requires
            old(self).wf(),
            old(self).packets_count_tx + tx_size <= u64::MAX,
        ensures
            final(self).wf(),
            final(self).mbufs_count == old(self).mbufs_count,
            final(self).packets_count_tx == old(self).packets_count_tx + tx_size,
            r == (if tx_size > 0 {
                Some(Sent { requests: tx_size as u64, burst: tx_size as u64, bytes, consumed: tokens })
            } else {
                None
            }),
            r == sent(tx_size as u64, bytes, tokens),
            r is None <==> final(self).packets_count_tx == old(self).packets_count_tx,
            r matches Some(s) ==> {
                &&& s.requests == final(self).packets_count_tx - old(self).packets_count_tx
                &&& s.burst == s.requests
                &&& s.bytes == bytes
                &&& s.consumed == tokens
            },
    {
        if tx_size > 0 {
            self.packets_count_tx = self.packets_count_tx + tx_size as u64;
            Some(Sent { requests: tx_size as u64, burst: tx_size as u64, bytes, consumed: tokens })
        } else {
            None
        }
    }
}

/// The sum of packet lengths.
pub open spec fn bytes_in(lens: Seq<u32>) -> nat
    decreases lens.len(),
{
    if lens.len() == 0 {
        0
    } else {
        bytes_in(lens.drop_last()) + lens.last() as nat
    }
}

/// Sums the lengths of the packets of a burst.
pub fn burst_bytes(lens: &[u32]) -> (r: u64)
    requires
        lens@.len() <= u16::MAX,
    ensures
        r == bytes_in(lens@),
{
    let mut size: u64 = 0;
    let mut i: usize = 0;
    assert(lens@.take(0) =~= Seq::empty());
    while i < lens.len()
        invariant
            i <= lens@.len() <= u16::MAX,
            size == bytes_in(lens@.take(i as int)),
            size <= i * u32::MAX,
        decreases lens@.len() - i,
    {
        assert(lens@.take(i + 1).drop_last() =~= lens@.take(i as int));
        size = size + lens[i] as u64;
        i = i + 1;
    }
    assert(lens@.take(i as int) =~= lens@);
    size
}

/// A refresh is never skipped: a burst ends at or before the next moment a refresh is due.
pub proof fn lemma_refresh_not_skipped(c: Worker, n: int, k: int)
    requires
        c.wf(),
        0 <= n <= c.mbufs_count - c.at(),
        c.packets_count_tx < k < c.packets_count_tx + n,
    ensures
        k % c.refresh_period() != 0,
{
    let (m, t) = (c.mbufs_count as int, c.packets_count_tx as int);
    let p = m * ROUNDS_PER_REFRESH;
    if k % p == 0 {
        assert(p > 0) by (nonlinear_arith)
            requires
                p == m * 16384,
                m > 0,
        ;
        lemma_fundamental_div_mod(k, p);
        lemma_fundamental_div_mod(t, m);
        let (q, r) = (k / p, t / m);
        assert(k == m * (16384 * q)) by (nonlinear_arith)
            requires
                k == p * q,
                p == m * 16384,
        ;
        let j = 16384 * q;
        // r * m <= t < k < (r + 1) * m leaves no room for a multiple of m
        assert(m * j > m * r && m * j < m * r + m);
        assert(j > r && j < r + 1) by (nonlinear_arith)
            requires
                m > 0,
                m * j > m * r,
                m * j < m * r + m,
        ;
    }
}

/// How often packet `j` of a ring of `m` is sent while the count of sent packets runs over `n` numbers from
/// `from` on.
pub open spec fn times_sent(from: int, n: nat, m: int, j: int) -> nat
    decreases n,
{
    if n == 0 {
        0
    } else {
        times_sent(from, (n - 1) as nat, m, j) + (if (from + n - 1) % m == j {
            1nat
        } else {
            0nat
        })
    }
}

proof fn lemma_times_sent(from: int, n: nat, m: int, j: int)
    requires
        m > 0,
        from >= 0,
        from % m == 0,
        0 <= j < m,
    ensures
        times_sent(from, n, m, j) == http3::dealt_to(n, m as nat, j),
    decreases n,
{
    if n > 0 {
        lemma_times_sent(from, (n - 1) as nat, m, j);
        let i = n - 1;
        lemma_fundamental_div_mod(from, m);
        let q = from / m;
        lemma_mod_multiples_vanish(q, i, m);
        assert(m * q + i == from + n - 1);
    }
}

/// A reference count never runs out: from one refresh to the next, a packet is sent fewer times than the
/// refresh provides for.
pub proof fn lemma_refcnt_suffices(w: Worker, from: int, n: nat, j: int)
    requires
        w.wf(),
        from >= 0,
        from % w.refresh_period() == 0,
        n <= w.refresh_period(),
        0 <= j < w.mbufs_count,
    ensures
        times_sent(from, n, w.mbufs_count as int, j) < REFRESHED_REFCNT,
{
    let m = w.mbufs_count as int;
    let p = w.refresh_period();
    assert(p > 0) by (nonlinear_arith)
        requires
            p == m * 16384,
            m > 0,
    ;
    lemma_fundamental_div_mod(from, p);
    let q = from / p;
    assert(from == (16384 * q) * m) by (nonlinear_arith)
        requires
            from == p * q,
            p == m * 16384,
    ;
    lemma_mod_multiples_basic(16384 * q, m);
    lemma_times_sent(from, n, m, j);
    http3::lemma_dealt_in_turn(n, m as nat, j);
    lemma_fundamental_div_mod(n as int, m);
    let (a, b) = (n as int / m, n as int % m);
    assert(a <= 16384) by (nonlinear_arith)
        requires
            n == m * a + b,
            b >= 0,
            n <= m * 16384,
            m > 0,
    ;
}

/// The bursts of a round cover the ring in order: the next packet follows the last one sent,
/// and the first one follows the end of the ring.
pub proof fn lemma_ring_order(c: Worker, n: int)
    requires
        c.wf(),
        0 <= n <= c.mbufs_count - c.at(),
        c.packets_count_tx + n <= u64::MAX,
    ensures
        (Worker { mbufs_count: c.mbufs_count, packets_count_tx: (c.packets_count_tx + n) as u64 }).at() == (if c.at()
            + n == c.mbufs_count {
            0
        } else {
            c.at() + n
        }),
{
    let (m, t) = (c.mbufs_count as int, c.packets_count_tx as int);
    lemma_fundamental_div_mod(t, m);
    let q = t / m;
    let a = c.at() + n;
    if a == m {
        assert(t + n == m * (q + 1)) by (nonlinear_arith)
            requires
                t == m * q + c.at(),
                c.at() + n == m,
        ;
        lemma_mod_multiples_basic(q + 1, m);
        assert(m * (q + 1) == (q + 1) * m) by (nonlinear_arith);
    } else {
        lemma_mod_multiples_vanish(q, a, m);
        lemma_small_mod(a as nat, m as nat);
    }
}

/// The bytes of two bursts are those of each, and a packet counts with its length.
pub proof fn lemma_bytes_add_up(a: Seq<u32>, b: Seq<u32>, len: u32)
    ensures
        bytes_in(a + b) == bytes_in(a) + bytes_in(b),
        bytes_in(seq![len]) == len,
        bytes_in(Seq::empty()) == 0,
    decreases b.len(),
{
    assert(seq![len].drop_last() =~= Seq::empty());
    assert(bytes_in(seq![len].drop_last()) == 0);
    if b.len() == 0 {
        assert(a + b =~= a);
    } else {
        assert((a + b).drop_last() =~= a + b.drop_last());
        lemma_bytes_add_up(a, b.drop_last(), len);
    }
}

/// A refresh is due at the start and after every 16384 rounds over the ring, and at no other time.
pub proof fn lemma_refresh_every_16384_rounds(w: Worker, rounds: int, rest: int)
    requires
        w.wf(),
        rounds >= 0,
        0 <= rest < w.mbufs_count * 16384,
        w.packets_count_tx == rounds * (w.mbufs_count * 16384) + rest,
    ensures
        w.wants_refresh() <==> rest == 0,
{
    lemma_fundamental_div_mod_converse(w.packets_count_tx as int, w.mbufs_count * 16384, rounds, rest);
}

impl Worker {
    /// The number of packets in the next burst for a number of tokens.
    pub open spec fn burst_len(self, tokens: int) -> int {
        least(least(MBUFS_BURST_SIZE as int, self.mbufs_count - self.at()), tokens)
    }
}

/// A burst is as long as can be: it ends with the tokens, at the end of the ring or at 32 packets, whichever comes
/// first, and is never empty where there are tokens.
pub proof fn lemma_bursts_are_full(w: Worker, tokens: int)
    requires
        w.wf(),
        tokens > 0,
    ensures
        0 < w.burst_len(tokens) <= 32,
        w.burst_len(tokens) <= tokens,
        w.at() + w.burst_len(tokens) <= w.mbufs_count,
        w.burst_len(tokens) == 32 || w.burst_len(tokens) == tokens || w.at() + w.burst_len(tokens) == w.mbufs_count,
        0 <= w.at() < w.mbufs_count,
{
}

/// What the packets that the device took add to the statistics, if it took any.
pub open spec fn sent(tx_size: u64, bytes: u64, tokens: u64) -> Option<Sent> {
    if tx_size == 0 {
        None
    } else {
        Some(Sent { requests: tx_size, burst: tx_size, bytes, consumed: tokens })
    }
}

/// Packets that were taken count as requests and as one burst of their number, with their bytes, and cost all tokens;
/// a burst that was not taken counts for nothing.
pub proof fn lemma_what_is_counted(tx_size: u64, bytes: u64, tokens: u64)
    ensures
        sent(tx_size, bytes, tokens) is None <==> tx_size == 0,
        sent(tx_size, bytes, tokens) matches Some(s) ==> s.requests == tx_size && s.burst == tx_size && s.bytes == bytes
            && s.consumed == tokens,
{
}

} // verus!
