//! Wire snapshots of the statistics and engine descriptions.
//!
//! Every engine exposes exactly the statistic groups it keeps, so its snapshot
//! fills only the matching parts.

use vstd::prelude::*;

use crate::stat::{
    BurstTxStat, BurstTxWorkerStat, CommonStat, HttpStat, HttpWorkerStat, RxStat, RxWorkerStat, SockWorkerStat,
    SocketStat, Stat, TxStat, TxWorkerStat, BURST_TX_BUCKETS,
};

verus! {

/// Transmission part of a snapshot.
#[derive(Clone, Copy, Debug, PartialEq, Eq, Structural)]
pub struct TxStats {
    pub num_requests: u64,
    pub bytes_tx: u64,
}

/// Reception part of a snapshot.
#[derive(Clone, Debug)]
pub struct RxStats {
    pub num_responses: u64,
    pub num_timeouts: u64,
    pub bytes_rx: u64,
    pub histogram_buckets: Vec<u64>,
}

/// Socket part of a snapshot.
#[derive(Clone, Copy, Debug, PartialEq, Eq, Structural)]
pub struct SocketStats {
    pub num_sock_created: u64,
    pub num_sock_errors: u64,
    pub num_retransmits: u64,
}

/// HTTP part of a snapshot.
#[derive(Clone, Copy, Debug, PartialEq, Eq, Structural)]
pub struct HttpStats {
    pub num_2xx: u64,
    pub num_3xx: u64,
    pub num_4xx: u64,
    pub num_5xx: u64,
}

/// Burst part of a snapshot.
#[derive(Clone, Debug)]
pub struct BurstTxStats {
    pub num_bursts_tx: Vec<u64>,
}

/// Absolute cumulative counters of a running engine.
#[derive(Clone, Debug)]
pub struct StatsSnapshot {
    pub generator_rps: u64,
    pub tx: Option<TxStats>,
    pub rx: Option<RxStats>,
    pub socket: Option<SocketStats>,
    pub http: Option<HttpStats>,
    pub burst_tx: Option<BurstTxStats>,
}

impl Default for StatsSnapshot {
    /// An empty snapshot.
    fn default() -> (r: Self)
        ensures
            r.generator_rps == 0,
            r.tx is None,
            r.rx is None,
            r.socket is None,
            r.http is None,
            r.burst_tx is None,
    {
        StatsSnapshot { generator_rps: 0, tx: None, rx: None, socket: None, http: None, burst_tx: None }
    }
}

/// A source that can produce a snapshot of its current values.
pub trait SnapshotSource {
    /// Whether the source is in a state that can be read.
    spec fn readable(&self) -> bool;

    /// Whether `s` shows the current values of this source.
    spec fn shows(&self, s: StatsSnapshot) -> bool;

    /// Builds a snapshot of the current cumulative statistics.
    fn snapshot(&self) -> (r: StatsSnapshot)
        requires
            self.readable(),
        ensures
            self.shows(r),
    ;
}

/// The transmission counters of a source, as they appear in a snapshot.
pub open spec fn tx_part(c: TxWorkerStat) -> TxStats {
    TxStats { num_requests: c.num_requests, bytes_tx: c.bytes_tx }
}

/// The socket counters of a source, as they appear in a snapshot.
pub open spec fn socket_part(c: SockWorkerStat) -> SocketStats {
    SocketStats {
        num_sock_created: c.num_sock_created,
        num_sock_errors: c.num_sock_errors,
        num_retransmits: c.num_retransmits,
    }
}

/// The HTTP counters of a source, as they appear in a snapshot.
pub open spec fn http_part(c: HttpWorkerStat) -> HttpStats {
    HttpStats { num_2xx: c.num_2xx, num_3xx: c.num_3xx, num_4xx: c.num_4xx, num_5xx: c.num_5xx }
}

/// Whether the reception part shows the given counters.
pub open spec fn is_rx_part(r: RxStats, c: RxWorkerStat) -> bool {
    &&& r.num_responses == c.num_responses
    &&& r.num_timeouts == c.num_timeouts
    &&& r.bytes_rx == c.bytes_rx
    &&& r.histogram_buckets@ == c.buckets@
}

/// Returns the target rate.
pub fn common_rps<S: CommonStat>(s: &S) -> (r: u64)
    ensures
        r == s.generator_rps(),
{
    s.generator()
}

/// Reads the transmission counters.
pub fn tx_stats<S: TxStat>(s: &S) -> (r: TxStats)
    ensures
        r == tx_part(s.tx()),
{
    TxStats { num_requests: s.num_requests(), bytes_tx: s.bytes_tx() }
}

/// Reads the reception counters.
pub fn rx_stats<S: RxStat>(s: &S) -> (r: RxStats)
    ensures
        is_rx_part(r, s.rx()),
{
    let buckets: Vec<u64> = s.hist().snapshot().clone();
    RxStats {
        num_responses: s.num_responses(),
        num_timeouts: s.num_timeouts(),
        bytes_rx: s.bytes_rx(),
        histogram_buckets: buckets,
    }
}

/// Reads the socket counters.
pub fn socket_stats<S: SocketStat>(s: &S) -> (r: SocketStats)
    ensures
        r == socket_part(s.sock()),
{
    SocketStats {
        num_sock_created: s.num_sock_created(),
        num_sock_errors: s.num_sock_errors(),
        num_retransmits: s.num_retransmits(),
    }
}

/// Reads the HTTP counters.
pub fn http_stats<S: HttpStat>(s: &S) -> (r: HttpStats)
    ensures
        r == http_part(s.http()),
{
    HttpStats { num_2xx: s.num_2xx(), num_3xx: s.num_3xx(), num_4xx: s.num_4xx(), num_5xx: s.num_5xx() }
}

/// Reads the burst counters.
pub fn burst_tx_stats<S: BurstTxStat>(s: &S) -> (r: BurstTxStats)
    requires
        s.bursts().len() >= BURST_TX_BUCKETS,
    ensures
        r.num_bursts_tx@ == s.bursts().take(BURST_TX_BUCKETS as int),
{
    let mut num_bursts_tx: Vec<u64> = Vec::new();
    let mut idx: usize = 0;
    while idx < BURST_TX_BUCKETS
        invariant
            idx <= BURST_TX_BUCKETS <= s.bursts().len(),
            num_bursts_tx@ == s.bursts().take(idx as int),
        decreases BURST_TX_BUCKETS - idx,
    {
        num_bursts_tx.push(s.num_bursts_tx(idx));
        idx = idx + 1;
        assert(num_bursts_tx@ =~= s.bursts().take(idx as int));
    }
    BurstTxStats { num_bursts_tx }
}

/// HTTP engine statistics: TX, RX with the latency histogram, sockets and HTTP.
impl<B> SnapshotSource for Stat<TxWorkerStat, RxWorkerStat, SockWorkerStat, HttpWorkerStat, B> {
    open spec fn readable(&self) -> bool {
        true
    }

    open spec fn shows(&self, s: StatsSnapshot) -> bool {
        &&& s.generator_rps == self.generator
        &&& s.tx == Some(tx_part(self.tx))
        &&& s.rx is Some && is_rx_part(s.rx->0, self.rx)
        &&& s.socket == Some(socket_part(self.sock))
        &&& s.http == Some(http_part(self.http))
        &&& s.burst_tx is None
    }

    fn snapshot(&self) -> (r: StatsSnapshot) {
        StatsSnapshot {
            generator_rps: common_rps(self),
            tx: Some(tx_stats(self)),
            rx: Some(rx_stats(self)),
            socket: Some(socket_stats(self)),
            http: Some(http_stats(self)),
            burst_tx: None,
        }
    }
}

/// UDP engine statistics: TX and sockets.
impl<H, B> SnapshotSource for Stat<TxWorkerStat, (), SockWorkerStat, H, B> {
    open spec fn readable(&self) -> bool {
        true
    }

    open spec fn shows(&self, s: StatsSnapshot) -> bool {
        &&& s.generator_rps == self.generator
        &&& s.tx == Some(tx_part(self.tx))
        &&& s.rx is None
        &&& s.socket == Some(socket_part(self.sock))
        &&& s.http is None
        &&& s.burst_tx is None
    }

    fn snapshot(&self) -> (r: StatsSnapshot) {
        StatsSnapshot {
            generator_rps: common_rps(self),
            tx: Some(tx_stats(self)),
            rx: None,
            socket: Some(socket_stats(self)),
            http: None,
            burst_tx: None,
        }
    }
}

/// DPDK engine statistics: TX with the burst-size counters only.
impl SnapshotSource for Stat<TxWorkerStat, (), (), (), BurstTxWorkerStat> {
    open spec fn readable(&self) -> bool {
        self.burst.bursts.len() >= BURST_TX_BUCKETS
    }

    open spec fn shows(&self, s: StatsSnapshot) -> bool {
        &&& s.generator_rps == self.generator
        &&& s.tx == Some(tx_part(self.tx))
        &&& s.rx is None
        &&& s.socket is None
        &&& s.http is None
        &&& s.burst_tx is Some && (s.burst_tx->0).num_bursts_tx@ == self.burst.bursts@.take(
            BURST_TX_BUCKETS as int,
        )
    }

    fn snapshot(&self) -> (r: StatsSnapshot) {
        StatsSnapshot {
            generator_rps: common_rps(self),
            tx: Some(tx_stats(self)),
            rx: None,
            socket: None,
            http: None,
            burst_tx: Some(burst_tx_stats(self)),
        }
    }
}

/// A group of statistics, shown as one widget.
#[derive(Clone, Copy, Debug, PartialEq, Eq, Structural)]
pub enum StatGroup {
    Common,
    Tx,
    Rx,
    Http,
    Socket,
    RxTimings,
    BurstTx,
}

/// The numbers that the wire schema assigns to the statistic groups.
#[derive(Clone, Copy, Debug, PartialEq, Eq, Structural)]
pub struct GroupNumbers {
    pub common: i32,
    pub tx: i32,
    pub rx: i32,
    pub http: i32,
    pub socket: i32,
    pub rx_timings: i32,
    pub burst_tx: i32,
}

impl GroupNumbers {
    /// The number of a group.
    pub open spec fn number(self, g: StatGroup) -> i32 {
        match g {
            StatGroup::Common => self.common,
            StatGroup::Tx => self.tx,
            StatGroup::Rx => self.rx,
            StatGroup::Http => self.http,
            StatGroup::Socket => self.socket,
            StatGroup::RxTimings => self.rx_timings,
            StatGroup::BurstTx => self.burst_tx,
        }
    }

    /// Returns the number of a group.
    pub fn number_of(&self, g: StatGroup) -> (r: i32)
        ensures
            r == self.number(g),
    {
        match g {
            StatGroup::Common => self.common,
            StatGroup::Tx => self.tx,
            StatGroup::Rx => self.rx,
            StatGroup::Http => self.http,
            StatGroup::Socket => self.socket,
            StatGroup::RxTimings => self.rx_timings,
            StatGroup::BurstTx => self.burst_tx,
        }
    }
}

/// The description of an engine as sent to clients.
#[derive(Clone, Debug)]
pub struct DescribeResponse {
    pub engine_kind: String,
    pub groups: Vec<i32>,
}

/// Describes a running engine: its kind and its statistic groups in display order.
#[derive(Clone, Debug)]
pub struct EngineDescriptor {
    /// Human-readable engine kind, e.g. `"udp"`.
    pub engine_kind: &'static str,
    /// Statistic groups in display order.
    pub groups: Vec<StatGroup>,
}

impl EngineDescriptor {
    /// Converts this descriptor into its wire representation.
    pub fn into_response(self, numbers: &GroupNumbers) -> (r: DescribeResponse)
        ensures
            r.engine_kind@ == self.engine_kind@,
            r.groups@ == self.groups@.map_values(|g: StatGroup| numbers.number(g)),
            r.groups@.len() == self.groups@.len(),
            forall|i: int| 0 <= i < r.groups@.len() ==> #[trigger] r.groups@[i] == numbers.number(self.groups@[i]),
    {
        let mut groups: Vec<i32> = Vec::new();
        let mut i: usize = 0;
        let ghost wanted = self.groups@.map_values(|g: StatGroup| numbers.number(g));
        while i < self.groups.len()
            invariant
                i <= self.groups.len(),
                wanted == self.groups@.map_values(|g: StatGroup| numbers.number(g)),
                groups@ == wanted.take(i as int),
            decreases self.groups.len() - i,
        {
            groups.push(numbers.number_of(self.groups[i]));
            i = i + 1;
            assert(groups@ =~= wanted.take(i as int));
        }
        assert(wanted.take(i as int) =~= wanted);
        DescribeResponse { engine_kind: self.engine_kind.to_owned(), groups }
    }
}

/// A snapshot of an HTTP engine shows each counter as it is, and the engine has no bursts.
pub proof fn lemma_http_snapshot<B>(
    a: Stat<TxWorkerStat, RxWorkerStat, SockWorkerStat, HttpWorkerStat, B>,
    s: StatsSnapshot,
)
    requires
        a.shows(s),
    ensures
        s.generator_rps == a.generator,
        s.tx matches Some(tx) && tx.num_requests == a.tx.num_requests && tx.bytes_tx == a.tx.bytes_tx,
        s.rx matches Some(rx) && rx.num_responses == a.rx.num_responses && rx.num_timeouts == a.rx.num_timeouts
            && rx.bytes_rx == a.rx.bytes_rx && rx.histogram_buckets@ == a.rx.buckets@,
        s.socket matches Some(k) && k.num_sock_created == a.sock.num_sock_created && k.num_sock_errors
            == a.sock.num_sock_errors && k.num_retransmits == a.sock.num_retransmits,
        s.http matches Some(h) && h.num_2xx == a.http.num_2xx && h.num_3xx == a.http.num_3xx && h.num_4xx
            == a.http.num_4xx && h.num_5xx == a.http.num_5xx,
        s.burst_tx is None,
{
}

/// A snapshot of the UDP engine shows each counter as it is, and the engine has no responses and no bursts.
pub proof fn lemma_udp_snapshot<H, B>(a: Stat<TxWorkerStat, (), SockWorkerStat, H, B>, s: StatsSnapshot)
    requires
        a.shows(s),
    ensures
        s.generator_rps == a.generator,
        s.tx matches Some(tx) && tx.num_requests == a.tx.num_requests && tx.bytes_tx == a.tx.bytes_tx,
        s.socket matches Some(k) && k.num_sock_created == a.sock.num_sock_created && k.num_sock_errors
            == a.sock.num_sock_errors && k.num_retransmits == a.sock.num_retransmits,
        s.rx is None && s.http is None && s.burst_tx is None,
{
}

/// A snapshot of the DPDK engine shows each counter as it is, with one for each of the 32 burst sizes; the engine has
/// no responses and no sockets.
pub proof fn lemma_dpdk_snapshot(a: Stat<TxWorkerStat, (), (), (), BurstTxWorkerStat>, s: StatsSnapshot)
    requires
        a.readable(),
        a.shows(s),
    ensures
        s.generator_rps == a.generator,
        s.tx matches Some(tx) && tx.num_requests == a.tx.num_requests && tx.bytes_tx == a.tx.bytes_tx,
        s.burst_tx matches Some(b) && b.num_bursts_tx@.len() == 32 && forall|i: int|
            0 <= i < 32 ==> #[trigger] b.num_bursts_tx@[i] == a.burst.bursts@[i],
        s.rx is None && s.socket is None && s.http is None,
{
}

/// Every group goes by its own number.
pub proof fn lemma_group_numbers(n: GroupNumbers)
    ensures
        n.number(StatGroup::Common) == n.common,
        n.number(StatGroup::Tx) == n.tx,
        n.number(StatGroup::Rx) == n.rx,
        n.number(StatGroup::Http) == n.http,
        n.number(StatGroup::Socket) == n.socket,
        n.number(StatGroup::RxTimings) == n.rx_timings,
        n.number(StatGroup::BurstTx) == n.burst_tx,
{
}

} // verus!
