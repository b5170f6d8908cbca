//! Run-time statistics of the load engines and their wire snapshots.

use vstd::prelude::*;

use crate::histogram::LogHistogram;

verus! {

/// Number of per-burst-size counters tracked by the DPDK engine.
pub const BURST_TX_BUCKETS: usize = 32;

/// Counters of sent requests or packets.
#[derive(Clone, Copy, Debug, PartialEq, Eq, Structural)]
pub struct TxWorkerStat {
    pub num_requests: u64,
    pub bytes_tx: u64,
}

/// Counters of received responses.
#[derive(Debug)]
pub struct RxWorkerStat {
    pub num_responses: u64,
    pub num_timeouts: u64,
    pub bytes_rx: u64,
    /// Latency bucket counts.
    pub buckets: Vec<u64>,
}

/// Socket counters.
#[derive(Clone, Copy, Debug, PartialEq, Eq, Structural)]
pub struct SockWorkerStat {
    pub num_sock_created: u64,
    pub num_sock_errors: u64,
    pub num_retransmits: u64,
}

/// Counters of HTTP responses by status class.
#[derive(Clone, Copy, Debug, PartialEq, Eq, Structural)]
pub struct HttpWorkerStat {
    pub num_2xx: u64,
    pub num_3xx: u64,
    pub num_4xx: u64,
    pub num_5xx: u64,
}

/// Counters of transmitted bursts, by burst size less one.
#[derive(Debug)]
pub struct BurstTxWorkerStat {
    pub bursts: Vec<u64>,
}

/// The cumulative statistics of an engine.
///
/// A parameter is `()` where the engine does not keep that group.
#[derive(Debug)]
pub struct Stat<T, R, S, H, B> {
    /// Current target rate of the generator.
    pub generator: u64,
    pub tx: T,
    pub rx: R,
    pub sock: S,
    pub http: H,
    pub burst: B,
}

/// Statistics that every engine has.
pub trait CommonStat {
    /// The target rate.
    spec fn generator_rps(&self) -> u64;

    /// Returns the current target rate of the generator.
    fn generator(&self) -> (r: u64)
        ensures
            r == self.generator_rps(),
    ;
}

/// Transmission statistics.
pub trait TxStat {
    /// The counters.
    spec fn tx(&self) -> TxWorkerStat;

    /// Returns the number of requests sent.
    fn num_requests(&self) -> (r: u64)
        ensures
            r == self.tx().num_requests,
    ;

    /// Returns the number of bytes sent.
    fn bytes_tx(&self) -> (r: u64)
        ensures
            r == self.tx().bytes_tx,
    ;
}

/// Reception statistics.
pub trait RxStat {
    /// The counters.
    spec fn rx(&self) -> RxWorkerStat;

    /// Returns the number of responses received.
    fn num_responses(&self) -> (r: u64)
        ensures
            r == self.rx().num_responses,
    ;

    /// Returns the number of requests that timed out.
    fn num_timeouts(&self) -> (r: u64)
        ensures
            r == self.rx().num_timeouts,
    ;

    /// Returns the number of bytes received.
    fn bytes_rx(&self) -> (r: u64)
        ensures
            r == self.rx().bytes_rx,
    ;

    /// Returns the latency histogram.
    fn hist(&self) -> (r: LogHistogram)
        ensures
            r@ == self.rx().buckets@,
    ;
}

/// Socket statistics.
pub trait SocketStat {
    /// The counters.
    spec fn sock(&self) -> SockWorkerStat;

    /// Returns the number of sockets created.
    fn num_sock_created(&self) -> (r: u64)
        ensures
            r == self.sock().num_sock_created,
    ;

    /// Returns the number of socket errors.
    fn num_sock_errors(&self) -> (r: u64)
        ensures
            r == self.sock().num_sock_errors,
    ;

    /// Returns the number of TCP retransmits.
    fn num_retransmits(&self) -> (r: u64)
        ensures
            r == self.sock().num_retransmits,
    ;
}

/// HTTP statistics.
pub trait HttpStat {
    /// The counters.
    spec fn http(&self) -> HttpWorkerStat;

    /// Returns the number of 2xx responses.
    fn num_2xx(&self) -> (r: u64)
        ensures
            r == self.http().num_2xx,
    ;

    /// Returns the number of 3xx responses.
    fn num_3xx(&self) -> (r: u64)
        ensures
            r == self.http().num_3xx,
    ;

    /// Returns the number of 4xx responses.
    fn num_4xx(&self) -> (r: u64)
        ensures
            r == self.http().num_4xx,
    ;

    /// Returns the number of 5xx responses.
    fn num_5xx(&self) -> (r: u64)
        ensures
            r == self.http().num_5xx,
    ;
}

/// Statistics of transmitted bursts.
pub trait BurstTxStat {
    /// The counters.
    spec fn bursts(&self) -> Seq<u64>;

    /// Returns the number of bursts of size `idx + 1`.
    fn num_bursts_tx(&self, idx: usize) -> (r: u64)
        requires
            idx < self.bursts().len(),
        ensures
            r == self.bursts()[idx as int],
    ;
}

impl<T, R, S, H, B> CommonStat for Stat<T, R, S, H, B> {
    open spec fn generator_rps(&self) -> u64 {
        self.generator
    }

    fn generator(&self) -> (r: u64) {
        self.generator
    }
}

impl<R, S, H, B> TxStat for Stat<TxWorkerStat, R, S, H, B> {
    open spec fn tx(&self) -> TxWorkerStat {
        self.tx
    }

    fn num_requests(&self) -> (r: u64) {
        self.tx.num_requests
    }

    fn bytes_tx(&self) -> (r: u64) {
        self.tx.bytes_tx
    }
}

impl<T, S, H, B> RxStat for Stat<T, RxWorkerStat, S, H, B> {
    open spec fn rx(&self) -> RxWorkerStat {
        self.rx
    }

    fn num_responses(&self) -> (r: u64) {
        self.rx.num_responses
    }

    fn num_timeouts(&self) -> (r: u64) {
        self.rx.num_timeouts
    }

    fn bytes_rx(&self) -> (r: u64) {
        self.rx.bytes_rx
    }

    fn hist(&self) -> (r: LogHistogram) {
        LogHistogram::new(self.rx.buckets.clone())
    }
}

impl<T, R, H, B> SocketStat for Stat<T, R, SockWorkerStat, H, B> {
    open spec fn sock(&self) -> SockWorkerStat {
        self.sock
    }

    fn num_sock_created(&self) -> (r: u64) {
        self.sock.num_sock_created
    }

    fn num_sock_errors(&self) -> (r: u64) {
        self.sock.num_sock_errors
    }

    fn num_retransmits(&self) -> (r: u64) {
        self.sock.num_retransmits
    }
}

impl<T, R, S, B> HttpStat for Stat<T, R, S, HttpWorkerStat, B> {
    open spec fn http(&self) -> HttpWorkerStat {
        self.http
    }

    fn num_2xx(&self) -> (r: u64) {
        self.http.num_2xx
    }

    fn num_3xx(&self) -> (r: u64) {
        self.http.num_3xx
    }

    fn num_4xx(&self) -> (r: u64) {
        self.http.num_4xx
    }

    fn num_5xx(&self) -> (r: u64) {
        self.http.num_5xx
    }
}

impl<T, R, S, H> BurstTxStat for Stat<T, R, S, H, BurstTxWorkerStat> {
    open spec fn bursts(&self) -> Seq<u64> {
        self.burst.bursts@
    }

    fn num_bursts_tx(&self, idx: usize) -> (r: u64) {
        self.burst.bursts[idx]
    }
}

} // verus!
