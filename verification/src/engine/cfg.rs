//! Engine-level configuration types.

use vstd::prelude::*;

use crate::engine::{http1, udp, EngineKind};
use crate::net::SocketAddr;
use crate::produce::VecProduce;
use crate::worker::dpdk;

verus! {

/// Native (kernel-stack) workload config shared by the HTTP and UDP engines.
#[derive(Debug)]
pub struct NativeLoadConfig {
    /// Number of threads, at least one.
    pub threads: usize,
    /// Maximum number of requests executed per socket before reconnection.
    /// If none given (default) sockets renew is disabled.
    pub requests_per_socket: Option<u64>,
    /// Deviation of the number of requests per socket.
    pub requests_per_socket_deviation: Option<u64>,
    /// Socket addresses to bind on.
    pub bind_endpoints: VecProduce<SocketAddr>,
}

impl NativeLoadConfig {
    /// Builds a native workload config from already-resolved bind addresses.
    pub fn new(
        threads: usize,
        requests_per_socket: Option<u64>,
        requests_per_socket_deviation: Option<u64>,
        bind_endpoints: Vec<SocketAddr>,
    ) -> (r: Self)
        requires
            threads > 0,
        ensures
            r.threads == threads,
            r.requests_per_socket == requests_per_socket,
            r.requests_per_socket_deviation == requests_per_socket_deviation,
            r.bind_endpoints@ == bind_endpoints@,
            r.bind_endpoints.position() == 0,
    {
        NativeLoadConfig {
            threads,
            requests_per_socket,
            requests_per_socket_deviation,
            bind_endpoints: VecProduce::new(bind_endpoints),
        }
    }

    /// Returns the maximum number of requests executed per socket before reconnection.
    pub fn requests_per_socket(&self) -> (r: u64)
        ensures
            r == (match self.requests_per_socket {
                Some(n) => n,
                None => u64::MAX,
            }),
            r == request_limit(self.requests_per_socket),
    {
        match self.requests_per_socket {
            Some(n) => n,
            None => u64::MAX,
        }
    }

    /// Returns the deviation of the number of requests per socket.
    pub fn requests_per_socket_deviation(&self) -> (r: u64)
        ensures
            r == (match self.requests_per_socket_deviation {
                Some(n) => n,
                None => 0,
            }),
            r == request_deviation(self.requests_per_socket_deviation),
    {
        match self.requests_per_socket_deviation {
            Some(n) => n,
            None => 0,
        }
    }
}

/// DPDK workload config (a thin wrapper around the worker config).
#[derive(Debug)]
pub struct DpdkConfig(dpdk::Config);

impl DpdkConfig {
    /// The worker config.
    pub closed spec fn inner(self) -> dpdk::Config {
        self.0
    }

    /// Wraps a fully-built DPDK worker config.
    pub fn new(inner: dpdk::Config) -> (r: Self)
        ensures
            r.inner() == inner,
    {
        DpdkConfig(inner)
    }

    /// Returns the worker config.
    pub fn into_inner(self) -> (r: dpdk::Config)
        ensures
            r == self.inner(),
    {
        self.0
    }
}

/// The selected load mode together with its fully-resolved configuration; `H` is a request of the
/// HTTP engine and `R` one of the raw HTTP engine.
#[derive(Debug)]
pub enum ModeConfig<H, R> {
    Http(http1::Config<H>),
    HttpRaw(http1::Config<R>),
    Udp(udp::Config),
    Dpdk(DpdkConfig),
}

impl<H, R> ModeConfig<H, R> {
    /// Returns the kind of engine that runs this mode.
    pub fn kind(&self) -> (r: EngineKind)
        ensures
            r == (match *self {
                ModeConfig::Http(_) => EngineKind::Http,
                ModeConfig::HttpRaw(_) => EngineKind::HttpRaw,
                ModeConfig::Udp(_) => EngineKind::Udp,
                ModeConfig::Dpdk(_) => EngineKind::Dpdk,
            }),
            r == EngineKind::Http <==> *self is Http,
            r == EngineKind::HttpRaw <==> *self is HttpRaw,
            r == EngineKind::Udp <==> *self is Udp,
            r == EngineKind::Dpdk <==> *self is Dpdk,
    {
        match self {
            ModeConfig::Http(_) => EngineKind::Http,
            ModeConfig::HttpRaw(_) => EngineKind::HttpRaw,
            ModeConfig::Udp(_) => EngineKind::Udp,
            ModeConfig::Dpdk(_) => EngineKind::Dpdk,
        }
    }
}

/// A deferred generator factory (built once at startup).
pub struct BoxedGeneratorNew<F>(F);

impl<F> BoxedGeneratorNew<F> {
    /// The factory.
    pub closed spec fn maker(&self) -> F {
        self.0
    }

    /// Wraps a generator factory closure.
    pub fn new(f: F) -> (r: Self)
        ensures
            r.maker() == f,
    {
        BoxedGeneratorNew(f)
    }

    /// Instantiates a fresh generator.
    pub fn create<G, E>(&self) -> (r: Result<G, E>) where F: Fn() -> Result<G, E>
        requires
            call_requires(self.maker(), ()),
        ensures
            call_ensures(self.maker(), (), r),
    {
        (self.0)()
    }
}

/// How many requests a socket is good for.
pub open spec fn request_limit(configured: Option<u64>) -> u64 {
    if configured is Some {
        configured->0
    } else {
        u64::MAX
    }
}

/// By how much that number deviates.
pub open spec fn request_deviation(configured: Option<u64>) -> u64 {
    if configured is Some {
        configured->0
    } else {
        0
    }
}

/// A configured limit is the one used, with the configured deviation. Without a limit no number of requests exceeds it,
/// so that sockets are never renewed, and without a deviation there is none.
pub proof fn lemma_limits_of_sockets(limit: u64, deviation: u64, requests: u64)
    ensures
        request_limit(Some(limit)) == limit,
        request_deviation(Some(deviation)) == deviation,
        requests <= request_limit(None),
        request_deviation(None) == 0,
{
}

} // verus!
