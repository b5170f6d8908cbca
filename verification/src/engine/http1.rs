//! HTTP load engine configuration.

use vstd::prelude::*;

use crate::engine::cfg::NativeLoadConfig;
use crate::figures::Duration;
use crate::net::SocketAddr;

verus! {

/// HTTP engine config.
#[derive(Debug)]
pub struct Config<T> {
    /// Target endpoint.
    pub addr: SocketAddr,
    /// Number of parallel jobs, at least one.
    ///
    /// This also limits the maximum concurrent requests in flight. To achieve better runtime
    /// characteristics this value should be the multiple of the number of threads.
    pub concurrency: usize,
    /// Speak HTTPS (TLS) instead of plaintext HTTP.
    pub tls: bool,
    /// TLS server name (SNI) presented during the handshake.
    ///
    /// Only meaningful with `tls`. When `None`, the target IP is used.
    pub server_name: Option<String>,
    /// Native workload settings.
    pub native: NativeLoadConfig,
    /// Request timeout.
    pub timeout: Duration,
    /// Set linger TCP option with specified value.
    pub tcp_linger: Option<u64>,
    /// Enable SOCK_NODELAY socket option.
    pub tcp_no_delay: bool,
    /// Requests to send.
    pub requests: Vec<T>,
}

} // verus!
