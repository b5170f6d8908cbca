//! The companion test backend: an HTTP, HTTPS and HTTP/3 server that answers every request with the
//! same content.

pub mod cli;
pub mod config;
pub mod server;
pub mod tls;
