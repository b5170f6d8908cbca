//! The DPDK worker group.

pub mod dpdk;
pub mod endian;
pub mod lifecycle;
pub mod neighbours;
pub mod pcap;
pub mod ports;
pub mod tx;
