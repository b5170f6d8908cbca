//! Building blocks around DPDK.

use vstd::prelude::*;

pub mod cpu;
pub mod eal;
pub mod error;
pub mod ethdev;

verus! {

/// Identifier of a NUMA socket.
pub type SocketId = u32;

} // verus!
