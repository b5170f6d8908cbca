//! Network addresses.

use vstd::prelude::*;

verus! {

/// An IP address, as the number its octets form in network order.
#[derive(Debug, Clone, Copy, PartialEq, Eq, Structural)]
pub enum IpAddr {
    V4(u32),
    V6(u128),
}

impl IpAddr {
    /// Whether the address stands for any address.
    pub open spec fn any(self) -> bool {
        match self {
            IpAddr::V4(a) => a == 0,
            IpAddr::V6(a) => a == 0,
        }
    }

    /// Returns whether the address stands for any address.
    pub fn is_unspecified(&self) -> (r: bool)
        ensures
            r == self.any(),
    {
        match self {
            IpAddr::V4(a) => *a == 0,
            IpAddr::V6(a) => *a == 0,
        }
    }
}

/// A socket address.
#[derive(Debug, Clone, Copy, PartialEq, Eq, Structural)]
pub enum SocketAddr {
    V4 { ip: u32, port: u16 },
    V6 { ip6: u128, port: u16, flowinfo: u32, scope_id: u32 },
}

impl SocketAddr {
    pub open spec fn address(self) -> IpAddr {
        match self {
            SocketAddr::V4 { ip, .. } => IpAddr::V4(ip),
            SocketAddr::V6 { ip6, .. } => IpAddr::V6(ip6),
        }
    }

    pub open spec fn number(self) -> u16 {
        match self {
            SocketAddr::V4 { port, .. } => port,
            SocketAddr::V6 { port, .. } => port,
        }
    }

    /// Returns the IP address.
    pub fn ip(&self) -> (r: IpAddr)
        ensures
            r == self.address(),
    {
        match self {
            SocketAddr::V4 { ip, .. } => IpAddr::V4(*ip),
            SocketAddr::V6 { ip6, .. } => IpAddr::V6(*ip6),
        }
    }

    /// Returns the port.
    pub fn port(&self) -> (r: u16)
        ensures
            r == self.number(),
    {
        match self {
            SocketAddr::V4 { port, .. } => *port,
            SocketAddr::V6 { port, .. } => *port,
        }
    }
}

/// The local address to bind on for reaching a target: an unspecified one of the other family becomes the
/// unspecified one of the target's family, any other is kept.
pub open spec fn aligned(bind: SocketAddr, target: SocketAddr) -> SocketAddr {
    if !bind.address().any() {
        bind
    } else {
        match (bind, target) {
            (SocketAddr::V6 { port, .. }, SocketAddr::V4 { .. }) => SocketAddr::V4 { ip: 0, port },
            (SocketAddr::V4 { port, .. }, SocketAddr::V6 { .. }) => SocketAddr::V6 {
                ip6: 0,
                port,
                flowinfo: 0,
                scope_id: 0,
            },
            _ => bind,
        }
    }
}

/// Aligns an unspecified local address with the family of the target.
pub fn align_bind(bind: SocketAddr, target: SocketAddr) -> (r: SocketAddr)
    ensures
        r == aligned(bind, target),
{
    if !bind.ip().is_unspecified() {
        return bind;
    }
    match (bind, target) {
        (SocketAddr::V6 { port, .. }, SocketAddr::V4 { .. }) => SocketAddr::V4 { ip: 0, port },
        (SocketAddr::V4 { port, .. }, SocketAddr::V6 { .. }) => SocketAddr::V6 {
            ip6: 0,
            port,
            flowinfo: 0,
            scope_id: 0,
        },
        _ => bind,
    }
}

/// An unspecified local address can always reach the target afterwards: the families agree, and the
/// port is kept.
pub proof fn lemma_aligned_family(bind: SocketAddr, target: SocketAddr)
    requires
        bind.address().any(),
    ensures
        aligned(bind, target) is V4 <==> target is V4,
        aligned(bind, target).number() == bind.number(),
        aligned(bind, target).address().any(),
{
}

/// A local address that is a particular one, or of the family of the target, is kept.
pub proof fn lemma_aligned_keeps(bind: SocketAddr, target: SocketAddr)
    ensures
        bind matches SocketAddr::V4 { ip, .. } ==> (ip != 0 || target is V4 ==> aligned(bind, target) == bind),
        bind matches SocketAddr::V6 { ip6, .. } ==> (ip6 != 0 || target is V6 ==> aligned(bind, target) == bind),
        bind matches SocketAddr::V4 { ip, port } ==> (ip == 0 ==> (target is V6 ==> aligned(bind, target) == (
        SocketAddr::V6 { ip6: 0, port, flowinfo: 0, scope_id: 0 }))),
        bind matches SocketAddr::V6 { ip6, port, .. } ==> (ip6 == 0 ==> (target is V4 ==> aligned(bind, target) == (
        SocketAddr::V4 { ip: 0, port }))),
        aligned(aligned(bind, target), target) == aligned(bind, target),
{
}

} // verus!
