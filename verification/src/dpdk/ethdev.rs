//! Ethernet devices.

use vstd::prelude::*;

use crate::dpdk::error::Error;

verus! {

pub const RTE_ETH_RSS_IPV4: u64 = 0x4;
pub const RTE_ETH_RSS_FRAG_IPV4: u64 = 0x8;
pub const RTE_ETH_RSS_NONFRAG_IPV4_TCP: u64 = 0x10;
pub const RTE_ETH_RSS_NONFRAG_IPV4_UDP: u64 = 0x20;
pub const RTE_ETH_RSS_NONFRAG_IPV4_SCTP: u64 = 0x40;
pub const RTE_ETH_RSS_NONFRAG_IPV4_OTHER: u64 = 0x80;
pub const RTE_ETH_RSS_IPV6: u64 = 0x100;
pub const RTE_ETH_RSS_FRAG_IPV6: u64 = 0x200;
pub const RTE_ETH_RSS_NONFRAG_IPV6_TCP: u64 = 0x400;
pub const RTE_ETH_RSS_NONFRAG_IPV6_UDP: u64 = 0x800;
pub const RTE_ETH_RSS_NONFRAG_IPV6_SCTP: u64 = 0x1000;
pub const RTE_ETH_RSS_NONFRAG_IPV6_OTHER: u64 = 0x2000;
pub const RTE_ETH_RSS_IPV6_EX: u64 = 0x10000;

/// RSS hash types combined for IP (both IPv4 and IPv6).
pub const RTE_ETH_RSS_IP: u64 = RTE_ETH_RSS_IPV4 | RTE_ETH_RSS_FRAG_IPV4 | RTE_ETH_RSS_NONFRAG_IPV4_OTHER
    | RTE_ETH_RSS_IPV6 | RTE_ETH_RSS_FRAG_IPV6 | RTE_ETH_RSS_NONFRAG_IPV6_OTHER | RTE_ETH_RSS_IPV6_EX;

pub const RTE_ETH_RX_OFFLOAD_VLAN_STRIP: u64 = 0x1;
pub const RTE_ETH_RX_OFFLOAD_IPV4_CKSUM: u64 = 0x2;
pub const RTE_ETH_RX_OFFLOAD_UDP_CKSUM: u64 = 0x4;
pub const RTE_ETH_RX_OFFLOAD_TCP_CKSUM: u64 = 0x8;
pub const RTE_ETH_RX_OFFLOAD_TCP_LRO: u64 = 0x10;
pub const RTE_ETH_RX_OFFLOAD_QINQ_STRIP: u64 = 0x20;
pub const RTE_ETH_RX_OFFLOAD_OUTER_IPV4_CKSUM: u64 = 0x40;
pub const RTE_ETH_RX_OFFLOAD_MACSEC_STRIP: u64 = 0x80;
pub const RTE_ETH_RX_OFFLOAD_VLAN_FILTER: u64 = 0x200;
pub const RTE_ETH_RX_OFFLOAD_VLAN_EXTEND: u64 = 0x400;
pub const RTE_ETH_RX_OFFLOAD_SCATTER: u64 = 0x2000;

/// The owner that an unowned port has.
pub const RTE_ETH_DEV_NO_OWNER: u64 = 0;

/// The combined hash type is made of the IP bits and no others.
pub proof fn lemma_rss_ip()
    ensures
        RTE_ETH_RSS_IP == 0x1238c,
{
    assert(0x4u64 | 0x8 | 0x80 | 0x100 | 0x200 | 0x2000 | 0x10000 == 0x1238c) by (bit_vector);
}

/// A walk over the usable Ethernet ports.
///
/// DPDK is asked for the next port at or after the one in the question, and the
/// answer moves the walk on.
#[derive(Debug, Clone, Copy, PartialEq, Eq, Structural)]
pub struct EthDevIterator {
    port_id: Option<u16>,
    owner_id: u64,
}

/// Starts a walk over the usable Ethernet ports.
pub fn eth_dev_iter() -> (r: EthDevIterator)
    ensures
        r.question() == Some((0u16, RTE_ETH_DEV_NO_OWNER)),
{
    EthDevIterator::new()
}

impl EthDevIterator {
    /// What to ask DPDK next: the port to search from and the owner; `None` at the end.
    pub closed spec fn question(self) -> Option<(u16, u64)> {
        match self.port_id {
            Some(p) => Some((p, self.owner_id)),
            None => None,
        }
    }

    /// Starts at the first port.
    pub fn new() -> (r: Self)
        ensures
            r.question() == Some((0u16, RTE_ETH_DEV_NO_OWNER)),
    {
        EthDevIterator { port_id: Some(0), owner_id: RTE_ETH_DEV_NO_OWNER }
    }

    /// Returns what to ask DPDK next.
    pub fn query(&self) -> (r: Option<(u16, u64)>)
        ensures
            r == self.question(),
    {
        match self.port_id {
            Some(p) => Some((p, self.owner_id)),
            None => None,
        }
    }

    /// Takes DPDK's answer and yields the port found; the walk ends when there was none.
    ///
    /// DPDK answers `max_ports`, its `RTE_MAX_ETHPORTS`, when there is no further port.
    pub fn next(&mut self, found: u64, max_ports: u64) -> (r: Option<u16>)
        ensures
            (r, final(self).question()) == moved(old(self).question(), found, max_ports),
    {
        match self.port_id {
            None => None,
            Some(_) => {
                if found >= max_ports || found >= u16::MAX as u64 {
                    self.port_id = None;
                    None
                } else {
                    self.port_id = Some(found as u16 + 1);
                    Some(found as u16)
                }
            },
        }
    }
}

/// The port that an answer yields, and the question after it: a port ID is yielded and the search goes on
/// behind it, anything else ends the walk.
pub open spec fn moved(question: Option<(u16, u64)>, found: u64, max_ports: u64) -> (
    Option<u16>,
    Option<(u16, u64)>,
) {
    match question {
        Some((_, owner)) => if found >= max_ports || found >= u16::MAX {
            (None, None)
        } else {
            (Some(found as u16), Some(((found + 1) as u16, owner)))
        },
        None => (None, None),
    }
}

/// Whether an answer is the least port at or after the one in the question, or `max_ports` when there is
/// none.
pub open spec fn is_next_port(ports: Set<u16>, from: u16, found: u64, max_ports: u64) -> bool {
    &&& found == max_ports || (from <= found < max_ports && ports.contains(found as u16))
    &&& forall|p: u16| #[trigger] ports.contains(p) ==> p < from || found <= p
}

/// The ports that a walk yields from a question on, given the answers to the questions.
///
/// An answer below the question, which DPDK does not give, counts as an end.
pub open spec fn walked(
    question: Option<(u16, u64)>,
    answer: spec_fn(u16) -> u64,
    max_ports: u64,
) -> Seq<u16>
    decreases
            (match question {
                Some((from, _)) => u16::MAX - from,
                None => 0,
            }),
{
    match question {
        Some((from, _)) => match moved(question, answer(from), max_ports) {
            (Some(p), next) => if p < from {
                Seq::empty()
            } else {
                seq![p] + walked(next, answer, max_ports)
            },
            (None, _) => Seq::empty(),
        },
        None => Seq::empty(),
    }
}

/// With truthful answers on a set of ports that does not change, a walk yields the ports at or behind its
/// question, each of them once, in ascending order.
pub proof fn lemma_walk_yields_all_ports(
    ports: Set<u16>,
    from: u16,
    owner: u64,
    answer: spec_fn(u16) -> u64,
    max_ports: u64,
)
    requires
        max_ports <= u16::MAX,
        forall|p: u16| #[trigger] ports.contains(p) ==> p < max_ports,
        forall|q: u16| is_next_port(ports, q, #[trigger] answer(q), max_ports),
    ensures
        ({
            let w = walked(Some((from, owner)), answer, max_ports);
            &&& forall|i: int, j: int| 0 <= i < j < w.len() ==> w[i] < w[j]
            &&& forall|p: u16| #[trigger] w.contains(p) <==> ports.contains(p) && from <= p
        }),
    decreases u16::MAX - from,
{
    let w = walked(Some((from, owner)), answer, max_ports);
    let found = answer(from);
    assert(is_next_port(ports, from, found, max_ports));
    if found < max_ports {
        let next = (found + 1) as u16;
        let rest = walked(Some((next, owner)), answer, max_ports);
        lemma_walk_yields_all_ports(ports, next, owner, answer, max_ports);
        assert(w == seq![found as u16] + rest);
        assert forall|i: int, j: int| 0 <= i < j < w.len() implies w[i] < w[j] by {
            if i == 0 {
                assert(rest.contains(rest[j - 1]));
            }
        }
        assert forall|p: u16| #[trigger] w.contains(p) <==> ports.contains(p) && from <= p by {
            if w.contains(p) {
                let k = choose|k: int| 0 <= k < w.len() && w[k] == p;
                if k > 0 {
                    assert(rest[k - 1] == p);
                    assert(rest.contains(p));
                }
            }
            if ports.contains(p) && from <= p {
                if p == found {
                    assert(w[0] == p);
                } else {
                    assert(rest.contains(p));
                    let k = choose|k: int| 0 <= k < rest.len() && rest[k] == p;
                    assert(w[k + 1] == p);
                }
            }
        }
    } else {
        assert(w =~= Seq::empty());
    }
}

impl Default for EthDevIterator {
    fn default() -> (r: Self)
        ensures
            r.question() == Some((0u16, RTE_ETH_DEV_NO_OWNER)),
    {
        EthDevIterator::new()
    }
}

/// Reads the outcome of a search for a port by its device name.
pub fn port_by_name(ec: i32, id: u16) -> (r: Result<u16, Error>)
    ensures
        match r {
            Ok(p) => ec == 0 && p == id,
            Err(e) => ec != 0 && e.number() == ec,
        },
{
    if ec == 0 {
        Ok(id)
    } else {
        Err(Error::new(ec))
    }
}

} // verus!
