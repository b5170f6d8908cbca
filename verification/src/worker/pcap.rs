//! Distribution of captured packets over the workers.

use vstd::prelude::*;

use crate::dpdk::cpu::CoreId;
use crate::worker::dpdk::{Config, Error};

verus! {

/// Smallest size of an Ethernet frame: two addresses and a type.
pub const ETHERNET_HEADER_LEN: usize = 14;

/// Largest packet that a buffer can be asked to hold.
pub const MAX_PACKET_LEN: usize = 65535;

/// The packets that `pcap_parser::parse_pcap` finds in a capture, or `None` when it fails.
pub uninterp spec fn pcap_packets(bytes: Seq<u8>) -> Option<Seq<Seq<u8>>>;

/// The contents of the given packets.
pub open spec fn contents(v: Seq<Vec<u8>>) -> Seq<Seq<u8>> {
    Seq::new(v.len(), |i: int| v[i]@)
}

/// Parses a legacy capture with `pcap_parser::parse_pcap` and copies the data of its blocks, in
/// order.
///
/// Claims that both success and the packets depend on the bytes alone.
#[verifier::external_body]
fn parse_packets(bytes: &[u8]) -> (r: Option<Vec<Vec<u8>>>)
    ensures
        r is Some <==> pcap_packets(bytes@) is Some,
        r matches Some(v) ==> contents(v@) == pcap_packets(bytes@).unwrap(),
{
    match pcap_parser::parse_pcap(bytes) {
        Ok((_, pcap)) => Some(pcap.blocks.iter().map(|b| b.data.to_vec()).collect()),
        Err(_) => None,
    }
}

/// Checks with `pnet::packet::ethernet::MutableEthernetPacket::new` that the data can be viewed as
/// an Ethernet packet.
///
/// Claims that it can exactly when the data is at least as long as the Ethernet header, and that
/// the data is left alone.
#[verifier::external_body]
fn is_ethernet(data: &mut Vec<u8>) -> (r: bool)
    ensures
        final(data)@ == old(data)@,
        r == (old(data)@.len() >= ETHERNET_HEADER_LEN),
{
    pnet::packet::ethernet::MutableEthernetPacket::new(data.as_mut_slice()).is_some()
}

/// A packet and the core whose worker sends it.
#[derive(Debug, Clone)]
pub struct PacketLoad {
    pub core: CoreId,
    pub data: Vec<u8>,
}

/// The packets to load, in order.
#[derive(Debug, Clone)]
pub struct Assignment {
    pub loads: Vec<PacketLoad>,
    /// Whether these are all packets; otherwise the next one cannot be handled: it is no Ethernet packet,
    /// or there is no core for it.
    pub complete: bool,
}

/// Whether a packet can be handled: there is a core for it, and it is an Ethernet packet.
pub open spec fn is_usable(packet: Seq<u8>, cores: Seq<CoreId>) -> bool {
    cores.len() > 0 && packet.len() >= ETHERNET_HEADER_LEN
}

/// Whether a packet can be handled and fits into a buffer.
pub open spec fn is_loadable(packet: Seq<u8>, cores: Seq<CoreId>) -> bool {
    is_usable(packet, cores) && packet.len() <= MAX_PACKET_LEN
}

/// Whether `n` is the number of packets in front of the first one that cannot be loaded.
pub open spec fn loadable_upto(packets: Seq<Seq<u8>>, cores: Seq<CoreId>, n: int) -> bool {
    &&& 0 <= n <= packets.len()
    &&& forall|i: int| 0 <= i < n ==> is_loadable(#[trigger] packets[i], cores)
    &&& n < packets.len() ==> !is_loadable(packets[n], cores)
}

/// Whether the packets are dealt out to the cores in turn.
pub open spec fn dealt(loads: Seq<PacketLoad>, packets: Seq<Seq<u8>>, cores: Seq<CoreId>) -> bool {
    &&& loads.len() == packets.len()
    &&& forall|i: int|
        0 <= i < loads.len() ==> {
            &&& (#[trigger] loads[i]).data@ == packets[i]
            &&& loads[i].core == cores[i % cores.len() as int]
        }
}

/// Whether `r` is what assigning the packets comes to: the first one that cannot be loaded decides. A usable
/// one that is too long is an error; any other ends the assignment.
pub open spec fn assigned(r: Result<Assignment, Error>, packets: Seq<Seq<u8>>, cores: Seq<CoreId>) -> bool {
    exists|n: int|
        {
            &&& #[trigger] loadable_upto(packets, cores, n)
            &&& match r {
                Ok(a) => {
                    &&& dealt(a.loads@, packets.take(n), cores)
                    &&& a.complete <==> n == packets.len()
                    &&& !a.complete ==> !is_usable(packets[n], cores)
                },
                Err(e) => e == Error::OutOfMemory && n < packets.len() && is_usable(packets[n], cores),
            }
        }
}

/// Deals the packets out to the cores in turn, up to the first one that cannot be loaded.
pub fn assign_packets(packets: Vec<Vec<u8>>, cores: &Vec<CoreId>) -> (r: Result<Assignment, Error>)
    ensures
        assigned(r, contents(packets@), cores@),
{
    let ghost all = contents(packets@);
    let mut rest: Vec<Vec<u8>> = packets;
    let mut loads: Vec<PacketLoad> = Vec::new();
    let n: usize = rest.len();
    let mut i: usize = 0;
    while i < n
        invariant
            i <= n,
            n == all.len() == rest@.len(),
            all == contents(packets@),
            forall|k: int| i <= k < n ==> (#[trigger] rest@[k])@ == all[k],
            loads@.len() == i,
            forall|k: int| 0 <= k < i ==> is_loadable(#[trigger] all[k], cores@),
            dealt(loads@, all.take(i as int), cores@),
        decreases n - i,
    {
        let mut data: Vec<u8> = Vec::new();
        std::mem::swap(&mut data, &mut rest[i]);
        assert(data@ == all[i as int]);
        if cores.len() == 0 || !is_ethernet(&mut data) {
            assert(loadable_upto(all, cores@, i as int));
            return Ok(Assignment { loads, complete: false });
        }
        if data.len() > MAX_PACKET_LEN {
            assert(loadable_upto(all, cores@, i as int));
            return Err(Error::OutOfMemory);
        }
        loads.push(PacketLoad { core: cores[i % cores.len()], data });
        i = i + 1;
    }
    assert(loadable_upto(all, cores@, i as int));
    Ok(Assignment { loads, complete: true })
}

/// Parses a capture and deals its packets out to the cores of the config in turn.
pub fn load_pcap(cfg: &Config, pcap: &[u8]) -> (r: Result<Assignment, Error>)
    ensures
        match pcap_packets(pcap@) {
            None => r == Err::<Assignment, Error>(Error::PcapParse),
            Some(packets) => assigned(r, packets, cfg.all_cores()),
        },
{
    match parse_packets(pcap) {
        None => Err(Error::PcapParse),
        Some(packets) => assign_packets(packets, &cfg.cores()),
    }
}

/// The packets of one turn go to different places in the list of cores, so no place gets two
/// packets more than another.
pub proof fn lemma_turns_are_even(n: int, i: int, j: int)
    requires
        n > 0,
        0 <= i < j < i + n,
    ensures
        i % n != j % n,
{
    if i % n == j % n {
        vstd::arithmetic::div_mod::lemma_mod_equivalence(j, i, n);
        vstd::arithmetic::div_mod::lemma_small_mod((j - i) as nat, n as nat);
    }
}

/// Packets go to the cores in order, and start over with the first core after the last.
pub proof fn lemma_deals_in_order(loads: Seq<PacketLoad>, packets: Seq<Seq<u8>>, cores: Seq<CoreId>, i: int)
    requires
        dealt(loads, packets, cores),
        cores.len() > 0,
        0 <= i < loads.len(),
    ensures
        loads[i].data@ == packets[i],
        i < cores.len() ==> loads[i].core == cores[i],
        i + cores.len() < loads.len() ==> loads[i + cores.len()].core == loads[i].core,
{
    if i < cores.len() {
        vstd::arithmetic::div_mod::lemma_small_mod(i as nat, cores.len());
    }
    vstd::arithmetic::div_mod::lemma_mod_multiples_vanish(1, i, cores.len() as int);
    assert(cores.len() as int * 1 + i == i + cores.len());
}

/// Packets of 14 to 65535 bytes are all loaded, provided that there is a core; a shorter one ends the assignment, and
/// a longer one is an error.
pub proof fn lemma_what_is_loaded(r: Result<Assignment, Error>, packets: Seq<Seq<u8>>, cores: Seq<CoreId>, k: int)
    requires
        assigned(r, packets, cores),
        cores.len() > 0,
        0 <= k <= packets.len(),
        forall|i: int| 0 <= i < k ==> 14 <= (#[trigger] packets[i]).len() <= 65535,
    ensures
        k == packets.len() ==> (r matches Ok(a) && a.complete && a.loads@.len() == k),
        k < packets.len() && packets[k].len() < 14 ==> (r matches Ok(a) && !a.complete && a.loads@.len() == k),
        k < packets.len() && packets[k].len() > 65535 ==> r == Err::<Assignment, Error>(Error::OutOfMemory),
{
    let n = choose|n: int|
        {
            &&& #[trigger] loadable_upto(packets, cores, n)
            &&& match r {
                Ok(a) => {
                    &&& dealt(a.loads@, packets.take(n), cores)
                    &&& a.complete <==> n == packets.len()
                    &&& !a.complete ==> !is_usable(packets[n], cores)
                },
                Err(e) => e == Error::OutOfMemory && n < packets.len() && is_usable(packets[n], cores),
            }
        };
    if k < n {
        assert(is_loadable(packets[k], cores));
    }
    if n < k {
        assert(14 <= packets[n].len() <= 65535);
    }
}

/// Without cores nothing is loaded.
pub proof fn lemma_nothing_without_cores(r: Result<Assignment, Error>, packets: Seq<Seq<u8>>)
    requires
        assigned(r, packets, Seq::empty()),
    ensures
        r matches Ok(a) && a.loads@.len() == 0 && (a.complete <==> packets.len() == 0),
{
    let cores = Seq::<CoreId>::empty();
    let n = choose|n: int|
        {
            &&& #[trigger] loadable_upto(packets, cores, n)
            &&& match r {
                Ok(a) => {
                    &&& dealt(a.loads@, packets.take(n), cores)
                    &&& a.complete <==> n == packets.len()
                    &&& !a.complete ==> !is_usable(packets[n], cores)
                },
                Err(e) => e == Error::OutOfMemory && n < packets.len() && is_usable(packets[n], cores),
            }
        };
    if n > 0 {
        assert(is_loadable(packets[0], cores));
    }
}

} // verus!
