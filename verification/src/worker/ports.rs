//! Port set-up: which DPDK calls to make, in which order, and what their outcomes mean.

use vstd::prelude::*;

use crate::dpdk::cpu::{CoreId, MAX_CORES};
use crate::dpdk::error;
use crate::worker::dpdk::{
    Config, Error, PciDeviceName, PortConfig, MTU, PORT_RX_QUEUE_SIZE, PORT_TX_QUEUE_SIZE,
};
use crate::worker::dpdk;

verus! {

/// A link-layer address.
#[derive(Debug, Clone, Copy, PartialEq, Eq, Structural)]
pub struct MacAddr(pub u8, pub u8, pub u8, pub u8, pub u8, pub u8);

/// The address of no device.
pub open spec fn no_mac() -> MacAddr {
    MacAddr(0, 0, 0, 0, 0, 0)
}

impl Default for MacAddr {
    fn default() -> (r: Self)
        ensures
            r == no_mac(),
    {
        MacAddr(0, 0, 0, 0, 0, 0)
    }
}

/// A call to make next.
#[derive(Debug, Clone, Copy, PartialEq, Eq, Structural)]
pub enum PortAction {
    /// Find the port of a configured device.
    Lookup { device: usize },
    /// Read the device information of a port.
    Inspect { port_id: u16 },
    /// Read the link-layer address of a port.
    ReadMac { port_id: u16 },
    /// Ask the system for the neighbours on an interface.
    Neighbours { if_index: u32 },
    /// Configure a port with RSS over its queues.
    Configure { port_id: u16, rx_queues: u16, tx_queues: u16 },
    /// Set up a receive queue with the packet pool of a core.
    SetupRx { port_id: u16, queue_id: u16, descriptors: u16, core: CoreId },
    /// Set up a transmit queue.
    SetupTx { port_id: u16, queue_id: u16, descriptors: u16 },
    /// Set the MTU, after the queues and before the start of the port.
    SetMtu { port_id: u16, mtu: u16 },
    /// All ports are set up.
    Finish,
}

/// The outcome of a call.
#[derive(Debug)]
pub enum PortReply {
    /// Of a look-up: an error code, and the port when it is zero.
    Port { ec: i32, port_id: u16 },
    /// Of reading device information.
    Info { rc: i32, if_index: u32 },
    Mac { mac: MacAddr },
    Neighbours { found: Result<Vec<MacAddr>, i32> },
    /// Of a configuring call.
    Status { rc: i32 },
}

/// The queues that a worker uses.
#[derive(Debug, Clone, Copy, PartialEq, Eq, Structural)]
pub struct Binding {
    pub core: CoreId,
    pub port_id: u16,
    pub rx_queue_id: u16,
    /// The transmit queue; queue zero is left to the control thread.
    pub tx_queue_id: u16,
    pub src_mac: MacAddr,
}

/// Set-up of all configured ports, one after another.
#[derive(Debug)]
pub struct PortInit {
    /// Index of the device that is being set up.
    pub device: usize,
    /// Number of calls made for it.
    pub step: usize,
    pub port_id: u16,
    pub if_index: u32,
    pub device_mac: MacAddr,
    /// First reachable neighbour, all zeros when there is none.
    pub neighbour_mac: MacAddr,
    /// Ports found so far, with the index of their device.
    pub ports: Vec<(u16, usize)>,
    /// Link-layer addresses of the ports, as far as they were read.
    pub macs: Vec<MacAddr>,
    /// Queues given out so far.
    pub bindings: Vec<Binding>,
}

/// The number of receive queues of a device.
pub open spec fn rx_queues(cfg: Config, device: int) -> nat {
    cfg.devices()[device].1.cores@.len()
}

/// The number of transmit queues: one per worker and one for the control thread.
pub open spec fn tx_queues(cfg: Config) -> nat {
    cfg.distinct_cores() + 1
}

/// Whether the queues of every port can be numbered.
pub open spec fn queues_fit(cfg: Config) -> bool {
    forall|i: int| 0 <= i < cfg.devices().len() ==> (#[trigger] cfg.devices()[i]).1.cores@.len() < u16::MAX
}

/// The cores that queues were given to.
pub open spec fn bound_cores(b: Seq<Binding>) -> Seq<CoreId> {
    Seq::new(b.len(), |i: int| b[i].core)
}

/// The queues that the cores of a port get: the receive queue of its place, and the transmit queue after
/// that.
pub open spec fn port_bindings(cores: Seq<CoreId>, port_id: u16, mac: MacAddr) -> Seq<Binding> {
    Seq::new(
        cores.len(),
        |q: int|
            Binding {
                core: cores[q],
                port_id,
                rx_queue_id: q as u16,
                tx_queue_id: (q + 1) as u16,
                src_mac: mac,
            },
    )
}

/// The queues that the cores of all devices get, given the ports of the devices and their addresses.
pub open spec fn all_bindings(
    devices: Seq<(PciDeviceName, PortConfig)>,
    ports: Seq<(u16, usize)>,
    macs: Seq<MacAddr>,
) -> Seq<Binding>
    decreases devices.len(),
{
    if devices.len() == 0 {
        Seq::empty()
    } else {
        let i = devices.len() - 1;
        all_bindings(devices.drop_last(), ports, macs) + port_bindings(devices[i].1.cores@, ports[i].0, macs[i])
    }
}

/// The queues of devices depend on the ports of these devices alone.
proof fn lemma_bindings_prefix(
    devices: Seq<(PciDeviceName, PortConfig)>,
    ports: Seq<(u16, usize)>,
    macs: Seq<MacAddr>,
    more_ports: Seq<(u16, usize)>,
    more_macs: Seq<MacAddr>,
)
    requires
        devices.len() <= ports.len() <= more_ports.len(),
        devices.len() <= macs.len() <= more_macs.len(),
        forall|i: int| 0 <= i < devices.len() ==> ports[i] == more_ports[i],
        forall|i: int| 0 <= i < devices.len() ==> macs[i] == more_macs[i],
    ensures
        all_bindings(devices, ports, macs) == all_bindings(devices, more_ports, more_macs),
    decreases devices.len(),
{
    if devices.len() > 0 {
        lemma_bindings_prefix(devices.drop_last(), ports, macs, more_ports, more_macs);
    }
}

/// The number of cores of a device that got a queue after `step` calls.
pub open spec fn bound_after(cfg: Config, device: int, step: int) -> int {
    if step <= 5 {
        0
    } else if step - 5 <= rx_queues(cfg, device) {
        step - 5
    } else {
        rx_queues(cfg, device) as int
    }
}

impl PortInit {
    /// Queues were given out in the order of the config, and to nothing else.
    pub open spec fn wf(&self, cfg: Config) -> bool {
        &&& queues_fit(cfg)
        &&& self.device <= cfg.devices().len()
        &&& self.device == cfg.devices().len() ==> self.step == 0
        &&& self.device < cfg.devices().len() ==> self.step <= 5 + rx_queues(cfg, self.device as int) + tx_queues(cfg)
        &&& bound_cores(self.bindings@) == if self.device < cfg.devices().len() {
            dpdk::cores_of(cfg.devices().take(self.device as int)) + cfg.devices()[self.device as int].1.cores@.take(
                bound_after(cfg, self.device as int, self.step as int),
            )
        } else {
            cfg.all_cores()
        }
        &&& self.bindings@ == if self.device < cfg.devices().len() {
            all_bindings(cfg.devices().take(self.device as int), self.ports@, self.macs@) + port_bindings(
                cfg.devices()[self.device as int].1.cores@.take(
                    bound_after(cfg, self.device as int, self.step as int),
                ),
                self.port_id,
                self.device_mac,
            )
        } else {
            all_bindings(cfg.devices(), self.ports@, self.macs@)
        }
        &&& self.macs@.len() == self.device + (if self.step > 2 {
            1int
        } else {
            0int
        })
        &&& self.step > 0 ==> self.ports@.last().0 == self.port_id
        &&& self.step > 2 ==> self.macs@.last() == self.device_mac
        &&& self.ports@.len() == self.device + (if self.step > 0 {
            1int
        } else {
            0int
        })
        &&& forall|i: int| 0 <= i < self.ports@.len() ==> (#[trigger] self.ports@[i]).1 == i
    }

    /// The call to make next.
    pub open spec fn next_action(&self, cfg: Config) -> PortAction {
        let device = self.device as int;
        let step = self.step as int;
        if device >= cfg.devices().len() {
            PortAction::Finish
        } else if step == 0 {
            PortAction::Lookup { device: self.device }
        } else if step == 1 {
            PortAction::Inspect { port_id: self.port_id }
        } else if step == 2 {
            PortAction::ReadMac { port_id: self.port_id }
        } else if step == 3 {
            PortAction::Neighbours { if_index: self.if_index }
        } else if step == 4 {
            PortAction::Configure {
                port_id: self.port_id,
                rx_queues: rx_queues(cfg, device) as u16,
                tx_queues: tx_queues(cfg) as u16,
            }
        } else if step < 5 + rx_queues(cfg, device) {
            PortAction::SetupRx {
                port_id: self.port_id,
                queue_id: (step - 5) as u16,
                descriptors: PORT_RX_QUEUE_SIZE,
                core: cfg.devices()[device].1.cores@[step - 5],
            }
        } else if step < 5 + rx_queues(cfg, device) + tx_queues(cfg) {
            PortAction::SetupTx {
                port_id: self.port_id,
                queue_id: (step - 5 - rx_queues(cfg, device)) as u16,
                descriptors: PORT_TX_QUEUE_SIZE,
            }
        } else {
            PortAction::SetMtu { port_id: self.port_id, mtu: MTU }
        }
    }

    /// Whether a reply is one to the call that was to be made.
    pub open spec fn answers(&self, cfg: Config, reply: PortReply) -> bool {
        match self.next_action(cfg) {
            PortAction::Lookup { .. } => reply matches PortReply::Port { ec, port_id } && (ec == 0 ==> port_id
                < MAX_CORES),
            PortAction::Inspect { .. } => reply is Info,
            PortAction::ReadMac { .. } => reply is Mac,
            PortAction::Neighbours { .. } => reply is Neighbours,
            PortAction::Finish => false,
            _ => reply is Status,
        }
    }

    /// The failure that a reply means, if any.
    ///
    /// A failure to set the MTU is tolerated.
    pub open spec fn failure(&self, cfg: Config, reply: PortReply) -> Option<Error> {
        match reply {
            PortReply::Port { ec, .. } => if ec == 0 {
                None
            } else {
                Some(Error::Dpdk(error_of(ec)))
            },
            PortReply::Info { rc, .. } => if rc == 0 {
                None
            } else {
                Some(Error::InvalidPciDevice)
            },
            PortReply::Mac { .. } => None,
            PortReply::Neighbours { found } => match found {
                Ok(_) => None,
                Err(errno) => Some(Error::Io(errno)),
            },
            PortReply::Status { rc } => if rc < 0 && !(self.next_action(cfg) is SetMtu) {
                Some(Error::Dpdk(error_of(rc)))
            } else {
                None
            },
        }
    }

    /// The queues that a successful call gives out.
    pub open spec fn given(&self, cfg: Config) -> Option<Binding> {
        match self.next_action(cfg) {
            PortAction::SetupRx { port_id, queue_id, core, .. } => Some(
                Binding {
                    core,
                    port_id,
                    rx_queue_id: queue_id,
                    tx_queue_id: (queue_id + 1) as u16,
                    src_mac: self.device_mac,
                },
            ),
            _ => None,
        }
    }

    /// Starts with the first device.
    pub fn new(cfg: &Config) -> (r: Self)
        requires
            queues_fit(*cfg),
        ensures
            r.wf(*cfg),
            r.device == 0,
            r.step == 0,
            r.ports@.len() == 0,
            r.macs@.len() == 0,
            r.bindings@.len() == 0,
    {
        let r: PortInit = PortInit {
            device: 0,
            step: 0,
            port_id: 0,
            if_index: 0,
            device_mac: MacAddr(0, 0, 0, 0, 0, 0),
            neighbour_mac: MacAddr(0, 0, 0, 0, 0, 0),
            ports: Vec::new(),
            macs: Vec::new(),
            bindings: Vec::new(),
        };
        proof {
            assert(cfg.devices().take(0) =~= Seq::empty());
            if cfg.devices().len() > 0 {
                assert(cfg.devices()[0].1.cores@.take(0) =~= Seq::empty());
            } else {
                assert(cfg.devices() =~= Seq::empty());
            }
            assert(bound_cores(r.bindings@) =~= Seq::empty());
            assert(r.bindings@ =~= Seq::empty());
            if cfg.devices().len() > 0 {
                assert(port_bindings(cfg.devices()[0].1.cores@.take(0), r.port_id, r.device_mac) =~= Seq::empty());
            }
        }
        r
    }

    /// Returns the call to make next.
    pub fn action(&self, cfg: &Config) -> (r: PortAction)
        requires
            self.wf(*cfg),
        ensures
            r == self.next_action(*cfg),
            r matches PortAction::Configure { port_id, rx_queues, tx_queues } ==> {
                &&& port_id == self.ports@.last().0
                &&& rx_queues == cfg.devices()[self.device as int].1.cores@.len()
                &&& tx_queues == dpdk::numbers(cfg.all_cores()).to_set().len() + 1
            },
    {
        let devices: &Vec<(PciDeviceName, PortConfig)> = cfg.ports();
        if self.device >= devices.len() {
            return PortAction::Finish;
        }
        let port_id: u16 = self.port_id;
        let cores: &Vec<CoreId> = &devices[self.device].1.cores;
        proof {
            assert(cfg.devices()[self.device as int].1.cores@.len() < u16::MAX);
        }
        let rx: usize = cores.len();
        let tx: usize = cfg.cores_count() + 1;
        if self.step == 0 {
            PortAction::Lookup { device: self.device }
        } else if self.step == 1 {
            PortAction::Inspect { port_id }
        } else if self.step == 2 {
            PortAction::ReadMac { port_id }
        } else if self.step == 3 {
            PortAction::Neighbours { if_index: self.if_index }
        } else if self.step == 4 {
            PortAction::Configure { port_id, rx_queues: rx as u16, tx_queues: tx as u16 }
        } else if self.step - 5 < rx {
            PortAction::SetupRx {
                port_id,
                queue_id: (self.step - 5) as u16,
                descriptors: PORT_RX_QUEUE_SIZE,
                core: cores[self.step - 5],
            }
        } else if self.step - 5 - rx < tx {
            PortAction::SetupTx {
                port_id,
                queue_id: (self.step - 5 - rx) as u16,
                descriptors: PORT_TX_QUEUE_SIZE,
            }
        } else {
            PortAction::SetMtu { port_id, mtu: MTU }
        }
    }

    /// Takes the outcome of the call and moves on; returns the queues that were given out.
    pub fn on_reply(&mut self, cfg: &Config, reply: PortReply) -> (r: Result<Option<Binding>, Error>)
        requires
            old(self).wf(*cfg),
            old(self).answers(*cfg, reply),
        ensures
            final(self).wf(*cfg),
            match old(self).failure(*cfg, reply) {
                Some(e) => r == Err::<Option<Binding>, Error>(e) && *final(self) == *old(self),
                None => {
                    let action = old(self).next_action(*cfg);
                    &&& r == Ok::<Option<Binding>, Error>(old(self).given(*cfg))
                    &&& final(self).bindings@ == match old(self).given(*cfg) {
                        Some(b) => old(self).bindings@.push(b),
                        None => old(self).bindings@,
                    }
                    &&& (final(self).device, final(self).step) == (if action is SetMtu {
                        ((old(self).device + 1) as usize, 0usize)
                    } else {
                        (old(self).device, (old(self).step + 1) as usize)
                    })
                    &&& reply matches PortReply::Port { port_id, .. } ==> {
                        &&& final(self).port_id == port_id
                        &&& final(self).ports@ == old(self).ports@.push((port_id, old(self).device))
                    }
                    &&& !(reply is Port) ==> {
                        &&& final(self).port_id == old(self).port_id
                        &&& final(self).ports == old(self).ports
                    }
                    &&& final(self).if_index == match reply {
                        PortReply::Info { if_index, .. } => if_index,
                        _ => old(self).if_index,
                    }
                    &&& final(self).device_mac == match reply {
                        PortReply::Mac { mac } => mac,
                        _ => old(self).device_mac,
                    }
                    &&& final(self).macs@ == match reply {
                        PortReply::Mac { mac } => old(self).macs@.push(mac),
                        _ => old(self).macs@,
                    }
                    &&& match reply {
                        PortReply::Neighbours { found: Ok(macs) } => if macs@.len() > 0 {
                            final(self).neighbour_mac == macs@[0]
                        } else {
                            final(self).neighbour_mac == no_mac()
                        },
                        _ => final(self).neighbour_mac == old(self).neighbour_mac,
                    }
                    &&& final(self).port_id == port_after(old(self).port_id, reply)
                    &&& final(self).if_index == interface_after(old(self).if_index, reply)
                    &&& final(self).device_mac == mac_after(old(self).device_mac, reply)
                    &&& final(self).neighbour_mac == neighbour_after(old(self).neighbour_mac, reply)
                },
            },
    {
        let action: PortAction = self.action(cfg);
        let devices: usize = cfg.ports().len();
        let workers: usize = cfg.cores_count();
        assert(self.device < devices && tx_queues(*cfg) == workers + 1);
        let ghost cores = cfg.devices()[self.device as int].1.cores@;
        let mut given: Option<Binding> = None;
        proof {
            assert(cfg.devices()[self.device as int].1.cores@.len() < u16::MAX);
        }
        match reply {
            PortReply::Port { ec, port_id } => {
                if ec != 0 {
                    return Err(Error::Dpdk(error::Error::new(ec)));
                }
                self.port_id = port_id;
                self.ports.push((port_id, self.device));
            },
            PortReply::Info { rc, if_index } => {
                if rc != 0 {
                    return Err(Error::InvalidPciDevice);
                }
                self.if_index = if_index;
            },
            PortReply::Mac { mac } => {
                self.device_mac = mac;
                self.macs.push(mac);
            },
            PortReply::Neighbours { found } => {
                match found {
                    Err(errno) => {
                        return Err(Error::Io(errno));
                    },
                    Ok(macs) => {
                        if macs.len() == 0 {
                            self.neighbour_mac = MacAddr(0, 0, 0, 0, 0, 0);
                        } else {
                            self.neighbour_mac = macs[0];
                        }
                    },
                }
            },
            PortReply::Status { rc } => {
                match action {
                    PortAction::SetMtu { .. } => {
                        proof {
                            let (d, n) = (cfg.devices(), self.device as int);
                            assert(d.take(n + 1).drop_last() =~= d.take(n));
                            assert(cores.take(cores.len() as int) =~= cores);
                            if n + 1 < d.len() {
                                assert(d[n + 1].1.cores@.take(0) =~= Seq::empty());
                            } else {
                                assert(d.take(n + 1) =~= d);
                            }
                            assert(dpdk::cores_of(d.take(n + 1)) + Seq::<CoreId>::empty() =~= dpdk::cores_of(
                                d.take(n + 1),
                            ));
                        }
                        self.device = self.device + 1;
                        self.step = 0;
                        proof {
                            let (d, n) = (cfg.devices(), old(self).device as int);
                            assert(self.bindings@ =~= all_bindings(d.take(n + 1), self.ports@, self.macs@));
                            if n + 1 < d.len() {
                                assert(port_bindings(d[n + 1].1.cores@.take(0), self.port_id, self.device_mac)
                                    =~= Seq::empty());
                            }
                        }
                        return Ok(None);
                    },
                    _ => {},
                }
                if rc < 0 {
                    return Err(Error::Dpdk(error::Error::new(rc)));
                }
                if let PortAction::SetupRx { port_id, queue_id, core, .. } = action {
                    let b: Binding = Binding {
                        core,
                        port_id,
                        rx_queue_id: queue_id,
                        tx_queue_id: queue_id + 1,
                        src_mac: self.device_mac,
                    };
                    self.bindings.push(b);
                    given = Some(b);
                    proof {
                        let k = self.step - 5;
                        assert(cores.take(k + 1) =~= cores.take(k).push(core));
                        assert(bound_cores(self.bindings@) =~= bound_cores(old(self).bindings@).push(core));
                    }
                }
            },
        }
        self.step = self.step + 1;
        proof {
            let front = cfg.devices().take(self.device as int);
            let (was, now) = (
                bound_after(*cfg, old(self).device as int, old(self).step as int),
                bound_after(*cfg, self.device as int, self.step as int),
            );
            lemma_bindings_prefix(front, old(self).ports@, old(self).macs@, self.ports@, self.macs@);
            let (b1, b2) = (
                port_bindings(cores.take(was), old(self).port_id, old(self).device_mac),
                port_bindings(cores.take(now), self.port_id, self.device_mac),
            );
            if given is Some {
                assert(b2 =~= b1.push(given->0));
            } else {
                assert(was == now);
                if was == 0 {
                    assert(b1 =~= Seq::empty() && b2 =~= Seq::empty());
                }
            }
            assert(self.bindings@ =~= all_bindings(front, self.ports@, self.macs@) + b2);
        }
        Ok(given)
    }
}

/// The error with the given number.
pub open spec fn error_of(errno: i32) -> error::Error {
    error::Error { errno }
}

/// When all ports are set up, every configured core has its queues, in the order of the config: those of
/// its place in its port, on that port, with the address of the port.
pub proof fn lemma_finished_binds_all(s: PortInit, cfg: Config)
    requires
        s.wf(cfg),
        s.next_action(cfg) is Finish,
    ensures
        bound_cores(s.bindings@) == cfg.all_cores(),
        s.ports@.len() == cfg.devices().len(),
        s.macs@.len() == cfg.devices().len(),
        s.bindings@ == all_bindings(cfg.devices(), s.ports@, s.macs@),
{
}

/// A port is configured with as many receive queues as cores are configured for its device, and with one transmit
/// queue for each core of any device and one more; every queue of a core is set up with that core's packet
/// pool, and every call goes to the port that was found for the device.
pub proof fn lemma_queues_match_cores(s: PortInit, cfg: Config)
    requires
        s.wf(cfg),
    ensures
        s.next_action(cfg) matches PortAction::Lookup { device } ==> device == s.ports@.len(),
        s.next_action(cfg) matches PortAction::Inspect { port_id } ==> port_id == s.ports@.last().0,
        s.next_action(cfg) matches PortAction::ReadMac { port_id } ==> port_id == s.ports@.last().0,
        s.next_action(cfg) matches PortAction::Configure { port_id, rx_queues, tx_queues } ==> {
            &&& port_id == s.ports@.last().0
            &&& rx_queues == cfg.devices()[s.device as int].1.cores@.len()
            &&& dpdk::numbers(cfg.all_cores()).to_set().len() <= MAX_CORES ==> tx_queues == dpdk::numbers(
                cfg.all_cores(),
            ).to_set().len() + 1
        },
        s.next_action(cfg) matches PortAction::SetupRx { port_id, queue_id, descriptors, core } ==> {
            &&& port_id == s.ports@.last().0
            &&& queue_id < cfg.devices()[s.device as int].1.cores@.len()
            &&& core == cfg.devices()[s.device as int].1.cores@[queue_id as int]
            &&& descriptors == 1024
        },
        s.next_action(cfg) matches PortAction::SetupTx { port_id, queue_id, descriptors } ==> {
            &&& port_id == s.ports@.last().0
            &&& dpdk::numbers(cfg.all_cores()).to_set().len() <= MAX_CORES ==> queue_id <= dpdk::numbers(
                cfg.all_cores(),
            ).to_set().len()
            &&& descriptors == 1024
        },
        s.next_action(cfg) matches PortAction::SetMtu { port_id, mtu } ==> port_id == s.ports@.last().0 && mtu == 9216,
{
    if s.device < cfg.devices().len() {
        assert(cfg.devices()[s.device as int].1.cores@.len() < u16::MAX);
    }
}

/// The same device after `step` calls.
pub open spec fn at_step(s: PortInit, step: nat) -> PortInit {
    PortInit { step: step as usize, ..s }
}

/// How many receive and how many transmit queues the first `n` calls for a device set up.
pub open spec fn queues_set_up(s: PortInit, cfg: Config, n: nat) -> (nat, nat)
    decreases n,
{
    if n == 0 {
        (0, 0)
    } else {
        let (rx, tx) = queues_set_up(s, cfg, (n - 1) as nat);
        match at_step(s, (n - 1) as nat).next_action(cfg) {
            PortAction::SetupRx { .. } => (rx + 1, tx),
            PortAction::SetupTx { .. } => (rx, tx + 1),
            _ => (rx, tx),
        }
    }
}

proof fn lemma_queues_counted(s: PortInit, cfg: Config, n: nat)
    requires
        s.wf(cfg),
        s.device < cfg.devices().len(),
        n <= s.step,
    ensures
        queues_set_up(s, cfg, n) == ({
            let (a, b) = (cfg.devices()[s.device as int].1.cores@.len() as int, cfg.distinct_cores() + 1);
            if n <= 5 {
                (0nat, 0nat)
            } else if n <= 5 + a {
                ((n - 5) as nat, 0nat)
            } else if n <= 5 + a + b {
                (a as nat, (n - 5 - a) as nat)
            } else {
                (a as nat, b as nat)
            }
        }),
    decreases n,
{
    if n > 0 {
        lemma_queues_counted(s, cfg, (n - 1) as nat);
    }
}

/// By the time a device is finished with, exactly the queues that its port was configured with have been set up:
/// as many calls for receive queues as the device has cores, and as many for transmit queues as the
/// configuring call asked for.
pub proof fn lemma_every_queue_is_set_up(s: PortInit, cfg: Config, configuring: PortInit)
    requires
        s.wf(cfg),
        s.next_action(cfg) is SetMtu,
        configuring.wf(cfg),
        configuring.device == s.device,
        configuring.next_action(cfg) is Configure,
        dpdk::numbers(cfg.all_cores()).to_set().len() <= MAX_CORES,
    ensures
        configuring.next_action(cfg)->rx_queues == queues_set_up(s, cfg, s.step as nat).0,
        configuring.next_action(cfg)->tx_queues == queues_set_up(s, cfg, s.step as nat).1,
        queues_set_up(s, cfg, s.step as nat).0 == cfg.devices()[s.device as int].1.cores@.len(),
{
    assert(cfg.devices()[s.device as int].1.cores@.len() < u16::MAX);
    lemma_queues_counted(s, cfg, s.step as nat);
}

/// Every call of a device but the last moves on by one, and no queue is set up twice: calls for receive queues, and
/// for transmit queues, carry ascending numbers that start at zero.
pub proof fn lemma_queue_numbers_ascend(s: PortInit, cfg: Config)
    requires
        s.wf(cfg),
        dpdk::numbers(cfg.all_cores()).to_set().len() <= MAX_CORES,
    ensures
        s.next_action(cfg) matches PortAction::SetupRx { queue_id, .. } ==> queue_id == queues_set_up(
            s,
            cfg,
            s.step as nat,
        ).0,
        s.next_action(cfg) matches PortAction::SetupTx { queue_id, .. } ==> queue_id == queues_set_up(
            s,
            cfg,
            s.step as nat,
        ).1,
{
    if s.device < cfg.devices().len() {
        assert(cfg.devices()[s.device as int].1.cores@.len() < u16::MAX);
        lemma_queues_counted(s, cfg, s.step as nat);
    }
}

/// Every call but the setting of the MTU stops the set-up when it fails, with the number of the failure; a call that
/// succeeds does not.
pub proof fn lemma_failures_stop(s: PortInit, cfg: Config, reply: PortReply)
    requires
        s.wf(cfg),
        s.answers(cfg, reply),
    ensures
        s.next_action(cfg) is SetMtu ==> s.failure(cfg, reply) is None,
        !(s.next_action(cfg) is SetMtu) ==> (reply matches PortReply::Status { rc } ==> {
            &&& rc < 0 <==> s.failure(cfg, reply) is Some
            &&& s.failure(cfg, reply) matches Some(e) ==> e matches Error::Dpdk(d) && d.number() == rc
        }),
        reply matches PortReply::Port { ec, .. } ==> {
            &&& ec != 0 <==> s.failure(cfg, reply) is Some
            &&& s.failure(cfg, reply) matches Some(e) ==> e matches Error::Dpdk(d) && d.number() == ec
        },
        reply matches PortReply::Info { rc, .. } ==> {
            &&& rc != 0 <==> s.failure(cfg, reply) is Some
            &&& s.failure(cfg, reply) matches Some(e) ==> e is InvalidPciDevice
        },
        reply matches PortReply::Neighbours { found } ==> {
            &&& found is Err <==> s.failure(cfg, reply) is Some
            &&& s.failure(cfg, reply) matches Some(e) ==> e == Error::Io(found->Err_0)
        },
        reply is Mac ==> s.failure(cfg, reply) is None,
{
}

proof fn lemma_bindings_hold(
    devices: Seq<(PciDeviceName, PortConfig)>,
    ports: Seq<(u16, usize)>,
    macs: Seq<MacAddr>,
    i: int,
    q: int,
)
    requires
        0 <= i < devices.len(),
        0 <= q < devices[i].1.cores@.len(),
    ensures
        all_bindings(devices, ports, macs).contains(
            (Binding {
                core: devices[i].1.cores@[q],
                port_id: ports[i].0,
                rx_queue_id: q as u16,
                tx_queue_id: (q + 1) as u16,
                src_mac: macs[i],
            }),
        ),
    decreases devices.len(),
{
    let b = Binding {
        core: devices[i].1.cores@[q],
        port_id: ports[i].0,
        rx_queue_id: q as u16,
        tx_queue_id: (q + 1) as u16,
        src_mac: macs[i],
    };
    let n = devices.len() - 1;
    let front = all_bindings(devices.drop_last(), ports, macs);
    let all = all_bindings(devices, ports, macs);
    if i == n {
        assert(all[front.len() + q] == b);
    } else {
        lemma_bindings_hold(devices.drop_last(), ports, macs, i, q);
        let k = choose|k: int| 0 <= k < front.len() && front[k] == b;
        assert(all[k] == b);
    }
}

/// When all ports are set up, the core at place `q` of device `i` has receive queue `q` and transmit queue `q + 1` of
/// the port of that device; no worker transmits on queue zero.
pub proof fn lemma_core_gets_its_queues(s: PortInit, cfg: Config, i: int, q: int)
    requires
        s.wf(cfg),
        s.next_action(cfg) is Finish,
        0 <= i < cfg.devices().len(),
        0 <= q < cfg.devices()[i].1.cores@.len(),
    ensures
        exists|k: int|
            0 <= k < s.bindings@.len() && {
                let b = #[trigger] s.bindings@[k];
                &&& b.core == cfg.devices()[i].1.cores@[q]
                &&& b.port_id == s.ports@[i].0
                &&& b.rx_queue_id == q
                &&& b.tx_queue_id == q + 1
                &&& b.src_mac == s.macs@[i]
            },
{
    assert(cfg.devices()[i].1.cores@.len() < u16::MAX);
    lemma_bindings_hold(cfg.devices(), s.ports@, s.macs@, i, q);
}

/// The port after a reply.
pub open spec fn port_after(was: u16, reply: PortReply) -> u16 {
    match reply {
        PortReply::Port { port_id, .. } => port_id,
        _ => was,
    }
}

/// The interface after a reply.
pub open spec fn interface_after(was: u32, reply: PortReply) -> u32 {
    match reply {
        PortReply::Info { if_index, .. } => if_index,
        _ => was,
    }
}

/// The address of the device after a reply.
pub open spec fn mac_after(was: MacAddr, reply: PortReply) -> MacAddr {
    match reply {
        PortReply::Mac { mac } => mac,
        _ => was,
    }
}

/// The first of some addresses, all zeros when there is none.
pub open spec fn first_of(macs: Seq<MacAddr>) -> MacAddr {
    if macs.len() > 0 {
        macs[0]
    } else {
        no_mac()
    }
}

/// The address of the neighbour after a reply.
pub open spec fn neighbour_after(was: MacAddr, reply: PortReply) -> MacAddr {
    match reply {
        PortReply::Neighbours { found: Ok(macs) } => first_of(macs@),
        _ => was,
    }
}

/// What is known of a port is what was replied for it, whatever was known of an earlier port; and a reply changes
/// nothing but what it is about.
pub proof fn lemma_replies_are_of_this_port(reply: PortReply, port: u16, interface: u32, mac: MacAddr, neighbour: MacAddr)
    ensures
        reply matches PortReply::Port { port_id, .. } ==> port_after(port, reply) == port_id,
        reply matches PortReply::Info { if_index, .. } ==> interface_after(interface, reply) == if_index,
        reply matches PortReply::Mac { mac: m } ==> mac_after(mac, reply) == m,
        reply matches PortReply::Neighbours { found: Ok(macs) } ==> neighbour_after(neighbour, reply) == first_of(macs@),
        !(reply is Port) ==> port_after(port, reply) == port,
        !(reply is Info) ==> interface_after(interface, reply) == interface,
        !(reply is Mac) ==> mac_after(mac, reply) == mac,
        !(reply is Neighbours) ==> neighbour_after(neighbour, reply) == neighbour,
{
}

/// The first neighbour counts: more of them behind it change nothing, and a neighbour alone is the first.
pub proof fn lemma_first_neighbour_counts(a: Seq<MacAddr>, b: Seq<MacAddr>, mac: MacAddr)
    ensures
        a.len() > 0 ==> first_of(a + b) == first_of(a),
        first_of(seq![mac]) == mac,
        first_of(Seq::empty()) == MacAddr(0, 0, 0, 0, 0, 0),
{
}

} // verus!
