//! Configuration and start-up rules of the DPDK engine.

use std::collections::HashSet;

use vstd::prelude::*;
use vstd::string::*;

use crate::dpdk::cpu::{CoreId, CoreMask, MAX_CORES};
use crate::dpdk::eal::EalBuilder;
use crate::dpdk::{cpu, eal, error};
use crate::text;

verus! {

/// Packet buffers per worker.
pub const MBUFS_COUNT: u32 = 262144;

/// Packets per burst.
pub const MBUFS_BURST_SIZE: u16 = 32;

/// The MTU that is set on every port.
pub const MTU: u16 = 9216;

pub const PORT_RX_QUEUE_SIZE: u16 = 1024;

pub const PORT_TX_QUEUE_SIZE: u16 = 1024;

/// Mbuf data room size: MTU + Ethernet header (14) + VLAN (4) + headroom (128), rounded up to
/// 10 KB.
pub const MBUF_DATA_ROOM_SIZE: u16 = 10240;

/// Name of a PCI device in the format "domain:bus:devid.func".
pub type PciDeviceName = String;

/// What can go wrong while the engine starts.
///
/// I/O failures carry the number of the operating system's error.
#[derive(Debug, Clone, Copy, PartialEq, Eq, Structural)]
pub enum Error {
    Io(i32),
    PcapLoad(i32),
    PcapParse,
    InvalidPciDevice,
    /// Ports configured and ports found.
    InvalidPortsCount(usize, usize),
    InvalidCoresCount,
    OutOfMemory,
    Dpdk(error::Error),
}

impl Error {
    /// Renders the error; `description` is what DPDK says about its error number.
    pub fn message(&self, description: &str) -> (r: String)
        ensures
            r@ == match *self {
                Error::Io(_) => "i/o error"@,
                Error::PcapLoad(_) => "failed to load pcap file"@,
                Error::PcapParse => "failed to parse pcap file"@,
                Error::InvalidPciDevice => "invalid PCI device"@,
                Error::InvalidPortsCount(a, b) => "invalid ports count: configured "@ + text::decimal(a as nat)
                    + ", found "@ + text::decimal(b as nat),
                Error::InvalidCoresCount => "invalid cores count"@,
                Error::OutOfMemory => "out of memory"@,
                Error::Dpdk(e) => "dpdk error: "@ + ("["@ + text::signed_decimal(e.number() as int) + "]: "@
                    + description@),
            },
    {
        match self {
            Error::Io(_) => "i/o error".to_owned(),
            Error::PcapLoad(_) => "failed to load pcap file".to_owned(),
            Error::PcapParse => "failed to parse pcap file".to_owned(),
            Error::InvalidPciDevice => "invalid PCI device".to_owned(),
            Error::InvalidPortsCount(a, b) => {
                let mut out: String = "invalid ports count: configured ".to_owned();
                text::push_decimal(&mut out, *a as u128);
                out.append(", found ");
                text::push_decimal(&mut out, *b as u128);
                out
            },
            Error::InvalidCoresCount => "invalid cores count".to_owned(),
            Error::OutOfMemory => "out of memory".to_owned(),
            Error::Dpdk(e) => {
                let mut out: String = "dpdk error: ".to_owned();
                out.append(e.message(description).as_str());
                out
            },
        }
    }
}

/// Settings of a port.
#[derive(Debug, Clone)]
pub struct PortConfig {
    /// List of CPU cores to run on.
    pub cores: Vec<CoreId>,
}

/// Settings of the engine.
#[derive(Debug, Clone)]
pub struct Config {
    /// Core ID that is used as main.
    main_lcore: CoreId,
    /// Port settings, united by PCI device.
    ports: Vec<(PciDeviceName, PortConfig)>,
    /// Path to the pcap file.
    pcap_path: String,
}

/// Whether no device is configured twice.
pub open spec fn distinct_devices(ports: Seq<(PciDeviceName, PortConfig)>) -> bool {
    forall|i: int, j: int| 0 <= i < j < ports.len() ==> #[trigger] ports[i].0@ != #[trigger] ports[j].0@
}

/// The cores of the given ports, port by port.
pub open spec fn cores_of(ports: Seq<(PciDeviceName, PortConfig)>) -> Seq<CoreId>
    decreases ports.len(),
{
    if ports.len() == 0 {
        Seq::empty()
    } else {
        cores_of(ports.drop_last()) + ports.last().1.cores@
    }
}

/// The numbers of the given cores.
pub open spec fn numbers(cores: Seq<CoreId>) -> Seq<u16> {
    Seq::new(cores.len(), |i: int| cores[i]@)
}

impl Config {
    pub closed spec fn main_core(&self) -> CoreId {
        self.main_lcore
    }

    pub closed spec fn devices(&self) -> Seq<(PciDeviceName, PortConfig)> {
        self.ports@
    }

    pub closed spec fn path(&self) -> Seq<char> {
        self.pcap_path@
    }

    /// The cores of all ports, port by port.
    pub open spec fn all_cores(&self) -> Seq<CoreId> {
        cores_of(self.devices())
    }

    /// The number of distinct cores.
    pub open spec fn distinct_cores(&self) -> nat {
        numbers(self.all_cores()).to_set().len()
    }

    /// The main core and those of the workers.
    pub open spec fn used_cores(&self) -> Set<u16> {
        numbers(self.all_cores()).to_set().insert(self.main_core()@)
    }

    /// Constructs a new `Config`.
    pub fn new(main_lcore: CoreId, ports: Vec<(PciDeviceName, PortConfig)>, pcap_path: String) -> (r: Self)
        requires
            distinct_devices(ports@),
        ensures
            r.main_core() == main_lcore,
            r.devices() == ports@,
            distinct_devices(r.devices()),
            r.path() == pcap_path@,
    {
        Config { main_lcore, ports, pcap_path }
    }

    /// Returns the core ID that is used as main.
    pub fn main_lcore(&self) -> (r: CoreId)
        ensures
            r == self.main_core(),
    {
        self.main_lcore
    }

    /// Returns the port settings.
    pub fn ports(&self) -> (r: &Vec<(PciDeviceName, PortConfig)>)
        ensures
            r@ == self.devices(),
    {
        &self.ports
    }

    /// Returns the CPU cores specified in this config.
    pub fn cores(&self) -> (r: Vec<CoreId>)
        ensures
            r@ == self.all_cores(),
    {
        let mut out: Vec<CoreId> = Vec::new();
        let mut i: usize = 0;
        assert(self.ports@.take(0) =~= Seq::empty());
        while i < self.ports.len()
            invariant
                i <= self.ports@.len(),
                out@ == cores_of(self.ports@.take(i as int)),
            decreases self.ports@.len() - i,
        {
            let cores: &Vec<CoreId> = &self.ports[i].1.cores;
            let ghost start = out@;
            let mut k: usize = 0;
            assert(cores@.take(0) =~= Seq::empty());
            while k < cores.len()
                invariant
                    k <= cores@.len(),
                    out@ == start + cores@.take(k as int),
                decreases cores@.len() - k,
            {
                out.push(cores[k]);
                assert(cores@.take(k + 1) =~= cores@.take(k as int).push(cores@[k as int]));
                k = k + 1;
            }
            proof {
                assert(cores@.take(k as int) =~= cores@);
                assert(self.ports@.take(i + 1).drop_last() =~= self.ports@.take(i as int));
            }
            i = i + 1;
        }
        assert(self.ports@.take(i as int) =~= self.ports@);
        out
    }

    /// Returns the total number of distinct CPU cores specified in this config.
    pub fn cores_count(&self) -> (r: usize)
        ensures
            r == self.distinct_cores(),
            r <= MAX_CORES,
    {
        broadcast use vstd::std_specs::hash::group_hash_axioms;

        let cores: Vec<CoreId> = self.cores();
        let mut seen: HashSet<u16> = HashSet::new();
        let mut i: usize = 0;
        assert(numbers(cores@).take(0).to_set() =~= Set::empty());
        while i < cores.len()
            invariant
                i <= cores@.len(),
                seen@ == numbers(cores@).take(i as int).to_set(),
                forall|n: u16| seen@.contains(n) ==> n < MAX_CORES,
            decreases cores@.len() - i,
        {
            broadcast use vstd::std_specs::hash::group_hash_axioms;

            let n: u16 = cores[i].as_u16();
            seen.insert(n);
            proof {
                let s = numbers(cores@);
                assert(s.take(i + 1) =~= s.take(i as int).push(n));
                assert forall|x: u16| #[trigger] s.take(i + 1).to_set().contains(x) == s.take(
                    i as int,
                ).to_set().insert(n).contains(x) by {
                    let (a, b) = (s.take(i as int), s.take(i + 1));
                    if b.contains(x) && x != n {
                        let k = choose|k: int| 0 <= k < b.len() && b[k] == x;
                        assert(a[k] == x);
                    }
                    if a.contains(x) {
                        let k = choose|k: int| 0 <= k < a.len() && a[k] == x;
                        assert(b[k] == x);
                    }
                    if x == n {
                        assert(b[i as int] == x);
                    }
                }
                assert(seen@ =~= s.take(i + 1).to_set());
            }
            i = i + 1;
        }
        proof {
            assert(numbers(cores@).take(i as int) =~= numbers(cores@));
            lemma_few_cores(seen@);
        }
        seen.len()
    }

    /// Constructs and returns the CPU core mask to be used in EAL.
    pub fn core_mask(&self) -> (r: CoreMask)
        ensures
            r@ == self.used_cores(),
    {
        let mut mask: CoreMask = CoreMask::default();
        mask.add(self.main_lcore);
        let cores: Vec<CoreId> = self.cores();
        let mut i: usize = 0;
        assert(mask@ =~= numbers(cores@).take(0).to_set().insert(self.main_core()@));
        while i < cores.len()
            invariant
                i <= cores@.len(),
                mask@ == numbers(cores@).take(i as int).to_set().insert(self.main_core()@),
            decreases cores@.len() - i,
        {
            mask.add(cores[i]);
            proof {
                let s = numbers(cores@);
                let n = s[i as int];
                let (a, b) = (s.take(i as int), s.take(i + 1));
                assert(b =~= a.push(n));
                assert forall|x: u16| #[trigger] b.to_set().contains(x) == a.to_set().insert(n).contains(x) by {
                    if b.contains(x) && x != n {
                        let k = choose|k: int| 0 <= k < b.len() && b[k] == x;
                        assert(a[k] == x);
                    }
                    if a.contains(x) {
                        let k = choose|k: int| 0 <= k < a.len() && a[k] == x;
                        assert(b[k] == x);
                    }
                    if x == n {
                        assert(b[i as int] == x);
                    }
                }
                assert(mask@ =~= b.to_set().insert(self.main_core()@));
            }
            i = i + 1;
        }
        assert(numbers(cores@).take(i as int) =~= numbers(cores@));
        mask
    }

    /// Returns the path to the pcap file.
    pub fn pcap_path(&self) -> (r: &String)
        ensures
            r@ == self.path(),
    {
        &self.pcap_path
    }
}

/// There are at most as many cores as there are numbers for them.
proof fn lemma_few_cores(s: Set<u16>)
    requires
        s.finite(),
        forall|n: u16| s.contains(n) ==> n < MAX_CORES,
    ensures
        s.len() <= MAX_CORES,
{
    let ints = s.map(|n: u16| n as int);
    let all = vstd::set_lib::set_int_range(0, MAX_CORES as int);
    vstd::set_lib::lemma_int_range(0, MAX_CORES as int);
    assert(vstd::relations::injective(|n: u16| n as int));
    vstd::set_lib::lemma_map_size(s, ints, |n: u16| n as int);
    vstd::set_lib::lemma_len_subset(ints, all);
}

/// The EAL arguments that allow the given devices.
pub open spec fn allowed(ports: Seq<(PciDeviceName, PortConfig)>) -> Seq<Seq<char>>
    decreases ports.len(),
{
    if ports.len() == 0 {
        Seq::empty()
    } else {
        allowed(ports.drop_last()).push("-a"@).push(ports.last().0@ + eal::allow_suffix())
    }
}

/// Builds the EAL command line: in memory, as the primary process, with logs captured and every
/// configured device allowed.
pub fn init_eal(cfg: &Config, name: String) -> (r: EalBuilder)
    requires
        eal::no_nul(name@),
        forall|i: int| 0 <= i < cfg.devices().len() ==> eal::no_nul(#[trigger] cfg.devices()[i].0@),
    ensures
        r.wf(),
        r.captures(),
        r@ == seq![
            name@,
            "-c"@,
            "0x"@ + text::hexadecimal(cpu::mask_of(cfg.used_cores()) as nat),
            "--main-lcore="@ + text::decimal(cfg.main_core()@ as nat),
            "--proc-type="@ + "primary"@,
            "--in-memory"@,
        ] + allowed(cfg.devices()),
        r@ == eal_words(*cfg, name@),
        is_eal_line(r@, *cfg, name@),
{
    let mask: CoreMask = cfg.core_mask();
    proof {
        reveal_strlit("primary");
    }
    let mut builder: EalBuilder = EalBuilder::from_coremask(name, mask).with_main_lcore(
        cfg.main_lcore(),
    ).with_proc_type("primary").with_in_memory().with_log_capture();
    let ghost head = seq![
        name@,
        "-c"@,
        "0x"@ + text::hexadecimal(cpu::mask_of(cfg.used_cores()) as nat),
        "--main-lcore="@ + text::decimal(cfg.main_core()@ as nat),
        "--proc-type="@ + "primary"@,
        "--in-memory"@,
    ];
    let ports: &Vec<(PciDeviceName, PortConfig)> = cfg.ports();
    let mut i: usize = 0;
    proof {
        assert(ports@.take(0) =~= Seq::empty());
        assert(builder@ =~= head + allowed(ports@.take(0)));
    }
    while i < ports.len()
        invariant
            i <= ports@.len(),
            builder.wf(),
            builder.captures(),
            ports@ == cfg.devices(),
            forall|k: int| 0 <= k < cfg.devices().len() ==> eal::no_nul(#[trigger] cfg.devices()[k].0@),
            builder@ == head + allowed(ports@.take(i as int)),
        decreases ports@.len() - i,
    {
        assert(eal::no_nul(cfg.devices()[i as int].0@));
        builder = builder.with_allow(ports[i].0.as_str());
        proof {
            assert(ports@.take(i + 1).drop_last() =~= ports@.take(i as int));
            assert(builder@ =~= head + allowed(ports@.take(i + 1)));
        }
        i = i + 1;
    }
    proof {
        assert(ports@.take(i as int) =~= ports@);
        assert(builder@ == eal_words(*cfg, name@));
        lemma_eal_line(*cfg, name@);
    }
    builder
}

/// Checks that DPDK found the configured ports and one core more than the workers use.
pub fn check_topology(cfg: &Config, ports_found: usize, cores_found: usize) -> (r: Result<(), Error>)
    ensures
        r == (if ports_found != cfg.devices().len() {
            Err(Error::InvalidPortsCount(cfg.devices().len() as usize, ports_found))
        } else if cores_found != cfg.distinct_cores() + 1 {
            Err(Error::InvalidCoresCount)
        } else {
            Ok(())
        }),
        topology_fault(*cfg, ports_found as nat, cores_found as nat) == (match r {
            Err(e) => Some(e),
            Ok(_) => None,
        }),
        r is Ok <==> ports_found == cfg.devices().len() && cores_found == cfg.distinct_cores() + 1,
        r matches Err(Error::InvalidPortsCount(a, b)) ==> a == cfg.devices().len() && b == ports_found && a != b,
        r matches Err(e) ==> (e is InvalidPortsCount || ports_found == cfg.devices().len() && e is InvalidCoresCount),
{
    let configured: usize = cfg.ports().len();
    if ports_found != configured {
        return Err(Error::InvalidPortsCount(configured, ports_found));
    }
    if cores_found != cfg.cores_count() + 1 {
        return Err(Error::InvalidCoresCount);
    }
    Ok(())
}

/// A worker to be created.
#[derive(Debug, Clone)]
pub struct WorkerPlan {
    /// The core the worker runs on.
    pub core: CoreId,
    /// Name of its packet pool.
    pub mempool: String,
    /// Index of its statistics.
    pub stat: usize,
}

/// Plans a worker for every core, in the order of the config; each has statistics of its own.
pub fn plan_workers(cfg: &Config) -> (r: Vec<WorkerPlan>)
    ensures
        r@.len() == cfg.all_cores().len(),
        forall|i: int|
            0 <= i < r@.len() ==> {
                &&& (#[trigger] r@[i]).core == cfg.all_cores()[i]
                &&& r@[i].mempool@ == "mp::"@ + text::decimal(cfg.all_cores()[i]@ as nat)
                &&& r@[i].stat == i
                &&& text::read_in_base(r@[i].mempool@.skip(4), 10) == cfg.all_cores()[i]@
                &&& r@[i].mempool@ == pool_name(cfg.all_cores()[i]@)
            },
{
    let cores: Vec<CoreId> = cfg.cores();
    let mut out: Vec<WorkerPlan> = Vec::new();
    let mut i: usize = 0;
    while i < cores.len()
        invariant
            i <= cores@.len(),
            out@.len() == i,
            cores@ == cfg.all_cores(),
            forall|k: int|
                0 <= k < out@.len() ==> {
                    &&& (#[trigger] out@[k]).core == cfg.all_cores()[k]
                    &&& out@[k].mempool@ == "mp::"@ + text::decimal(cfg.all_cores()[k]@ as nat)
                    &&& out@[k].stat == k
                    &&& text::read_in_base(out@[k].mempool@.skip(4), 10) == cfg.all_cores()[k]@
                },
        decreases cores@.len() - i,
    {
        let mut mempool: String = "mp::".to_owned();
        cpu::push_core(&mut mempool, cores[i]);
        proof {
            reveal_strlit("mp::");
            text::lemma_decimal_reads_back(cores@[i as int]@ as nat);
            assert(mempool@.skip(4) =~= text::decimal(cores@[i as int]@ as nat));
        }
        out.push(WorkerPlan { core: cores[i], mempool, stat: i });
        i = i + 1;
    }
    out
}

/// The cores of ports are listed port by port, each port's in its own order.
pub proof fn lemma_cores_port_by_port(a: Seq<(PciDeviceName, PortConfig)>, b: Seq<(PciDeviceName, PortConfig)>, port: (
    PciDeviceName,
    PortConfig,
))
    ensures
        cores_of(a + b) == cores_of(a) + cores_of(b),
        cores_of(seq![port]) == port.1.cores@,
        cores_of(Seq::empty()) == Seq::<CoreId>::empty(),
    decreases b.len(),
{
    let one = seq![port];
    assert(one.drop_last() =~= Seq::empty());
    assert(cores_of(one.drop_last()) =~= Seq::empty());
    assert(cores_of(one) =~= port.1.cores@);
    if b.len() == 0 {
        assert(a + b =~= a);
        assert(cores_of(a) + cores_of(b) =~= cores_of(a));
    } else {
        lemma_cores_port_by_port(a, b.drop_last(), port);
        assert((a + b).drop_last() =~= a + b.drop_last());
        assert(cores_of(a + b) =~= cores_of(a) + cores_of(b));
    }
}

proof fn lemma_core_is_listed(ports: Seq<(PciDeviceName, PortConfig)>, i: int, j: int)
    requires
        0 <= i < ports.len(),
        0 <= j < ports[i].1.cores@.len(),
    ensures
        cores_of(ports).contains(ports[i].1.cores@[j]),
    decreases ports.len(),
{
    let front = cores_of(ports.drop_last());
    let core = ports[i].1.cores@[j];
    if i == ports.len() - 1 {
        assert(cores_of(ports)[front.len() + j] == core);
    } else {
        lemma_core_is_listed(ports.drop_last(), i, j);
        let k = choose|k: int| 0 <= k < front.len() && front[k] == core;
        assert(cores_of(ports)[k] == core);
    }
}

proof fn lemma_listed_core(ports: Seq<(PciDeviceName, PortConfig)>, k: int) -> (r: (int, int))
    requires
        0 <= k < cores_of(ports).len(),
    ensures
        0 <= r.0 < ports.len(),
        0 <= r.1 < ports[r.0].1.cores@.len(),
        ports[r.0].1.cores@[r.1] == cores_of(ports)[k],
    decreases ports.len(),
{
    let front = cores_of(ports.drop_last());
    if k < front.len() {
        lemma_listed_core(ports.drop_last(), k)
    } else {
        (ports.len() - 1, k - front.len())
    }
}

/// The cores in use are the main core, the cores of every port, and no others.
pub proof fn lemma_used_cores(cfg: Config, n: u16)
    ensures
        cfg.used_cores().contains(n) <==> n == cfg.main_core()@ || exists|i: int, j: int|
            0 <= i < cfg.devices().len() && 0 <= j < cfg.devices()[i].1.cores@.len() && (
            #[trigger] cfg.devices()[i].1.cores@[j])@ == n,
{
    let cores = cfg.all_cores();
    let all = numbers(cores);
    if cfg.used_cores().contains(n) && n != cfg.main_core()@ {
        let k = choose|k: int| 0 <= k < all.len() && all[k] == n;
        let (i, j) = lemma_listed_core(cfg.devices(), k);
        assert(cfg.devices()[i].1.cores@[j]@ == n);
    }
    if exists|i: int, j: int|
        0 <= i < cfg.devices().len() && 0 <= j < cfg.devices()[i].1.cores@.len() && (
        #[trigger] cfg.devices()[i].1.cores@[j])@ == n {
        let (i, j) = choose|i: int, j: int|
            0 <= i < cfg.devices().len() && 0 <= j < cfg.devices()[i].1.cores@.len() && (
            #[trigger] cfg.devices()[i].1.cores@[j])@ == n;
        lemma_core_is_listed(cfg.devices(), i, j);
        let k = choose|k: int| 0 <= k < cores.len() && cores[k] == cfg.devices()[i].1.cores@[j];
        assert(all[k] == n);
        assert(all.contains(n));
    }
}

/// Every port is allowed by two arguments, in the order of the config.
pub proof fn lemma_every_device_is_allowed(ports: Seq<(PciDeviceName, PortConfig)>, i: int)
    requires
        0 <= i < ports.len(),
    ensures
        allowed(ports).len() == 2 * ports.len(),
        allowed(ports)[2 * i] == "-a"@,
        allowed(ports)[2 * i + 1] == ports[i].0@ + ",mprq_en=0,rxq_cqe_comp_en=0"@,
    decreases ports.len(),
{
    let front = ports.drop_last();
    if front.len() > 0 {
        lemma_every_device_is_allowed(
            front,
            if i < front.len() {
                i
            } else {
                0
            },
        );
    } else {
        assert(allowed(front) =~= Seq::empty());
    }
}

/// Whether EAL arguments are those of a config: the name, the mask of all cores in use, the main core, a primary
/// process in memory, and each device.
pub open spec fn is_eal_line(words: Seq<Seq<char>>, cfg: Config, name: Seq<char>) -> bool {
    &&& words.len() == 6 + 2 * cfg.devices().len()
    &&& words[0] == name
    &&& words[1] == "-c"@
    &&& words[2].take(2) == "0x"@
    &&& 0 <= text::read_in_base(words[2].skip(2), 16) <= u128::MAX
    &&& cpu::is_mask(text::read_in_base(words[2].skip(2), 16) as u128, cfg.used_cores())
    &&& words[3].take(13) == "--main-lcore="@
    &&& text::read_in_base(words[3].skip(13), 10) == cfg.main_core()@
    &&& words[4] == "--proc-type="@ + "primary"@
    &&& words[5] == "--in-memory"@
    &&& forall|i: int| 0 <= i < cfg.devices().len() ==> #[trigger] allows(words, i, cfg.devices()[i].0@)
}

/// Whether EAL arguments allow a device at place `i` of their list of devices.
pub open spec fn allows(words: Seq<Seq<char>>, i: int, device: Seq<char>) -> bool {
    words[6 + 2 * i] == "-a"@ && words[7 + 2 * i] == device + ",mprq_en=0,rxq_cqe_comp_en=0"@
}

/// A packet of the largest size fits into a buffer with its Ethernet header, a VLAN tag and the headroom.
pub proof fn lemma_largest_packet_fits()
    ensures
        MTU + 14 + 4 + 128 <= MBUF_DATA_ROOM_SIZE,
        MBUFS_COUNT >= MBUFS_BURST_SIZE,
{
}

/// What is wrong with the ports and cores that DPDK found, if anything.
pub open spec fn topology_fault(cfg: Config, ports_found: nat, cores_found: nat) -> Option<Error> {
    if ports_found != cfg.devices().len() {
        Some(Error::InvalidPortsCount(cfg.devices().len() as usize, ports_found as usize))
    } else if cores_found != cfg.distinct_cores() + 1 {
        Some(Error::InvalidCoresCount)
    } else {
        None
    }
}

/// DPDK has to find a port for every device and one core more than the workers have different ones; the wrong number
/// of ports is reported before that of cores, with both numbers.
pub proof fn lemma_topology(cfg: Config, ports_found: usize, cores_found: usize)
    requires
        cfg.devices().len() <= usize::MAX,
    ensures
        topology_fault(cfg, ports_found as nat, cores_found as nat) is None <==> ports_found == cfg.devices().len()
            && cores_found == numbers(cfg.all_cores()).to_set().len() + 1,
        ports_found != cfg.devices().len() ==> (topology_fault(cfg, ports_found as nat, cores_found as nat) matches Some(
            e,
        ) && e matches Error::InvalidPortsCount(configured, found) && configured == cfg.devices().len() && found
            == ports_found),
        ports_found == cfg.devices().len() ==> (topology_fault(cfg, ports_found as nat, cores_found as nat) matches Some(
            e,
        ) ==> e == Error::InvalidCoresCount),
{
}

/// The name of the packet pool of a core.
pub open spec fn pool_name(core: u16) -> Seq<char> {
    "mp::"@ + text::decimal(core as nat)
}

/// The packet pools of different cores have different names, from which the numbers of the cores can be read.
pub proof fn lemma_pool_names(a: u16, b: u16)
    ensures
        pool_name(a).take(4) == "mp::"@,
        text::read_in_base(pool_name(a).skip(4), 10) == a,
        pool_name(a) == pool_name(b) ==> a == b,
{
    reveal_strlit("mp::");
    text::lemma_decimal_reads_back(a as nat);
    text::lemma_decimal_reads_back(b as nat);
    assert(pool_name(a).take(4) =~= "mp::"@);
    assert(pool_name(a).skip(4) =~= text::decimal(a as nat));
    assert(pool_name(b).skip(4) =~= text::decimal(b as nat));
}

/// The EAL arguments of a config.
pub open spec fn eal_words(cfg: Config, name: Seq<char>) -> Seq<Seq<char>> {
    seq![
        name,
        "-c"@,
        "0x"@ + text::hexadecimal(cpu::mask_of(cfg.used_cores()) as nat),
        "--main-lcore="@ + text::decimal(cfg.main_core()@ as nat),
        "--proc-type="@ + "primary"@,
        "--in-memory"@,
    ] + allowed(cfg.devices())
}

/// The EAL arguments say what the config says: the mask has the bits of the cores in use, the main core is the
/// configured one, and every device is allowed, in order.
pub proof fn lemma_eal_line(cfg: Config, name: Seq<char>)
    ensures
        is_eal_line(eal_words(cfg, name), cfg, name),
{
    let words = eal_words(cfg, name);
    let bits = cpu::mask_of(cfg.used_cores());
    cpu::lemma_mask_exists(cfg.used_cores());
    text::lemma_hexadecimal_reads_back(bits as nat);
    text::lemma_decimal_reads_back(cfg.main_core()@ as nat);
    reveal_strlit("0x");
    reveal_strlit("--main-lcore=");
    assert(words[2].take(2) =~= "0x"@);
    assert(words[2].skip(2) =~= text::hexadecimal(bits as nat));
    assert(words[3].take(13) =~= "--main-lcore="@);
    assert(words[3].skip(13) =~= text::decimal(cfg.main_core()@ as nat));
    assert(text::read_in_base(words[2].skip(2), 16) as u128 == bits);
    if cfg.devices().len() > 0 {
        lemma_every_device_is_allowed(cfg.devices(), 0);
    } else {
        assert(cfg.devices() =~= Seq::empty());
    }
    assert forall|k: int| 0 <= k < cfg.devices().len() implies #[trigger] allows(words, k, cfg.devices()[k].0@) by {
        lemma_every_device_is_allowed(cfg.devices(), k);
        assert(words[6 + 2 * k] == allowed(cfg.devices())[2 * k]);
        assert(words[7 + 2 * k] == allowed(cfg.devices())[2 * k + 1]);
    }
    assert(words.len() == 6 + 2 * cfg.devices().len());
}

} // verus!
