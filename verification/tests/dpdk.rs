use dwd::dpdk::cpu::{CoreId, CoreMask};
use dwd::dpdk::eal::EalBuilder;
use dwd::dpdk::error;
use dwd::dpdk::ethdev::{eth_dev_iter, port_by_name, EthDevIterator, RTE_ETH_RSS_IP};
use dwd::worker::dpdk::{check_topology, init_eal, plan_workers, Config, Error, PortConfig};
use dwd::worker::lifecycle::Stage;
use dwd::worker::neighbours::{
    handle_message, neighbour_request, scan_datagram, Family, Neighbour, Payload, ScanEnd,
};
use dwd::worker::pcap::load_pcap;
use dwd::worker::ports::{MacAddr, PortAction, PortInit, PortReply};
use dwd::worker::tx::{burst_bytes, Burst, Sent, Worker};

fn cores(ids: &[u16]) -> Vec<CoreId> {
    ids.iter().map(|id| CoreId::new(*id)).collect()
}

fn config() -> Config {
    let a = PortConfig { cores: cores(&[1, 2]) };
    let b = PortConfig { cores: cores(&[3]) };
    Config::new(
        CoreId::new(0),
        vec![("01:00.0".to_string(), a), ("01:00.1".to_string(), b)],
        "x.pcap".to_string(),
    )
}

#[test]
fn masks_collect_cores() {
    let mut mask = CoreMask::default();
    assert_eq!(mask.as_u128(), 0);
    mask.add(CoreId::new(0));
    mask.add(CoreId::new(5));
    mask.add(CoreId::new(5));
    mask.add(CoreId::new(127));
    assert_eq!(mask.as_u128(), 1 | (1 << 5) | (1 << 127));
    assert_eq!(CoreId::default().as_u16(), 0);
}

#[test]
fn config_knows_its_cores() {
    let cfg = config();
    assert_eq!(cfg.cores(), cores(&[1, 2, 3]));
    assert_eq!(cfg.cores_count(), 3);
    assert_eq!(cfg.core_mask().as_u128(), 0b1111);
    assert_eq!(cfg.main_lcore(), CoreId::new(0));
    let twice = Config::new(
        CoreId::new(4),
        vec![("a".to_string(), PortConfig { cores: cores(&[1, 1, 2]) })],
        String::new(),
    );
    assert_eq!(twice.cores().len(), 3);
    assert_eq!(twice.cores_count(), 2);
    assert_eq!(twice.core_mask().as_u128(), 0b10110);
}

#[test]
fn eal_arguments() {
    let (args, capture) = init_eal(&config(), "dwd_core".to_string()).init();
    assert_eq!(
        args,
        vec![
            "dwd_core",
            "-c",
            "0xf",
            "--main-lcore=0",
            "--proc-type=primary",
            "--in-memory",
            "-a",
            "01:00.0,mprq_en=0,rxq_cqe_comp_en=0",
            "-a",
            "01:00.1,mprq_en=0,rxq_cqe_comp_en=0",
        ]
    );
    assert!(capture);
    let (args, capture) = EalBuilder::from_coremask("x".to_string(), CoreMask::default())
        .with_socket_mem(1024)
        .with_no_huge()
        .init();
    assert_eq!(args, vec!["x", "-c", "0x0", "--socket-mem=1024", "--no-huge"]);
    assert!(!capture);
}

#[test]
fn errors_are_rendered() {
    let e = error::Error::from(-22);
    assert_eq!(e.errno(), -22);
    assert_eq!(e.message("Invalid argument"), "[-22]: Invalid argument");
    assert_eq!(Error::Dpdk(e).message("Invalid argument"), "dpdk error: [-22]: Invalid argument");
    assert_eq!(
        Error::InvalidPortsCount(2, 1).message(""),
        "invalid ports count: configured 2, found 1"
    );
    assert_eq!(Error::Io(5).message(""), "i/o error");
    assert_eq!(Error::PcapLoad(2).message(""), "failed to load pcap file");
    assert_eq!(Error::PcapParse.message(""), "failed to parse pcap file");
    assert_eq!(Error::InvalidPciDevice.message(""), "invalid PCI device");
    assert_eq!(Error::InvalidCoresCount.message(""), "invalid cores count");
    assert_eq!(Error::OutOfMemory.message(""), "out of memory");
}

#[test]
fn topology_is_checked() {
    let cfg = config();
    assert_eq!(check_topology(&cfg, 2, 4), Ok(()));
    assert_eq!(check_topology(&cfg, 1, 4), Err(Error::InvalidPortsCount(2, 1)));
    assert_eq!(check_topology(&cfg, 2, 3), Err(Error::InvalidCoresCount));
}

#[test]
fn workers_are_planned() {
    let plan = plan_workers(&config());
    let names: Vec<&str> = plan.iter().map(|w| w.mempool.as_str()).collect();
    assert_eq!(names, vec!["mp::1", "mp::2", "mp::3"]);
    assert_eq!(plan[2].core, CoreId::new(3));
    assert_eq!(plan[2].stat, 2);
}

#[test]
fn ports_are_walked() {
    const MAX_PORTS: u64 = 40;
    let present = [1u64, 4, 32, 39];
    let find = |from: u16| {
        let next = present.iter().find(|p| **p >= from as u64);
        *next.unwrap_or(&MAX_PORTS)
    };
    let mut walk = eth_dev_iter();
    let mut seen = vec![];
    while let Some((from, owner)) = walk.query() {
        assert_eq!(owner, 0);
        match walk.next(find(from), MAX_PORTS) {
            Some(p) => seen.push(p),
            None => break,
        }
    }
    assert_eq!(seen, vec![1, 4, 32, 39]);
    assert!(walk.query().is_none());
    assert!(walk.next(1, MAX_PORTS).is_none());
    assert_eq!(EthDevIterator::default().query(), Some((0, 0)));
    assert_eq!(port_by_name(0, 3).unwrap(), 3);
    assert_eq!(port_by_name(-19, 3).unwrap_err().errno(), -19);
    assert_eq!(RTE_ETH_RSS_IP, 0x1238c);
}

fn answer(action: PortAction) -> PortReply {
    match action {
        PortAction::Lookup { device } => PortReply::Port { ec: 0, port_id: device as u16 + 10 },
        PortAction::Inspect { .. } => PortReply::Info { rc: 0, if_index: 3 },
        PortAction::ReadMac { .. } => PortReply::Mac { mac: MacAddr(1, 2, 3, 4, 5, 6) },
        PortAction::Neighbours { .. } => PortReply::Neighbours { found: Ok(vec![]) },
        _ => PortReply::Status { rc: 0 },
    }
}

#[test]
fn ports_are_set_up_in_order() {
    let cfg = config();
    let mut init = PortInit::new(&cfg);
    let mut actions = vec![];
    loop {
        let action = init.action(&cfg);
        if action == PortAction::Finish {
            break;
        }
        actions.push(action);
        init.on_reply(&cfg, answer(action)).expect("no failure");
    }
    assert_eq!(
        actions[..13].to_vec(),
        vec![
            PortAction::Lookup { device: 0 },
            PortAction::Inspect { port_id: 10 },
            PortAction::ReadMac { port_id: 10 },
            PortAction::Neighbours { if_index: 3 },
            PortAction::Configure { port_id: 10, rx_queues: 2, tx_queues: 4 },
            PortAction::SetupRx { port_id: 10, queue_id: 0, descriptors: 1024, core: CoreId::new(1) },
            PortAction::SetupRx { port_id: 10, queue_id: 1, descriptors: 1024, core: CoreId::new(2) },
            PortAction::SetupTx { port_id: 10, queue_id: 0, descriptors: 1024 },
            PortAction::SetupTx { port_id: 10, queue_id: 1, descriptors: 1024 },
            PortAction::SetupTx { port_id: 10, queue_id: 2, descriptors: 1024 },
            PortAction::SetupTx { port_id: 10, queue_id: 3, descriptors: 1024 },
            PortAction::SetMtu { port_id: 10, mtu: 9216 },
            PortAction::Lookup { device: 1 },
        ]
    );
    assert_eq!(init.ports, vec![(10, 0), (11, 1)]);
    assert_eq!(init.macs.len(), 2);
    assert_eq!(init.bindings.iter().map(|b| b.port_id).collect::<Vec<u16>>(), vec![10, 10, 11]);
    let bound: Vec<(u16, u16, u16)> = init
        .bindings
        .iter()
        .map(|b| (b.core.as_u16(), b.rx_queue_id, b.tx_queue_id))
        .collect();
    assert_eq!(bound, vec![(1, 0, 1), (2, 1, 2), (3, 0, 1)]);
    assert_eq!(init.bindings[0].src_mac, MacAddr(1, 2, 3, 4, 5, 6));
    assert_eq!(init.neighbour_mac, MacAddr::default());
}

#[test]
fn port_failures_stop_the_set_up() {
    let cfg = config();
    let mut init = PortInit::new(&cfg);
    let missing = init.on_reply(&cfg, PortReply::Port { ec: -19, port_id: 0 });
    assert_eq!(missing.unwrap_err(), Error::Dpdk(error::Error::new(-19)));
    init.on_reply(&cfg, PortReply::Port { ec: 0, port_id: 1 }).unwrap();
    let bad = init.on_reply(&cfg, PortReply::Info { rc: 1, if_index: 0 });
    assert_eq!(bad.unwrap_err(), Error::InvalidPciDevice);
    init.on_reply(&cfg, PortReply::Info { rc: 0, if_index: 9 }).unwrap();
    init.on_reply(&cfg, PortReply::Mac { mac: MacAddr(0, 0, 0, 0, 0, 1) }).unwrap();
    let failed = init.on_reply(&cfg, PortReply::Neighbours { found: Err(13) });
    assert_eq!(failed.unwrap_err(), Error::Io(13));
    let mac = MacAddr(9, 9, 9, 9, 9, 9);
    init.on_reply(&cfg, PortReply::Neighbours { found: Ok(vec![mac]) }).unwrap();
    assert_eq!(init.neighbour_mac, mac);
    let refused = init.on_reply(&cfg, PortReply::Status { rc: -1 });
    assert_eq!(refused.unwrap_err(), Error::Dpdk(error::Error::new(-1)));
    while !matches!(init.action(&cfg), PortAction::SetMtu { .. }) {
        init.on_reply(&cfg, PortReply::Status { rc: 0 }).unwrap();
    }
    // An MTU that cannot be set is tolerated.
    assert!(init.on_reply(&cfg, PortReply::Status { rc: -95 }).is_ok());
    assert_eq!(init.action(&cfg), PortAction::Lookup { device: 1 });
}

#[test]
fn engine_shuts_down_in_order() {
    let ports = 2;
    let mut stage = Stage::start(ports);
    let mut seen = vec![];
    let mut pending = 1u16;
    while stage != Stage::Finished {
        seen.push(stage);
        let reply = match stage {
            Stage::Inspect { port } => 2 - port as u16,
            Stage::Drain { .. } => std::mem::take(&mut pending),
            _ => 0,
        };
        stage = stage.advance(ports, reply);
    }
    assert_eq!(
        seen,
        vec![
            Stage::StartPort { port: 0 },
            Stage::StartPort { port: 1 },
            Stage::Launch,
            Stage::Join,
            Stage::Inspect { port: 0 },
            Stage::Drain { port: 0, queue: 0, queues: 2 },
            Stage::Drain { port: 0, queue: 0, queues: 2 },
            Stage::Drain { port: 0, queue: 1, queues: 2 },
            Stage::Inspect { port: 1 },
            Stage::Drain { port: 1, queue: 0, queues: 1 },
            Stage::ResetRefcnt,
            Stage::StopPort { port: 0 },
            Stage::StopPort { port: 1 },
            Stage::Settle,
            Stage::ClearWorkers,
            Stage::Cleanup,
        ]
    );
    assert_eq!(Stage::start(0), Stage::Launch);
}

#[test]
fn bursts_stay_within_the_ring() {
    let mut w = Worker { mbufs_count: 40, packets_count_tx: 0 };
    assert!(w.refresh_due());
    assert_eq!(w.next_burst(0), None);
    assert_eq!(w.next_burst(100), Some(Burst { start: 0, count: 32 }));
    let sent = w.on_sent(32, 2048, 100);
    assert_eq!(sent, Some(Sent { requests: 32, burst: 32, bytes: 2048, consumed: 100 }));
    assert!(!w.refresh_due());
    assert_eq!(w.next_burst(100), Some(Burst { start: 32, count: 8 }));
    assert_eq!(w.next_burst(5), Some(Burst { start: 32, count: 5 }));
    assert_eq!(w.on_sent(0, 0, 100), None);
    assert_eq!(w.packets_count_tx, 32);
    w.on_sent(8, 1, 8);
    assert_eq!(w.next_burst(1), Some(Burst { start: 0, count: 1 }));
    let late = Worker { mbufs_count: 40, packets_count_tx: 40 * 16384 };
    assert!(late.refresh_due());
    assert_eq!(burst_bytes(&[60, 1500, u32::MAX]), 1560 + u32::MAX as u64);
}

fn capture(packets: &[Vec<u8>]) -> Vec<u8> {
    let mut out = vec![0xd4, 0xc3, 0xb2, 0xa1, 2, 0, 4, 0];
    out.extend_from_slice(&[0; 8]);
    out.extend_from_slice(&65535u32.to_le_bytes());
    out.extend_from_slice(&1u32.to_le_bytes());
    for p in packets {
        out.extend_from_slice(&[0; 8]);
        out.extend_from_slice(&(p.len() as u32).to_le_bytes());
        out.extend_from_slice(&(p.len() as u32).to_le_bytes());
        out.extend_from_slice(p);
    }
    out
}

#[test]
fn packets_are_dealt_to_cores() {
    let packets: Vec<Vec<u8>> = (0..5u8).map(|i| vec![i; 20 + i as usize]).collect();
    let loads = load_pcap(&config(), &capture(&packets)).unwrap().loads;
    let got: Vec<u16> = loads.iter().map(|l| l.core.as_u16()).collect();
    assert_eq!(got, vec![1, 2, 3, 1, 2]);
    for (load, packet) in loads.iter().zip(&packets) {
        assert_eq!(&load.data, packet);
    }
}

#[test]
fn unusable_captures() {
    let cfg = config();
    assert_eq!(load_pcap(&cfg, b"no capture").unwrap_err(), Error::PcapParse);
    // The packets in front of one that cannot be handled are still there.
    let loaded = |cfg: &Config, lens: &[usize]| {
        let packets: Vec<Vec<u8>> = lens.iter().map(|n| vec![0; *n]).collect();
        load_pcap(cfg, &capture(&packets)).map(|a| (a.loads.len(), a.complete))
    };
    assert_eq!(loaded(&cfg, &[13]), Ok((0, false)));
    assert_eq!(loaded(&cfg, &[14]), Ok((1, true)));
    assert_eq!(loaded(&cfg, &[20, 30, 13, 40]), Ok((2, false)));
    let idle = Config::new(CoreId::new(0), vec![], String::new());
    assert_eq!(loaded(&idle, &[14]), Ok((0, false)));
    assert_eq!(loaded(&idle, &[]), Ok((0, true)));
    // A packet that is too long is out of memory, and the first packet that cannot be loaded decides.
    assert_eq!(loaded(&cfg, &[65_535]), Ok((1, true)));
    assert_eq!(loaded(&cfg, &[65_536]), Err(Error::OutOfMemory));
    assert_eq!(loaded(&cfg, &[14, 70_000, 13]), Err(Error::OutOfMemory));
    assert_eq!(loaded(&cfg, &[14, 13, 70_000]), Ok((1, false)));
    assert_eq!(loaded(&idle, &[70_000]), Ok((0, false)));
}

fn message(kind: u16, body: &[u8]) -> Vec<u8> {
    let mut out = ((16 + body.len()) as u32).to_ne_bytes().to_vec();
    out.extend_from_slice(&kind.to_ne_bytes());
    out.extend_from_slice(&[0; 10]);
    out.extend_from_slice(body);
    out
}

fn neighbour(family: u8, if_index: u32, state: u16, mac: &[u8]) -> Vec<u8> {
    let mut body = vec![family, 0, 0, 0];
    body.extend_from_slice(&if_index.to_ne_bytes());
    body.extend_from_slice(&state.to_ne_bytes());
    body.extend_from_slice(&[0, 1]);
    body.extend_from_slice(&((4 + mac.len()) as u16).to_ne_bytes());
    body.extend_from_slice(&2u16.to_ne_bytes());
    body.extend_from_slice(mac);
    while body.len() % 4 != 0 {
        body.push(0);
    }
    message(28, &body)
}

#[test]
fn neighbours_are_collected() {
    let mut datagram = neighbour(2, 7, 2, &[1, 2, 3, 4, 5, 6]);
    datagram.extend(neighbour(2, 8, 2, &[0xff; 6]));
    datagram.extend(neighbour(2, 7, 4, &[0xfe; 6]));
    datagram.extend(neighbour(10, 7, 2, &[6, 5, 4, 3, 2, 1]));
    datagram.extend(neighbour(7, 7, 2, &[0xfd; 6]));
    datagram.extend(neighbour(2, 7, 2, &[0xfc; 8]));
    let size = datagram.len();
    datagram.resize(4096, 0);
    let mut out = vec![];
    assert_eq!(scan_datagram(&datagram, size, 7, &mut out), ScanEnd::More);
    assert_eq!(out, vec![MacAddr(1, 2, 3, 4, 5, 6), MacAddr(6, 5, 4, 3, 2, 1)]);

    let done = message(3, &0i32.to_ne_bytes());
    assert_eq!(scan_datagram(&done, done.len(), 7, &mut out), ScanEnd::Finished);
    let failed = message(2, &(-13i32).to_ne_bytes());
    assert_eq!(scan_datagram(&failed, failed.len(), 7, &mut out), ScanEnd::Failed(-13));
    assert_eq!(scan_datagram(&[1, 2, 3], 3, 7, &mut out), ScanEnd::Malformed);
    assert_eq!(out.len(), 2);
}

/// Messages that are neither control nor neighbour messages are stepped over, whatever they hold.
#[test]
fn other_messages_are_stepped_over() {
    // An address with a cache attribute that is too short.
    let mut body = vec![2, 0, 0, 0, 0, 0, 0, 0];
    body.extend_from_slice(&4u16.to_ne_bytes());
    body.extend_from_slice(&6u16.to_ne_bytes());
    let mut datagram = message(20, &body);
    datagram.extend(neighbour(2, 7, 2, &[1, 2, 3, 4, 5, 6]));
    datagram.extend(message(0x7fff, &[]));
    let mut out = vec![];
    assert_eq!(scan_datagram(&datagram, datagram.len(), 7, &mut out), ScanEnd::More);
    assert_eq!(out, vec![MacAddr(1, 2, 3, 4, 5, 6)]);
    // A length that does not cover the header, or reaches past the end.
    let mut short = message(20, &[]);
    short[..4].copy_from_slice(&15u32.to_ne_bytes());
    assert_eq!(scan_datagram(&short, short.len(), 7, &mut out), ScanEnd::Malformed);
    short[..4].copy_from_slice(&17u32.to_ne_bytes());
    assert_eq!(scan_datagram(&short, short.len(), 7, &mut out), ScanEnd::Malformed);
    assert_eq!(out.len(), 1);
}

#[test]
fn neighbour_messages_are_filtered() {
    let entry = Neighbour {
        family: Family::Inet6,
        state: 2,
        if_index: 1,
        link_addrs: vec![None, Some(vec![1; 6]), Some(vec![2; 5]), Some(vec![3; 6])],
    };
    let mut out = vec![];
    assert_eq!(handle_message(&Payload::NewNeighbour(entry.clone()), 1, &mut out), None);
    assert_eq!(out, vec![MacAddr(1, 1, 1, 1, 1, 1), MacAddr(3, 3, 3, 3, 3, 3)]);
    assert_eq!(handle_message(&Payload::NewNeighbour(entry), 2, &mut out), None);
    assert_eq!(handle_message(&Payload::Other, 1, &mut out), None);
    assert_eq!(handle_message(&Payload::Done, 1, &mut out), Some(ScanEnd::Finished));
    assert_eq!(handle_message(&Payload::Failed(-1), 1, &mut out), Some(ScanEnd::Failed(-1)));
    assert_eq!(out.len(), 2);
}

#[test]
fn neighbour_request_asks_for_reachable_entries() {
    let request = neighbour_request(0x0102_0304);
    assert_eq!(request.len(), 28);
    assert_eq!(request[0..4], 28u32.to_ne_bytes());
    assert_eq!(request[4..6], 30u16.to_ne_bytes());
    assert_eq!(request[6..8], 0x301u16.to_ne_bytes());
    assert_eq!(request[20..24], 0x0102_0304u32.to_ne_bytes());
    assert_eq!(request[24..26], 2u16.to_ne_bytes());
    assert_eq!(request[8..20], [0; 12]);
    assert_eq!(request[26..28], [0; 2]);
}
