use dwd::control::{stream_step, ControlKind, DwdService, StreamStep};
use dwd::engine::cfg::{BoxedGeneratorNew, DpdkConfig, ModeConfig, NativeLoadConfig};
use dwd::engine::http3::{
    alpn_h3, alpn_http11, classify, jobs_per_thread, CoroWorker, RequestsPerConn, StatusClass,
};
use dwd::engine::rate::{distribute, next_round, GeneratorEvent, Round};
use dwd::engine::runtime::{thread_name, LocalTaskPool, ThreadPool};
use dwd::engine::tls::{ServerName, Tls};
use dwd::engine::udp::{payload, Outcome, Worker};
use dwd::engine::{describe, http3, udp, EngineKind};
use dwd::figures::Duration;
use dwd::net::{align_bind, IpAddr, SocketAddr};
use dwd::produce::{OneProduce, VecProduce};
use dwd::snapshot::{EngineDescriptor, GroupNumbers, SnapshotSource, StatGroup};
use dwd::sockstat::TcpInfo;
use dwd::stat::{BurstTxWorkerStat, HttpWorkerStat, RxWorkerStat, SockWorkerStat, Stat, TxWorkerStat};

const NUMBERS: GroupNumbers = GroupNumbers {
    common: 1,
    tx: 2,
    rx: 3,
    http: 4,
    socket: 5,
    rx_timings: 6,
    burst_tx: 7,
};

fn service() -> DwdService {
    let descriptor = EngineDescriptor {
        engine_kind: "udp",
        groups: vec![StatGroup::Common],
    }
    .into_response(&NUMBERS);
    DwdService::new(descriptor)
}

#[test]
fn control_forwards_generator_events() {
    let mut service = service();

    let event = service.control(Some(ControlKind::SetRps(1234)));
    assert!(matches!(event, Some(GeneratorEvent::SetRps(1234))));

    let event = service.control(Some(ControlKind::Suspend));
    assert!(matches!(event, Some(GeneratorEvent::Suspend)));
    assert!(matches!(
        service.control(Some(ControlKind::Resume)),
        Some(GeneratorEvent::Resume)
    ));
    assert!(service.control(None).is_none());

    // Generator control never touches the run flag.
    assert!(service.is_running);
    assert_eq!(service.describe().engine_kind, "udp");
    assert_eq!(service.describe().groups, vec![1]);
}

#[test]
fn control_stop_flips_run_flag() {
    let mut service = service();

    // Stop is not a generator event: it acts on the run flag directly.
    assert!(service.control(Some(ControlKind::Stop)).is_none());
    assert!(!service.is_running);
}

#[test]
fn stream_ends_with_the_run_or_the_subscriber() {
    assert_eq!(stream_step(true, true), StreamStep::Push);
    assert_eq!(stream_step(false, true), StreamStep::End);
    assert_eq!(stream_step(true, false), StreamStep::End);
}

#[test]
fn engines_are_described() {
    let http = describe(EngineKind::Http).into_response(&NUMBERS);
    assert_eq!(http.engine_kind, "http");
    assert_eq!(http.groups, vec![1, 2, 3, 4, 5, 6]);
    let raw = describe(EngineKind::HttpRaw).into_response(&NUMBERS);
    assert_eq!(raw.engine_kind, "http/raw");
    assert_eq!(raw.groups, vec![1, 2, 3, 4, 5, 6]);
    let udp = describe(EngineKind::Udp).into_response(&NUMBERS);
    assert_eq!((udp.engine_kind.as_str(), udp.groups), ("udp", vec![1, 2, 5]));
    let dpdk = describe(EngineKind::Dpdk).into_response(&NUMBERS);
    assert_eq!((dpdk.engine_kind.as_str(), dpdk.groups), ("dpdk", vec![1, 2, 7]));
}

#[test]
fn rate_is_distributed_without_loss() {
    assert_eq!(distribute(10, 4), vec![3, 3, 2, 2]);
    assert_eq!(distribute(3, 4), vec![1, 1, 1, 0]);
    assert_eq!(distribute(u64::MAX, 1), vec![u64::MAX]);
    for v in [0u64, 1, 7, 1000, 12345] {
        for n in 1..9usize {
            let parts = distribute(v, n);
            assert_eq!(parts.iter().sum::<u64>(), v);
            assert!(parts.iter().max().unwrap() - parts.iter().min().unwrap() <= 1);
        }
    }
}

#[test]
fn rounds_of_the_rate_loop() {
    match next_round(Some(5), true, 2) {
        Round::Apply { limits, shown } => {
            assert_eq!(limits, vec![3, 2]);
            assert_eq!(shown, 5);
        }
        Round::Stop => panic!("the loop goes on"),
    }
    assert!(matches!(next_round(None, true, 2), Round::Stop));
    assert!(matches!(next_round(Some(5), false, 2), Round::Stop));
}

#[test]
fn producers_cycle() {
    let one = OneProduce::new(5);
    assert_eq!((one.next(), one.next()), (&5, &5));
    let mut cycle = VecProduce::new(vec!['a', 'b', 'c']);
    let seen: Vec<char> = (0..7).map(|_| *cycle.next()).collect();
    assert_eq!(seen, vec!['a', 'b', 'c', 'a', 'b', 'c', 'a']);
    assert_eq!(*cycle.pick(4), 'b');
    assert_eq!(cycle.len(), 3);
    let mut cycle = VecProduce::new(vec![0usize, 1, 2, 3]);
    for k in 0..40 {
        assert_eq!(*cycle.next(), k % 4);
    }
}

#[test]
fn pools_make_their_workers() {
    let pool = ThreadPool::new(3, |tid: usize| tid * 10);
    let made: Vec<usize> = (0..pool.num_threads()).map(|i| pool.worker(i)).collect();
    assert_eq!(made, vec![0, 10, 20]);
    let tasks = LocalTaskPool::new(2, |idx: usize| idx + 1);
    assert_eq!((tasks.num_tasks(), tasks.task(1)), (2, 2));
    assert_eq!(thread_name(), "dwd:w");
}

#[test]
fn generators_are_made_afresh() {
    let ok = BoxedGeneratorNew::new(|| -> Result<u64, String> { Ok(7) });
    assert_eq!(ok.create(), Ok(7));
    let failing = BoxedGeneratorNew::new(|| -> Result<u64, String> { Err("bad profile".to_string()) });
    assert_eq!(failing.create(), Err("bad profile".to_string()));
}

fn native(threads: usize, limit: Option<u64>, deviation: Option<u64>) -> NativeLoadConfig {
    let bind = SocketAddr::V4 { ip: 0, port: 0 };
    NativeLoadConfig::new(threads, limit, deviation, vec![bind])
}

#[test]
fn native_limits_have_defaults() {
    let open = native(1, None, None);
    assert_eq!(open.requests_per_socket(), u64::MAX);
    assert_eq!(open.requests_per_socket_deviation(), 0);
    let tight = native(1, Some(10), Some(3));
    assert_eq!(tight.requests_per_socket(), 10);
    assert_eq!(tight.requests_per_socket_deviation(), 3);
}

#[test]
fn jobs_are_dealt_to_threads() {
    assert_eq!(jobs_per_thread(10, 4), vec![3, 3, 2, 2]);
    let cfg = http3::Config::<u8> {
        addr: SocketAddr::V4 { ip: 1, port: 443 },
        server_name: "localhost".to_string(),
        concurrency: 5,
        native: native(2, None, None),
        timeout: Duration::from_secs(1),
        requests: vec![],
    };
    let engine = http3::Engine::new(cfg);
    assert_eq!(engine.limits(), &vec![3, 2]);
    let mut dealt = vec![0u64; 2];
    for job in 0..5 {
        dealt[job % 2] += 1;
    }
    assert_eq!(engine.jobs, dealt);
}

#[test]
fn modes_have_their_engines() {
    let udp: ModeConfig<u8, u8> = ModeConfig::Udp(udp::Config {
        addr: SocketAddr::V4 { ip: 1, port: 53 },
        native: native(1, None, None),
    });
    assert_eq!(udp.kind(), EngineKind::Udp);
    let inner = dwd::worker::dpdk::Config::new(dwd::dpdk::cpu::CoreId::new(0), vec![], "x.pcap".to_string());
    let dpdk: ModeConfig<u8, u8> = ModeConfig::Dpdk(DpdkConfig::new(inner));
    assert_eq!(dpdk.kind(), EngineKind::Dpdk);
    match dpdk {
        ModeConfig::Dpdk(cfg) => assert_eq!(cfg.into_inner().pcap_path(), "x.pcap"),
        _ => unreachable!(),
    }
}

#[test]
fn connections_serve_a_fixed_number_of_requests() {
    let mut w = CoroWorker::new(RequestsPerConn::with_deviation(3, 0));
    assert!(!w.take());
    assert!(w.on_response());
    assert!(w.take());
    assert!(w.on_response());
    assert!(w.take());
    assert!(!w.on_response());
    assert!(!w.take());
    assert_eq!(w.left, 3);
    let mut zero = CoroWorker::new(RequestsPerConn::fixed(0));
    assert!(!zero.on_response());
    assert_eq!(zero.after_response(4).left, 4);
}

#[test]
fn connections_vary_within_the_deviation() {
    let mut seen = std::collections::BTreeSet::new();
    let mut source = RequestsPerConn::uniform(10, 2);
    for _ in 0..500 {
        let n = source.next();
        assert!((8..=12).contains(&n), "{n}");
        seen.insert(n);
    }
    assert!(seen.len() > 1);
    assert_eq!(RequestsPerConn::uniform(1, 5), RequestsPerConn::Uniform { min: 0, max: 6 });
    assert_eq!(
        RequestsPerConn::uniform(u64::MAX, 1),
        RequestsPerConn::Uniform { min: u64::MAX - 1, max: u64::MAX }
    );
}

#[test]
fn statuses_are_classified() {
    assert_eq!(classify(200), StatusClass::Success);
    assert_eq!(classify(299), StatusClass::Success);
    assert_eq!(classify(300), StatusClass::Redirection);
    assert_eq!(classify(404), StatusClass::ClientError);
    assert_eq!(classify(599), StatusClass::ServerError);
    assert_eq!(classify(199), StatusClass::Unexpected);
    assert_eq!(classify(600), StatusClass::Unexpected);
}

#[test]
fn udp_sockets_are_renewed() {
    let mut w = Worker::new(2);
    assert!(w.needs_socket());
    assert_eq!(w.execute(true, true, 18), (true, Outcome::Sent { bytes: 18 }));
    assert!(!w.needs_socket());
    assert_eq!(w.execute(false, true, 18), (false, Outcome::Sent { bytes: 18 }));
    assert!(w.needs_socket());
    assert_eq!(w.execute(false, true, 18), (false, Outcome::SocketError));
    assert_eq!(w.execute(true, false, 18), (true, Outcome::SocketError));
    assert!(w.needs_socket());
    assert_eq!(payload(), "GET / HTTP/1.1\r\n\r\n");
}

#[test]
fn unspecified_addresses_follow_the_target() {
    let v4 = SocketAddr::V4 { ip: 0x7f00_0001, port: 443 };
    let v6 = SocketAddr::V6 { ip6: 1, port: 443, flowinfo: 0, scope_id: 0 };
    let any6 = SocketAddr::V6 { ip6: 0, port: 7, flowinfo: 9, scope_id: 9 };
    assert_eq!(align_bind(any6, v4), SocketAddr::V4 { ip: 0, port: 7 });
    assert_eq!(align_bind(any6, v6), any6);
    let any4 = SocketAddr::V4 { ip: 0, port: 7 };
    assert_eq!(align_bind(any4, v4), any4);
    assert_eq!(
        align_bind(any4, v6),
        SocketAddr::V6 { ip6: 0, port: 7, flowinfo: 0, scope_id: 0 }
    );
    assert_eq!(align_bind(v6, v4), v6);
}

#[test]
fn builds_with_hostname_sni() {
    let tls = Tls::new(Some("example.org"), IpAddr::V4(0x7f00_0001)).expect("valid TLS client");
    assert!(matches!(tls.server_name, ServerName::Name(n) if n == "example.org"));
    assert!(Tls::new(Some("no such name!"), IpAddr::V4(1)).is_err());
}

#[test]
fn builds_with_ip_fallback() {
    let tls = Tls::new(None, IpAddr::V4(0x7f00_0001)).expect("valid TLS client");
    assert!(matches!(tls.server_name, ServerName::Ip(IpAddr::V4(0x7f00_0001))));
}

#[test]
fn protocols_are_advertised() {
    assert_eq!(alpn_h3(), "h3");
    assert_eq!(alpn_http11(), "http/1.1");
}

#[test]
fn unknown_connections_report_zeros() {
    let info = TcpInfo::default();
    assert_eq!((info.tcpi_total_retrans, info.tcpi_rtt, info.tcpi_bytes_sent), (0, 0, 0));
}

#[test]
fn snapshots_hold_what_the_engine_keeps() {
    let udp = Stat {
        generator: 7,
        tx: TxWorkerStat { num_requests: 3, bytes_tx: 54 },
        rx: (),
        sock: SockWorkerStat {
            num_sock_created: 1,
            num_sock_errors: 2,
            num_retransmits: 0,
        },
        http: (),
        burst: (),
    };
    let s = udp.snapshot();
    assert_eq!(s.generator_rps, 7);
    assert_eq!(s.tx.unwrap().bytes_tx, 54);
    assert_eq!(s.socket.unwrap().num_sock_errors, 2);
    assert!(s.rx.is_none() && s.http.is_none() && s.burst_tx.is_none());

    let dpdk = Stat {
        generator: 1,
        tx: TxWorkerStat { num_requests: 9, bytes_tx: 9 },
        rx: (),
        sock: (),
        http: (),
        burst: BurstTxWorkerStat { bursts: vec![4; 32] },
    };
    let s = dpdk.snapshot();
    assert_eq!(s.burst_tx.unwrap().num_bursts_tx, vec![4; 32]);
    assert!(s.rx.is_none() && s.http.is_none() && s.socket.is_none());

    let http = Stat {
        generator: 2,
        tx: TxWorkerStat { num_requests: 9, bytes_tx: 9 },
        rx: RxWorkerStat {
            num_responses: 8,
            num_timeouts: 1,
            bytes_rx: 80,
            buckets: vec![8, 1],
        },
        sock: SockWorkerStat {
            num_sock_created: 1,
            num_sock_errors: 0,
            num_retransmits: 0,
        },
        http: HttpWorkerStat { num_2xx: 8, num_3xx: 0, num_4xx: 0, num_5xx: 0 },
        burst: (),
    };
    let s = http.snapshot();
    assert_eq!(s.rx.unwrap().histogram_buckets, vec![8, 1]);
    assert_eq!(s.http.unwrap().num_2xx, 8);
    assert!(s.burst_tx.is_none());
}
