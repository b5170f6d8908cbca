use dwd::figures::{fmt_bitrate, fmt_bytes, fmt_duration, fmt_us, pct, Duration};
use dwd::float::Binary64;
use dwd::rates::{burst_stats, distribution, mean};
use dwd::sampler::{Recorder, Sampler};
use dwd::snapshot::{BurstTxStats, HttpStats, RxStats, SocketStats, StatsSnapshot, TxStats};
use dwd::summary::{Latencies, Level, RunSummary};

fn value(b: Binary64) -> f64 {
    b.mant as f64 * 2f64.powi(b.exp)
}

fn num(v: u64) -> Binary64 {
    Binary64::from_u64(v)
}

/// A summary over the given snapshot with a 10s load window and flat
/// 1000-RPS target.
fn summary(snapshot: StatsSnapshot) -> RunSummary {
    RunSummary {
        engine_kind: "http",
        duration: Duration::from_secs(10),
        rates: vec![num(1000); 10],
        targets: vec![1000; 10],
        snapshot,
    }
}

/// A snapshot of a clean 10k-requests run matching the `summary` fixture.
fn clean_snapshot() -> StatsSnapshot {
    StatsSnapshot {
        generator_rps: 1000,
        tx: Some(TxStats {
            num_requests: 10_000,
            bytes_tx: 1_000_000,
        }),
        rx: Some(RxStats {
            num_responses: 10_000,
            num_timeouts: 0,
            bytes_rx: 2_000_000,
            histogram_buckets: vec![0; 40],
        }),
        socket: Some(SocketStats {
            num_sock_created: 8,
            num_sock_errors: 0,
            num_retransmits: 0,
        }),
        http: Some(HttpStats {
            num_2xx: 10_000,
            num_3xx: 0,
            num_4xx: 0,
            num_5xx: 0,
        }),
        burst_tx: None,
    }
}

fn latencies() -> Latencies {
    Latencies {
        p50: 999,
        p90: 1_500,
        p95: 20_000,
        p99: 2_000_000,
        p999: 3_000_000,
        max: u64::MAX,
    }
}

#[test]
fn clean_run_has_no_issues() {
    assert!(summary(clean_snapshot()).issues().is_empty());
}

#[test]
fn issues_detect_anomalies() {
    let mut snapshot = clean_snapshot();
    {
        let rx = snapshot.rx.as_mut().unwrap();
        rx.num_timeouts = 100;
        rx.num_responses = 9_000; // 900 unanswered on top of the timeouts.
    }
    {
        let http = snapshot.http.as_mut().unwrap();
        http.num_2xx = 8_800;
        http.num_4xx = 50;
        http.num_5xx = 150;
    }
    {
        let sock = snapshot.socket.as_mut().unwrap();
        sock.num_sock_errors = 3;
        sock.num_retransmits = 7;
    }

    let issues = summary(snapshot).issues();
    // Timeouts, unanswered, 5xx, 4xx, socket errors and retransmits.
    assert_eq!(issues.len(), 6);
    assert_eq!(issues[0], "100 timeouts (1.000% of requests)");
    assert_eq!(
        issues[1],
        "900 requests got no response (9.00%, stuck target or lost responses)"
    );
    assert_eq!(issues[2], "150 HTTP 5xx responses");
    assert_eq!(issues[3], "50 HTTP 4xx responses");
    assert_eq!(issues[4], "3 socket errors");
    assert_eq!(issues[5], "7 TCP retransmits (network or target under pressure)");
}

#[test]
fn unanswered_below_threshold_is_tolerated() {
    let mut snapshot = clean_snapshot();
    // 50 of 10k (0.5%) in flight at shutdown: normal, not an anomaly.
    snapshot.rx.as_mut().unwrap().num_responses = 9_950;

    assert!(summary(snapshot).issues().is_empty());
}

#[test]
fn unanswered_at_the_threshold_is_tolerated() {
    let mut snapshot = clean_snapshot();
    snapshot.rx.as_mut().unwrap().num_responses = 9_900;
    assert!(summary(snapshot.clone()).issues().is_empty());
    snapshot.rx.as_mut().unwrap().num_responses = 9_899;
    assert_eq!(summary(snapshot).issues().len(), 1);
}

#[test]
fn underachieved_target_is_flagged() {
    let mut snapshot = clean_snapshot();
    // 5k requests in 10s against a 1000-RPS target: 50% achieved.
    snapshot.tx.as_mut().unwrap().num_requests = 5_000;
    snapshot.rx.as_mut().unwrap().num_responses = 5_000;

    let issues = summary(snapshot).issues();
    assert_eq!(issues.len(), 1);
    assert!(issues[0].contains("underachieved"), "{}", issues[0]);
    assert_eq!(issues[0], "target underachieved: avg 500 of 1000 rps (50.0%)");
}

#[test]
fn target_at_the_threshold_is_achieved() {
    let mut snapshot = clean_snapshot();
    snapshot.tx.as_mut().unwrap().num_requests = 9_500;
    snapshot.rx.as_mut().unwrap().num_responses = 9_500;
    assert!(summary(snapshot).issues().is_empty());
}

#[test]
fn distribution_median_odd_and_even() {
    assert_eq!(distribution(&[num(3), num(1), num(2)]), Some((2, 1, 3)));
    assert_eq!(distribution(&[num(4), num(1), num(2), num(3)]), Some((3, 1, 4))); // 2.5 rounds up.
    assert_eq!(distribution(&[]), None);
}

#[test]
fn median_lies_between_the_extremes() {
    let mut x: u64 = 0x1234_5678_9abc_def1;
    for n in 1..40usize {
        let mut samples = vec![];
        for _ in 0..n {
            x ^= x << 13;
            x ^= x >> 7;
            x ^= x << 17;
            samples.push(Binary64::ratio(x >> (x % 60), (x >> 33).max(1)));
        }
        let (median, min, max) = distribution(&samples).unwrap();
        assert!(min <= median && median <= max);
        let mut sorted: Vec<f64> = samples.iter().map(|s| value(*s)).collect();
        sorted.sort_by(f64::total_cmp);
        assert_eq!(min, sorted[0].round() as u64);
        assert_eq!(max, sorted[n - 1].round() as u64);
        let mid = match n % 2 {
            1 => sorted[n / 2],
            _ => (sorted[n / 2 - 1] + sorted[n / 2]) / 2.0,
        };
        assert_eq!(median, mid.round() as u64);
    }
}

#[test]
fn mean_of_samples() {
    assert_eq!(mean(&[1, 2, 3]), Some(2));
    assert_eq!(mean(&[]), None);
}

#[test]
fn burst_stats_math() {
    // 10 bursts of size 1, 10 of size 32 (full).
    let mut counts = vec![0; 32];
    counts[0] = 10;
    counts[31] = 10;

    let (total, avg, full) = burst_stats(&counts).unwrap();
    assert_eq!(total, 20);
    assert!((value(avg) - 16.5).abs() < 1e-9);
    assert!((value(full) - 50.0).abs() < 1e-9);

    assert!(burst_stats(&[0; 32]).is_none());
}

#[test]
fn pct_handles_zero_denominator() {
    assert_eq!(value(pct(1, 0)), 0.0);
    assert_eq!(value(pct(1, 4)), 25.0);
}

#[test]
fn formatting() {
    assert_eq!(fmt_bytes(512), "512 B");
    assert_eq!(fmt_bytes(2048), "2.00 KiB");
    assert_eq!(fmt_bytes(5 * 1024 * 1024 * 1024), "5.00 GiB");

    assert_eq!(fmt_bitrate(1_000_000, num(8)), "1.0 Mbit/s");

    assert_eq!(fmt_us(999), "999us");
    assert_eq!(fmt_us(1_500), "1.50ms");
    assert_eq!(fmt_us(2_000_000), "2.00s");
    assert_eq!(fmt_us(u64::MAX), "n/a");

    assert_eq!(fmt_duration(Duration::from_nanos(59_940_000_000)), "59.9s");
    assert_eq!(fmt_duration(Duration::from_secs(61)), "1m01s");
    assert_eq!(fmt_duration(Duration::from_secs(3723)), "1h02m03s");
}

#[test]
fn formatting_of_large_amounts() {
    assert_eq!(fmt_bytes(u64::MAX), "16384.00 PiB");
    assert_eq!(fmt_bytes(1023), "1023 B");
    assert_eq!(fmt_bytes(1536 * 1024), "1.50 MiB");
    assert_eq!(fmt_bitrate(0, num(1)), "0.0 bit/s");
    assert_eq!(fmt_bitrate(u64::MAX, num(1)), "147573952.6 Tbit/s");
    assert_eq!(fmt_us(0), "0us");
    assert_eq!(fmt_us(999_999), "1000.00ms");
}

/// The figures are those of the machine's own arithmetic.
#[test]
fn formatting_matches_machine_arithmetic() {
    let mut x: u64 = 0x9e37_79b9_7f4a_7c15;
    for _ in 0..3000 {
        x ^= x << 13;
        x ^= x >> 7;
        x ^= x << 17;
        let v = x >> (x % 60);
        let w = (x.rotate_left(21) >> (x % 50)).max(1);
        assert_eq!(value(pct(v, w)), 100.0 * v as f64 / w as f64);
        if v >= 1_000 && v < 1_000_000 {
            assert_eq!(fmt_us(v), format!("{:.2}ms", v as f64 / 1e3));
        }
        if v >= 1_000_000 {
            assert_eq!(fmt_us(v), format!("{:.2}s", v as f64 / 1e6));
        }
        let d = Duration::from_nanos(v);
        let std = std::time::Duration::from_nanos(v);
        assert_eq!(value(d.to_secs()), std.as_secs_f64());
        if std.as_secs_f64() < 60.0 {
            assert_eq!(fmt_duration(d), format!("{:.1}s", std.as_secs_f64()));
        }
    }
}

#[test]
fn report_of_a_clean_run() {
    let lines = summary(clean_snapshot()).log(&latencies());
    let texts: Vec<&str> = lines.iter().map(|l| l.text.as_str()).collect();
    let (last, figures) = texts.split_last().unwrap();
    assert_eq!(last.split_once(": "), Some(("verdict", "OK (no anomalies detected)")));
    assert_eq!(
        figures.to_vec(),
        vec![
            "shooting finished: engine=http, duration=10.0s",
            "requests: total=10000, avg=1000 rps, median=1000 rps, min=1000 rps, max=1000 rps",
            "tx: bytes=976.56 KiB (800.0 Kbit/s)",
            "target: avg=1000 rps, achieved=100.0%",
            "rx: responses=10000 (100.00% of requests), timeouts=0, unanswered=0, bytes=1.91 MiB (1.6 Mbit/s)",
            "http: 2xx=10000 (100.00%), 3xx=0, 4xx=0, 5xx=0",
            "sockets: created=8, errors=0, retransmits=0",
        ]
    );
    assert!(lines.iter().all(|l| l.level == Level::Info));
}

#[test]
fn report_of_a_run_with_anomalies() {
    let mut snapshot = clean_snapshot();
    snapshot.rx.as_mut().unwrap().histogram_buckets[3] = 1;
    snapshot.http.as_mut().unwrap().num_5xx = 2;
    snapshot.socket.as_mut().unwrap().num_sock_errors = 1;
    let lines = summary(snapshot).log(&latencies());
    let n = lines.len();
    assert_eq!(
        lines[5].text,
        "latency: p50=999us, p90=1.50ms, p95=20.00ms, p99=2.00s, p99.9=3.00s, max=n/a"
    );
    assert_eq!(lines[n - 3].text, "anomaly: 2 HTTP 5xx responses");
    assert_eq!(lines[n - 2].text, "anomaly: 1 socket errors");
    assert_eq!(
        lines[n - 1].text.split_once(": "),
        Some(("verdict", "2 anomaly kind(s) detected"))
    );
    assert!(lines[n - 3..].iter().all(|l| l.level == Level::Warn));
    assert!(lines[..n - 3].iter().all(|l| l.level == Level::Info));
}

#[test]
fn report_of_a_dpdk_run() {
    let mut counts = vec![0; 32];
    counts[0] = 10;
    counts[31] = 10;
    let run = RunSummary {
        engine_kind: "dpdk",
        duration: Duration::from_secs(2),
        rates: vec![],
        targets: vec![],
        snapshot: StatsSnapshot {
            generator_rps: 0,
            tx: Some(TxStats {
                num_requests: 330,
                bytes_tx: 100,
            }),
            rx: None,
            socket: None,
            http: None,
            burst_tx: Some(BurstTxStats { num_bursts_tx: counts }),
        },
    };
    assert_eq!(run.wording(), ("packets", "pps"));
    assert_eq!(run.requests(), 330);
    assert!(run.latency_points().is_none());
    let texts: Vec<String> = run.log(&latencies()).into_iter().map(|l| l.text).collect();
    assert_eq!(texts[4].split_once(": "), Some(("verdict", "OK (no anomalies detected)")));
    assert_eq!(
        texts[..4].to_vec(),
        vec![
            "shooting finished: engine=dpdk, duration=2.0s",
            "packets: total=330, avg=165 pps",
            "tx: bytes=100 B (400.0 bit/s)",
            "bursts: total=20, avg-size=16.5, full=50.0%",
        ]
    );
}

#[test]
fn latency_points_are_located() {
    let mut snapshot = clean_snapshot();
    let buckets = &mut snapshot.rx.as_mut().unwrap().histogram_buckets;
    buckets[3] = 50;
    buckets[5] = 40;
    buckets[9] = 10;
    let p = summary(snapshot).latency_points().unwrap();
    assert_eq!((p.p50.idx, p.p50.below, p.p50.count, p.p50.size), (3, 0, 50, 100));
    assert_eq!((p.p90.idx, p.p90.below, p.p90.count), (5, 50, 40));
    assert_eq!((p.p95.idx, p.p99.idx, p.p999.idx, p.max.idx), (9, 9, 9, 9));
    assert!(p.p50.idx <= p.p90.idx && p.p90.idx <= p.p95.idx);
    assert!(summary(clean_snapshot()).latency_points().is_none());
}

fn sent(n: u64, rps: u64) -> StatsSnapshot {
    StatsSnapshot {
        generator_rps: rps,
        tx: Some(TxStats {
            num_requests: n,
            bytes_tx: 0,
        }),
        rx: None,
        socket: None,
        http: None,
        burst_tx: None,
    }
}

#[test]
fn samples_become_rates() {
    const SEC: u64 = 1_000_000_000;
    let mut s = Sampler::new(5 * SEC);
    assert!(!s.is_due(6 * SEC - 1));
    assert!(s.is_due(6 * SEC));
    s.sample(6 * SEC, &sent(1000, 900));
    s.sample(8 * SEC, &sent(1500, 950));
    // Counters never run backwards, and an empty interval has no rate.
    s.sample(8 * SEC, &sent(1400, 960));
    s.sample(9 * SEC, &StatsSnapshot::default());
    let rates: Vec<f64> = s.rates.iter().map(|r| value(*r)).collect();
    assert_eq!(rates, vec![1000.0, 250.0, 0.0]);
    assert_eq!(s.targets, vec![900, 950, 960, 0]);
    assert!(!s.is_due(10 * SEC - 1));
}

#[test]
fn recorder_freezes_the_load_window() {
    const SEC: u64 = 1_000_000_000;
    let mut r = Recorder::spawn("udp", SEC);
    r.sampler.sample(2 * SEC, &sent(10, 10));
    r.sampler.stop(3 * SEC + 500_000_000);
    let run = r.finish(sent(25, 10));
    assert_eq!(run.duration, Duration { secs: 2, nanos: 500_000_000 });
    assert_eq!(run.engine_kind, "udp");
    assert_eq!(run.targets, vec![10]);
    assert_eq!(run.requests(), 25);
}

/// Samples at the ends of the range are taken too.
#[test]
fn distribution_takes_all_finite_samples() {
    let largest = Binary64 { mant: (1 << 53) - 1, exp: 971 };
    let smallest = Binary64 { mant: 1 << 52, exp: -1126 };
    assert_eq!(value(Binary64 { mant: largest.mant, exp: 971 }), f64::MAX);
    assert_eq!(distribution(&[largest, largest]), Some((u64::MAX, u64::MAX, u64::MAX)));
    assert_eq!(distribution(&[largest, smallest, num(0)]), Some((0, 0, u64::MAX)));
    assert_eq!(distribution(&[smallest, num(3)]), Some((2, 0, 3)));
    let mut samples = vec![num(9), num(4), smallest, num(7)];
    let ordered = distribution(&samples);
    samples.reverse();
    assert_eq!(distribution(&samples), ordered);
}
