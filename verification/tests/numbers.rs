use dwd::engine::coro::{next_step, CoroStep, ShapedCoroWorker};
use dwd::float::Binary64;
use dwd::histogram::{LogHistogram, PerCpuLogHistogram};
use dwd::shaper::Shaper;
use dwd::text::{push_decimal, push_fixed_width, push_hexadecimal, push_signed_decimal};
use dwd::totals::sum;

const FACTOR: f64 = 1.5;

/// Reciprocal of `ln(FACTOR)`.
const INV_LN_FACTOR: f64 = 2.4663034623764317;

fn value(b: Binary64) -> f64 {
    b.mant as f64 * 2f64.powi(b.exp)
}

/// The constant must equal the reciprocal of the logarithm of the histogram's factor to the last bit.
#[test]
fn inv_ln_factor_matches_factor() {
    assert_eq!(value(LogHistogram::factor()), FACTOR);
    assert_eq!(INV_LN_FACTOR, 1.0 / value(LogHistogram::factor()).ln());
}

/// Reference bucket index using logarithms.
fn ref_idx(us: u64, len: usize) -> usize {
    let idx = (us as f64).log(FACTOR) as usize;
    idx.min(len - 1)
}

fn recorded(hist: &mut PerCpuLogHistogram, us: u64) -> usize {
    let before = hist.buckets().clone();
    hist.record(us);
    let after = hist.buckets();
    let moved: Vec<usize> = (0..after.len()).filter(|i| after[*i] != before[*i]).collect();
    assert_eq!(moved.len(), 1);
    assert_eq!(after[moved[0]], before[moved[0]] + 1);
    moved[0]
}

/// The index must equal the reference index for every input: dense low sweep, every bucket boundary
/// +/- a few microseconds, zero, the largest recordable value, and extreme `u64` values.
#[test]
fn record_index_is_identical() {
    let mut hist = PerCpuLogHistogram::default();
    let len = hist.buckets().len();

    for us in 0u64..1_000_000 {
        let idx = ref_idx(us, len);
        let before = hist.buckets()[idx];
        hist.record(us);
        assert_eq!(hist.buckets()[idx], before + 1, "dense us={us}");
    }

    let mut curr = 1.0_f64;
    for _ in 0..len + 5 {
        for d in [-2i64, -1, 0, 1, 2] {
            let us = (curr as i64 + d).max(0) as u64;
            assert_eq!(recorded(&mut hist, us), ref_idx(us, len), "boundary us={us}");
        }
        curr *= FACTOR;
    }

    for us in [
        0,
        1,
        60_000_000, // ~max bucket boundary (60s)
        90_000_000,
        1u64 << 40,
        1u64 << 63,
        u64::MAX - 1,
        u64::MAX,
    ] {
        assert_eq!(recorded(&mut hist, us), ref_idx(us, len), "edge us={us}");
    }
}

#[test]
fn record_lands_in_reference_bucket() {
    let mut hist = PerCpuLogHistogram::default();
    let len = hist.buckets().len();
    let samples = [0u64, 1, 10, 100, 1_000, 5_000, 50_000, 500_000, 5_000_000];
    for &us in &samples {
        hist.record(us);
    }
    let mut expected = vec![0u64; len];
    for &us in &samples {
        expected[ref_idx(us, len)] += 1;
    }
    for (i, b) in hist.buckets().iter().enumerate() {
        assert_eq!(*b, expected[i], "bucket {i}");
    }
}

#[test]
fn histogram_has_a_bucket_per_power_up_to_a_minute() {
    assert_eq!(PerCpuLogHistogram::default().buckets().len(), 45);
}

#[test]
fn quantiles_of_a_histogram() {
    let hist = LogHistogram::new(vec![2, 1, 9, 4, 3, 0, 1]);
    let p = hist.quantile(Binary64::ratio(1, 2)).unwrap();
    assert_eq!((p.idx, p.below, p.count, p.size), (2, 3, 9, 20));
    assert_eq!(hist.quantile(Binary64::ratio(1, 1)).unwrap().idx, 6);
    assert_eq!(hist.quantile(Binary64::ratio(0, 1)).unwrap().idx, 0);
    assert_eq!(hist.snapshot(), &vec![2, 1, 9, 4, 3, 0, 1]);
    assert!(LogHistogram::new(vec![]).quantile(Binary64::ratio(1, 2)).is_none());
}

#[test]
fn arithmetic_is_that_of_the_machine() {
    let mut x: u64 = 0x2545_f491_4f6c_dd1d;
    for _ in 0..5000 {
        x ^= x << 13;
        x ^= x >> 7;
        x ^= x << 17;
        let a = x >> (x % 61);
        let b = (x.rotate_left(33) >> (x % 53)).max(1);
        let (fa, fb) = (Binary64::from_u64(a), Binary64::from_u64(b));
        assert_eq!(value(fa), a as f64);
        assert_eq!(value(Binary64::ratio(a, b)), {
            // Both sides round once only when the operands are exact.
            if a < (1 << 53) && b < (1 << 53) {
                a as f64 / b as f64
            } else {
                value(Binary64::ratio(a, b))
            }
        });
        assert_eq!(value(fa.times(fb)), a as f64 * b as f64);
        assert_eq!(value(fa.over(fb)), a as f64 / b as f64);
        assert_eq!(value(fa.plus(fb)), a as f64 + b as f64);
        assert_eq!(fa.lt(fb), (a as f64) < (b as f64));
        assert_eq!(value(fa.min(fb)), (a as f64).min(b as f64));
        if a >= b {
            assert_eq!(value(fa.minus(fb)), a as f64 - b as f64);
        }
        let q = fa.over(fb);
        assert_eq!(q.round_to_u64(), (a as f64 / b as f64).round() as u64);
        assert_eq!(q.trunc_to_u64(), (a as f64 / b as f64) as u64);
        for places in 1..4u32 {
            let mut out = String::new();
            q.push_fixed(&mut out, places);
            assert_eq!(out, format!("{:.*}", places as usize, a as f64 / b as f64));
        }
    }
}

#[test]
fn ties_are_rounded_as_the_machine_does() {
    for (a, b) in [(1u64, 8u64), (3, 8), (5, 8), (25, 2), (35, 2), (1, 2), (5, 2), (1, 16)] {
        let q = Binary64::ratio(a, b);
        let f = a as f64 / b as f64;
        let mut out = String::new();
        q.push_fixed(&mut out, 2);
        assert_eq!(out, format!("{f:.2}"));
        let mut out = String::new();
        q.push_fixed(&mut out, 1);
        assert_eq!(out, format!("{f:.1}"));
        assert_eq!(q.round_to_u64(), f.round() as u64);
    }
}

#[test]
fn integers_as_text() {
    let mut out = String::new();
    push_decimal(&mut out, 0);
    out.push(' ');
    push_decimal(&mut out, u128::MAX);
    out.push(' ');
    push_hexadecimal(&mut out, 0xdead_beef);
    out.push(' ');
    push_fixed_width(&mut out, 7, 3);
    out.push(' ');
    push_signed_decimal(&mut out, -42);
    out.push(' ');
    push_signed_decimal(&mut out, i64::MIN);
    assert_eq!(out, format!("0 {} deadbeef 007 -42 {}", u128::MAX, i64::MIN));
}

#[test]
fn sums_of_counters() {
    assert_eq!(sum(&[]), 0);
    assert_eq!(sum(&[1, 2, 3]), 6);
    assert_eq!(sum(&[u64::MAX]), u64::MAX);
}

const SEC: u64 = 1_000_000_000;

#[test]
fn shaper_fills_at_the_limit() {
    let mut s = Shaper::new(0, 0);
    assert_eq!(s.tick(SEC / 2, 1000), 500);
    s.consume(500);
    assert_eq!(s.tick(SEC / 2, 1000), 0);
    assert_eq!(s.tick(SEC, 1000), 500);
    // Tokens are capped at those of one second.
    assert_eq!(s.tick(100 * SEC, 1000), 1000);
    // Without a limit nothing is left.
    assert_eq!(s.tick(101 * SEC, 0), 0);
}

#[test]
fn shaper_waits_for_a_burst() {
    let mut s = Shaper::new(32, 0);
    assert_eq!(s.tick(SEC / 100, 1000), 0);
    assert_eq!(s.tick(SEC / 100 * 3, 1000), 0);
    let n = s.tick(SEC / 100 * 4, 1000);
    assert!((39..=40).contains(&n), "{n}");
}

/// The shaper keeps the same count as one on machine arithmetic.
#[test]
fn shaper_matches_machine_arithmetic() {
    let mut s = Shaper::new(0, 0);
    let (mut tokens, mut prev) = (0.0f64, 0u64);
    let mut x: u64 = 88172645463325252;
    for _ in 0..5000 {
        x ^= x << 13;
        x ^= x >> 7;
        x ^= x << 17;
        let now = prev + x % 3_000_000;
        let limit = (x >> 20) % 2_000_000;
        tokens += limit as f64 * std::time::Duration::from_nanos(now - prev).as_secs_f64();
        prev = now;
        tokens = tokens.min(limit as f64);
        let n = s.tick(now, limit);
        assert_eq!(n, tokens as u64);
        let used = n.min(32);
        s.consume(used);
        tokens -= used as f64;
        assert_eq!(value(s.tokens), tokens);
    }
}

/// Tokens that are missing are made up for first.
#[test]
fn shaper_runs_a_debt() {
    let mut s = Shaper::new(0, 0);
    s.consume(0);
    assert!(!s.owed);
    s.consume(3);
    assert!(s.owed);
    assert_eq!(value(s.tokens), 3.0);
    assert_eq!(s.tick(SEC, 2), 0);
    assert!(s.owed);
    s.consume(1);
    assert_eq!(value(s.tokens), 2.0);
    assert_eq!(s.tick(2 * SEC, 2), 0);
    assert!(!s.owed);
    assert_eq!(s.tick(3 * SEC, 2), 2);

    let mut s = Shaper::new(0, 0);
    let (mut tokens, mut prev) = (0.0f64, 0u64);
    let mut x: u64 = 88172645463325252;
    let mut debts = 0;
    for i in 0..5000 {
        x ^= x << 13;
        x ^= x >> 7;
        x ^= x << 17;
        let now = prev + x % 3_000_000;
        let limit = (x >> 20) % 2_000_000;
        tokens += limit as f64 * std::time::Duration::from_nanos(now - prev).as_secs_f64();
        prev = now;
        tokens = tokens.min(limit as f64);
        assert_eq!(s.tick(now, limit), tokens as u64);
        let used = if i % 50 == 0 { x >> 50 } else { x % 2000 };
        s.consume(used);
        tokens -= used as f64;
        debts += u32::from(s.owed);
        assert_eq!(if s.owed { -value(s.tokens) } else { value(s.tokens) }, tokens);
    }
    assert!(debts > 100, "{debts}");

    let mut s = Shaper::new(0, 0);
    let mut tokens = 0.0f64;
    for _ in 0..100 {
        s.consume(u64::MAX);
        tokens -= u64::MAX as f64;
    }
    assert_eq!(-value(s.tokens), tokens);
}

#[test]
fn batches_are_bounded() {
    assert_eq!(next_step(0), CoroStep::Wait);
    assert_eq!(next_step(7), CoroStep::Execute(7));
    assert_eq!(next_step(1000), CoroStep::Execute(32));
    let mut w = ShapedCoroWorker::new("task", Shaper::new(0, 0));
    assert_eq!(w.step(SEC, 40), CoroStep::Execute(32));
    w.executed(32);
    assert_eq!(w.step(SEC, 40), CoroStep::Execute(8));
    w.executed(8);
    assert_eq!(w.step(SEC, 40), CoroStep::Wait);
    assert_eq!(w.task, "task");
}

/// No more tokens are handed out than the limit allows, and none without time.
#[test]
fn shaper_keeps_to_the_limit() {
    for (burst, limit) in [(0u64, 1_000_003u64), (32, 77_777), (5, 3)] {
        let mut s = Shaper::new(burst, 0);
        let (mut now, mut total) = (0u64, 0u128);
        let mut x: u64 = 88172645463325252;
        for _ in 0..5000 {
            x ^= x << 13;
            x ^= x >> 7;
            x ^= x << 17;
            now += x % 3_000_000;
            let n = s.tick(now, limit);
            s.consume(n);
            total += u128::from(n);
            assert!(total * u128::from(SEC) <= u128::from(limit) * u128::from(now));
            assert_eq!(s.tick(now, limit), 0);
        }
        assert!(total > 10);
    }
}

#[test]
fn histogram_counts_every_record() {
    let mut hist = PerCpuLogHistogram::default();
    for us in 0..1000u64 {
        hist.record(us * us);
    }
    assert_eq!(hist.buckets().iter().sum::<u64>(), 1000);
    assert_eq!(hist.buckets()[0], 2);
}
