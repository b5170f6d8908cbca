//! Sampling of the achieved rate during a run.
//!
//! Moments are nanoseconds since an arbitrary start of the clock.

use vstd::prelude::*;

use crate::accuracy::{lemma_near_integer, lemma_near_quotient, near};
use crate::figures::{Duration, NANOS_PER_SEC};
use crate::float::Binary64;
use crate::snapshot::StatsSnapshot;
use crate::summary::RunSummary;
use crate::{figures, float, rates};

verus! {

/// How often the achieved rate is sampled, in nanoseconds.
pub const SAMPLE_INTERVAL: u64 = NANOS_PER_SEC;

/// How often the end of the run is polled for between samples, in nanoseconds.
pub const SHUTDOWN_POLL_INTERVAL: u64 = 50000000;

/// The number of requests a snapshot shows.
pub open spec fn requests_of(s: StatsSnapshot) -> nat {
    match s.tx {
        Some(tx) => tx.num_requests as nat,
        None => 0,
    }
}

/// `a - b`, zero when negative.
pub open spec fn excess(a: nat, b: nat) -> nat {
    if a >= b {
        (a - b) as nat
    } else {
        0
    }
}

/// The span of the given number of nanoseconds.
pub open spec fn span(nanos: nat) -> Duration {
    Duration { secs: (nanos / NANOS_PER_SEC as nat) as u64, nanos: (nanos % NANOS_PER_SEC as nat) as u32 }
}

/// The rate of `requests` over `nanos` nanoseconds.
pub open spec fn rate(requests: nat, nanos: nat) -> Binary64 {
    float::quotient(figures::integer(requests), span(nanos).seconds())
}

/// A rate times the interval is the number of requests: over `nanos` nanoseconds, however many, it is off by no
/// more than a few parts in `2^52`.
pub proof fn lemma_rate_times_interval(requests: nat, nanos: nat)
    requires
        requests <= u64::MAX,
        0 < nanos <= u64::MAX,
    ensures
        near(rate(requests, nanos), (requests * 1000000000) as int, nanos as int, 11),
{
    let d = span(nanos);
    vstd::arithmetic::div_mod::lemma_fundamental_div_mod(nanos as int, 1000000000);
    assert(d.secs * 1000000000 + d.nanos == nanos);
    figures::lemma_divisor_is_length(d);
    figures::lemma_seconds_of_nanos(d);
    figures::lemma_seconds_range(d);
    lemma_near_integer(requests);
    lemma_near_quotient(
        figures::integer(requests),
        d.seconds(),
        requests as int,
        1,
        1,
        nanos as int,
        1000000000,
        7,
    );
}

/// The requests of an interval are what the counter grew by; a counter that went back counts as no requests.
pub proof fn lemma_interval_requests(s: StatsSnapshot, before: nat)
    ensures
        s.tx matches Some(tx) ==> {
            &&& tx.num_requests >= before ==> before + excess(requests_of(s), before) == tx.num_requests
            &&& tx.num_requests < before ==> excess(requests_of(s), before) == 0
        },
        s.tx is None ==> excess(requests_of(s), before) == 0,
{
}

/// A span has as many nanoseconds as it was made of, with less than a second of them beside its whole seconds.
pub proof fn lemma_span_is_whole(nanos: nat)
    requires
        nanos <= u64::MAX,
    ensures
        span(nanos).wf(),
        span(nanos).secs * 1000000000 + span(nanos).nanos == nanos,
{
    vstd::arithmetic::div_mod::lemma_fundamental_div_mod(nanos as int, 1000000000);
}

/// Folds periodic snapshots of an engine's cumulative counters into rates.
#[derive(Debug)]
pub struct Sampler {
    pub started: u64,
    pub stopped: u64,
    pub prev_at: u64,
    pub next_at: u64,
    pub prev_requests: u64,
    /// Achieved rate per sampling interval, requests (packets) per second.
    pub rates: Vec<Binary64>,
    /// Target rate as reported by the generator at each sample.
    pub targets: Vec<u64>,
}

impl Sampler {
    /// Every rate is a number that the report can fold.
    pub open spec fn wf(&self) -> bool {
        rates::samples_wf(self.rates@)
    }

    /// Starts sampling.
    pub fn new(now: u64) -> (r: Self)
        requires
            now + SAMPLE_INTERVAL <= u64::MAX,
        ensures
            r.wf(),
            r.started == now,
            r.stopped == now,
            r.prev_at == now,
            r.next_at == now + SAMPLE_INTERVAL,
            r.prev_requests == 0,
            r.rates@.len() == 0,
            r.targets@.len() == 0,
    {
        Sampler {
            started: now,
            stopped: now,
            prev_at: now,
            next_at: now + SAMPLE_INTERVAL,
            prev_requests: 0,
            rates: Vec::new(),
            targets: Vec::new(),
        }
    }

    /// Whether the next sample is due.
    pub fn is_due(&self, now: u64) -> (r: bool)
        ensures
            r == (now >= self.next_at),
            r == due(self.next_at, now),
    {
        now >= self.next_at
    }

    /// Takes a sample and schedules the next one.
    ///
    /// The rate covers the time since the previous sample; no rate is taken of an empty interval.
    pub fn sample(&mut self, now: u64, snapshot: &StatsSnapshot)
        requires
            old(self).wf(),
            now + SAMPLE_INTERVAL <= u64::MAX,
        ensures
            final(self).wf(),
            final(self).started == old(self).started,
            final(self).stopped == old(self).stopped,
            final(self).prev_at == now,
            final(self).next_at == now + SAMPLE_INTERVAL,
            final(self).prev_requests == requests_of(*snapshot),
            final(self).targets@ == old(self).targets@.push(snapshot.generator_rps),
            final(self).rates@ == (if now > old(self).prev_at {
                old(self).rates@.push(
                    rate(
                        excess(requests_of(*snapshot), old(self).prev_requests as nat),
                        (now - old(self).prev_at) as nat,
                    ),
                )
            } else {
                old(self).rates@
            }),
            now > old(self).prev_at && requests_of(*snapshot) >= old(self).prev_requests ==> near(
                final(self).rates@.last(),
                (requests_of(*snapshot) - old(self).prev_requests) * 1000000000,
                now - old(self).prev_at,
                11,
            ),
            now > old(self).prev_at && requests_of(*snapshot) < old(self).prev_requests ==> near(
                final(self).rates@.last(),
                0,
                now - old(self).prev_at,
                11,
            ),
            final(self).next_at - final(self).prev_at == 1000000000,
            snapshot.tx matches Some(tx) ==> final(self).prev_requests == tx.num_requests,
    {
        let requests: u64 = match &snapshot.tx {
            Some(tx) => tx.num_requests,
            None => 0,
        };
        if now > self.prev_at {
            let elapsed: Duration = Duration::from_nanos(now - self.prev_at);
            let done: u64 = if requests >= self.prev_requests {
                requests - self.prev_requests
            } else {
                0
            };
            proof {
                let n = (now - self.prev_at) as nat;
                assert(elapsed == span(n)) by (nonlinear_arith)
                    requires
                        elapsed.secs * NANOS_PER_SEC + elapsed.nanos == n,
                        elapsed.nanos < NANOS_PER_SEC,
                        n <= u64::MAX,
                        NANOS_PER_SEC == 1000000000,
                ;
            }
            proof {
                lemma_rate_times_interval(done as nat, (now - self.prev_at) as nat);
            }
            self.rates.push(Binary64::from_u64(done).over(elapsed.to_secs()));
        }
        self.targets.push(snapshot.generator_rps);
        self.prev_at = now;
        self.next_at = now + SAMPLE_INTERVAL;
        self.prev_requests = requests;
    }

    /// Freezes the load window.
    pub fn stop(&mut self, now: u64)
        requires
            old(self).wf(),
        ensures
            final(self).wf(),
            final(self).stopped == now,
            final(self).started == old(self).started,
            final(self).prev_at == old(self).prev_at,
            final(self).next_at == old(self).next_at,
            final(self).prev_requests == old(self).prev_requests,
            final(self).rates == old(self).rates,
            final(self).targets == old(self).targets,
    {
        self.stopped = now;
    }
}

/// Samples the engine's counters for the end-of-run summary.
#[derive(Debug)]
pub struct Recorder {
    pub engine_kind: &'static str,
    pub sampler: Sampler,
}

impl Recorder {
    /// Starts recording; call right before the engine starts.
    pub fn spawn(engine_kind: &'static str, now: u64) -> (r: Self)
        requires
            now + SAMPLE_INTERVAL <= u64::MAX,
        ensures
            r.engine_kind == engine_kind,
            r.sampler.wf(),
            r.sampler.started == now,
            r.sampler.stopped == now,
            r.sampler.prev_at == now,
            r.sampler.prev_requests == 0,
            r.sampler.next_at == now + SAMPLE_INTERVAL,
            r.sampler.rates@.len() == 0,
            r.sampler.targets@.len() == 0,
    {
        Recorder { engine_kind, sampler: Sampler::new(now) }
    }

    /// Folds the samples and a final snapshot into a summary. Call after the engine has stopped.
    pub fn finish(self, snapshot: StatsSnapshot) -> (r: RunSummary)
        requires
            self.sampler.wf(),
        ensures
            r.engine_kind == self.engine_kind,
            r.duration.wf(),
            r.duration.secs * NANOS_PER_SEC + r.duration.nanos == excess(self.sampler.stopped as nat, self.sampler.started as nat),
            r.rates == self.sampler.rates,
            rates::samples_wf(r.rates@),
            self.sampler.started <= self.sampler.stopped ==> r.duration.secs * 1000000000 + r.duration.nanos
                == self.sampler.stopped - self.sampler.started,
            r.targets == self.sampler.targets,
            r.snapshot == snapshot,
    {
        let nanos: u64 = if self.sampler.stopped >= self.sampler.started {
            self.sampler.stopped - self.sampler.started
        } else {
            0
        };
        RunSummary {
            engine_kind: self.engine_kind,
            duration: Duration::from_nanos(nanos),
            rates: self.sampler.rates,
            targets: self.sampler.targets,
            snapshot,
        }
    }
}

/// Whether a sample is due.
pub open spec fn due(next_at: u64, now: u64) -> bool {
    next_at <= now
}

/// A sample is due from its moment on, and never before it.
pub proof fn lemma_due_from_its_moment(next_at: u64, now: u64, later: u64)
    ensures
        due(next_at, next_at),
        now < next_at ==> !due(next_at, now),
        due(next_at, now) && now <= later ==> due(next_at, later),
{
}

} // verus!
