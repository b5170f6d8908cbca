//! HTTP/3 (QUIC) load engine: jobs, connections and responses.

use rand::Rng;
use vstd::prelude::*;

use crate::engine::cfg::NativeLoadConfig;
use crate::engine::rate;
use crate::figures::Duration;
use crate::net::SocketAddr;

verus! {

/// HTTP/3 (QUIC) engine config.
#[derive(Debug)]
pub struct Config<T> {
    /// Target endpoint.
    pub addr: SocketAddr,
    /// TLS server name (SNI) presented during the QUIC handshake.
    pub server_name: String,
    /// Number of parallel jobs, at least one.
    pub concurrency: usize,
    /// Native workload settings.
    pub native: NativeLoadConfig,
    /// Request timeout.
    pub timeout: Duration,
    /// Requests to send.
    pub requests: Vec<T>,
}

/// The load of an engine, spread over threads.
#[derive(Debug)]
pub struct Engine<T> {
    pub cfg: Config<T>,
    /// Number of jobs of each thread.
    pub jobs: Vec<u64>,
}

impl<T> Engine<T> {
    /// Deals the jobs of the config out to its threads in turn.
    pub fn new(cfg: Config<T>) -> (r: Self)
        requires
            cfg.native.threads > 0,
        ensures
            r.cfg == cfg,
            r.jobs@ == rate::shares(cfg.concurrency as nat, cfg.native.threads as nat),
    {
        let jobs: Vec<u64> = jobs_per_thread(cfg.concurrency, cfg.native.threads);
        Engine { cfg, jobs }
    }

    /// Returns the number of jobs of each thread; every job has a limit of its own.
    pub fn limits(&self) -> (r: &Vec<u64>)
        ensures
            r == self.jobs,
    {
        &self.jobs
    }
}

/// Returns the ALPN protocol identifier for HTTP/3.
pub fn alpn_h3() -> (r: &'static str)
    ensures
        r@ == "h3"@,
{
    "h3"
}

/// Returns the ALPN protocol identifier for HTTP/1.1.
pub fn alpn_http11() -> (r: &'static str)
    ensures
        r@ == "http/1.1"@,
{
    "http/1.1"
}

/// Deals jobs out to threads in turn; returns the number of jobs of each thread.
pub fn jobs_per_thread(num_jobs: usize, threads: usize) -> (r: Vec<u64>)
    requires
        threads > 0,
    ensures
        r@ == rate::shares(num_jobs as nat, threads as nat),
{
    rate::distribute(num_jobs as u64, threads)
}

/// The number of the first `k` jobs that go to thread `t` of `n` when jobs are dealt out in turn.
pub open spec fn dealt_to(k: nat, n: nat, t: int) -> nat
    decreases k,
{
    if k == 0 {
        0
    } else {
        dealt_to((k - 1) as nat, n, t) + (if (k - 1) as int % n as int == t {
            1nat
        } else {
            0nat
        })
    }
}

/// Dealing jobs out one by one, job `k` to thread `k % n`, gives each thread its share.
pub proof fn lemma_dealt_in_turn(k: nat, n: nat, t: int)
    requires
        0 <= t < n,
    ensures
        dealt_to(k, n, t) == rate::share(k, n, t),
    decreases k,
{
    if k > 0 {
        let j = (k - 1) as nat;
        lemma_dealt_in_turn(j, n, t);
        vstd::arithmetic::div_mod::lemma_fundamental_div_mod(j as int, n as int);
        let (q, r) = (j as int / n as int, j as int % n as int);
        if r + 1 < n {
            vstd::arithmetic::div_mod::lemma_fundamental_div_mod_converse(k as int, n as int, q, r + 1);
        } else {
            assert(k as int == (q + 1) * n as int + 0) by (nonlinear_arith)
                requires
                    k == j + 1,
                    j == n * q + r,
                    r + 1 == n,
            ;
            vstd::arithmetic::div_mod::lemma_fundamental_div_mod_converse(k as int, n as int, q + 1, 0);
        }
    } else {
        vstd::arithmetic::div_mod::lemma_small_mod(0, n);
        vstd::arithmetic::div_mod::lemma_basic_div(0, n as int);
    }
}

/// How many requests a connection is used for.
#[derive(Debug, Clone, Copy, PartialEq, Eq, Structural)]
pub enum RequestsPerConn {
    Fixed(u64),
    /// A number between the bounds, both included.
    Uniform { min: u64, max: u64 },
}

/// Draws a number with `rand::Rng::random_range` from the thread's generator.
///
/// Claims only that the number lies between the bounds, both included; which one it is is left to
/// chance.
#[verifier::external_body]
fn random_between(min: u64, max: u64) -> (r: u64)
    requires
        min <= max,
    ensures
        min <= r <= max,
{
    rand::rng().random_range(min..=max)
}

impl RequestsPerConn {
    /// There is a number to draw.
    pub open spec fn wf(self) -> bool {
        self matches RequestsPerConn::Uniform { min, max } ==> min <= max
    }

    /// Whether a number may be drawn.
    pub open spec fn allows(self, n: u64) -> bool {
        match self {
            RequestsPerConn::Fixed(v) => n == v,
            RequestsPerConn::Uniform { min, max } => min <= n <= max,
        }
    }

    /// Always the given number.
    pub fn fixed(requests_per_conn: u64) -> (r: Self)
        ensures
            r == RequestsPerConn::Fixed(requests_per_conn),
            r.wf(),
    {
        RequestsPerConn::Fixed(requests_per_conn)
    }

    /// A number that deviates from the given one by at most `deviation`.
    pub fn uniform(requests_per_conn: u64, deviation: u64) -> (r: Self)
        ensures
            r.wf(),
            r == (RequestsPerConn::Uniform {
                min: (if requests_per_conn >= deviation {
                    requests_per_conn - deviation
                } else {
                    0
                }) as u64,
                max: (if requests_per_conn + deviation <= u64::MAX {
                    requests_per_conn + deviation
                } else {
                    u64::MAX as int
                }) as u64,
            }),
            forall|n: u64|
                r.allows(n) <==> requests_per_conn - deviation <= n <= requests_per_conn + deviation,
    {
        let min: u64 = if requests_per_conn >= deviation {
            requests_per_conn - deviation
        } else {
            0
        };
        let max: u64 = if requests_per_conn <= u64::MAX - deviation {
            requests_per_conn + deviation
        } else {
            u64::MAX
        };
        RequestsPerConn::Uniform { min, max }
    }

    /// A fixed number without deviation, a random one otherwise.
    pub fn with_deviation(requests_per_conn: u64, deviation: u64) -> (r: Self)
        ensures
            r.wf(),
            r == around(requests_per_conn, deviation),
            deviation == 0 ==> r == RequestsPerConn::Fixed(requests_per_conn),
            deviation > 0 ==> r is Uniform,
            forall|n: u64|
                r.allows(n) <==> requests_per_conn - deviation <= n <= requests_per_conn + deviation,
    {
        if deviation > 0 {
            RequestsPerConn::uniform(requests_per_conn, deviation)
        } else {
            RequestsPerConn::fixed(requests_per_conn)
        }
    }

    /// Draws the number of requests of the next connection.
    pub fn next(&mut self) -> (r: u64)
        requires
            old(self).wf(),
        ensures
            *final(self) == *old(self),
            old(self).allows(r),
    {
        match self {
            RequestsPerConn::Fixed(v) => *v,
            RequestsPerConn::Uniform { min, max } => random_between(*min, *max),
        }
    }
}

/// The class of a response status.
#[derive(Debug, Clone, Copy, PartialEq, Eq, Structural)]
pub enum StatusClass {
    Success,
    Redirection,
    ClientError,
    ServerError,
    /// Not counted in any class.
    Unexpected,
}

/// Classifies a response status.
pub fn classify(code: u16) -> (r: StatusClass)
    ensures
        r == (if code as int / 100 == 2 {
            StatusClass::Success
        } else if code as int / 100 == 3 {
            StatusClass::Redirection
        } else if code as int / 100 == 4 {
            StatusClass::ClientError
        } else if code as int / 100 == 5 {
            StatusClass::ServerError
        } else {
            StatusClass::Unexpected
        }),
        r == class_of(code as int),
        r == StatusClass::Success <==> 200 <= code <= 299,
        r == StatusClass::Redirection <==> 300 <= code <= 399,
        r == StatusClass::ClientError <==> 400 <= code <= 499,
        r == StatusClass::ServerError <==> 500 <= code <= 599,
{
    if 200 <= code && code < 300 {
        StatusClass::Success
    } else if 300 <= code && code < 400 {
        StatusClass::Redirection
    } else if 400 <= code && code < 500 {
        StatusClass::ClientError
    } else if 500 <= code && code < 600 {
        StatusClass::ServerError
    } else {
        StatusClass::Unexpected
    }
}

/// The use that a worker makes of its connection.
#[derive(Debug, Clone, Copy, PartialEq, Eq, Structural)]
pub struct CoroWorker {
    /// The number of requests left for the currently active connection.
    pub left: u64,
    /// Source of the number of requests per connection.
    pub source: RequestsPerConn,
    /// Whether there is a live connection.
    pub connected: bool,
}

impl CoroWorker {
    /// The state after a response, given the number of requests drawn for the next connection: the
    /// connection is kept while requests are left for it.
    pub open spec fn answered(self, drawn: u64) -> Self {
        let left = if self.left > 0 {
            (self.left - 1) as u64
        } else {
            0
        };
        if left > 0 {
            CoroWorker { left, connected: true, ..self }
        } else {
            CoroWorker { left: drawn, connected: false, ..self }
        }
    }

    /// Starts without a connection.
    pub fn new(source: RequestsPerConn) -> (r: Self)
        requires
            source.wf(),
        ensures
            r.source == source,
            source.allows(r.left),
            !r.connected,
    {
        let mut source: RequestsPerConn = source;
        let left: u64 = source.next();
        CoroWorker { left, source, connected: false }
    }

    /// Takes the connection for a request; returns whether there was one, or else a new one is to be
    /// made.
    ///
    /// A request that fails or times out loses the connection.
    pub fn take(&mut self) -> (r: bool)
        ensures
            r == old(self).connected,
            *final(self) == old(self).taken(),
            !final(self).connected,
            final(self).left == old(self).left,
            final(self).source == old(self).source,
    {
        let had: bool = self.connected;
        self.connected = false;
        had
    }

    /// Decides with a drawn number what follows a response.
    pub fn after_response(self, drawn: u64) -> (r: Self)
        ensures
            r == self.answered(drawn),
    {
        let left: u64 = if self.left > 0 {
            self.left - 1
        } else {
            0
        };
        if left > 0 {
            CoroWorker { left, source: self.source, connected: true }
        } else {
            CoroWorker { left: drawn, source: self.source, connected: false }
        }
    }

    /// Accounts for a response; returns whether the connection is kept.
    ///
    /// A number for the next connection is drawn only when this one is given up.
    pub fn on_response(&mut self) -> (r: bool)
        requires
            old(self).source.wf(),
        ensures
            r == (old(self).left > 1),
            r == final(self).connected,
            exists|drawn: u64| old(self).source.allows(drawn) && *final(self) == old(self).answered(drawn),
    {
        if self.left > 1 {
            let drawn: u64 = match self.source {
                RequestsPerConn::Fixed(v) => v,
                RequestsPerConn::Uniform { min, .. } => min,
            };
            *self = self.after_response(drawn);
            assert(old(self).source.allows(drawn) && *self == old(self).answered(drawn));
            true
        } else {
            let drawn: u64 = self.source.next();
            *self = self.after_response(drawn);
            assert(old(self).source.allows(drawn) && *self == old(self).answered(drawn));
            false
        }
    }
}

/// The state after a number of responses in a row, with the same number drawn each time.
pub open spec fn after_responses(w: CoroWorker, n: nat, drawn: u64) -> CoroWorker
    decreases n,
{
    if n == 0 {
        w
    } else {
        after_responses(w, (n - 1) as nat, drawn).answered(drawn)
    }
}

/// A connection made with `left` requests left, or one if that is zero, is kept for all responses but the
/// last of them, and is given up with the last.
pub proof fn lemma_connection_lifetime(w: CoroWorker, n: nat, drawn: u64)
    requires
        0 < n,
        n <= w.left || n == 1,
    ensures
        n < w.left ==> after_responses(w, n, drawn).connected && after_responses(w, n, drawn).left == w.left - n,
        n >= w.left ==> !after_responses(w, n, drawn).connected && after_responses(w, n, drawn).left == drawn,
    decreases n,
{
    if n > 1 {
        lemma_connection_lifetime(w, (n - 1) as nat, drawn);
    } else {
        assert(after_responses(w, 0, drawn) == w);
    }
}

/// A fixed number is always the one drawn; a random one lies between its bounds.
pub proof fn lemma_what_is_drawn(v: u64, min: u64, max: u64, n: u64)
    ensures
        RequestsPerConn::Fixed(v).allows(n) <==> n == v,
        (RequestsPerConn::Uniform { min, max }).allows(n) <==> min <= n && n <= max,
{
}

/// The class of a response status.
pub open spec fn class_of(code: int) -> StatusClass {
    if code / 100 == 2 {
        StatusClass::Success
    } else if code / 100 == 3 {
        StatusClass::Redirection
    } else if code / 100 == 4 {
        StatusClass::ClientError
    } else if code / 100 == 5 {
        StatusClass::ServerError
    } else {
        StatusClass::Unexpected
    }
}

/// The classes are those of the hundreds from 200 up to 599, and no other status has a class.
pub proof fn lemma_classes_are_hundreds(code: int)
    requires
        code >= 0,
    ensures
        class_of(code) == StatusClass::Success <==> 200 <= code < 300,
        class_of(code) == StatusClass::Redirection <==> 300 <= code < 400,
        class_of(code) == StatusClass::ClientError <==> 400 <= code < 500,
        class_of(code) == StatusClass::ServerError <==> 500 <= code < 600,
        class_of(code) == StatusClass::Unexpected <==> code < 200 || code >= 600,
{
}

/// The numbers around a given one.
pub open spec fn around(requests_per_conn: u64, deviation: u64) -> RequestsPerConn {
    if deviation == 0 {
        RequestsPerConn::Fixed(requests_per_conn)
    } else {
        RequestsPerConn::Uniform {
            min: (if requests_per_conn >= deviation {
                requests_per_conn - deviation
            } else {
                0
            }) as u64,
            max: (if requests_per_conn + deviation <= u64::MAX {
                requests_per_conn + deviation
            } else {
                u64::MAX as int
            }) as u64,
        }
    }
}

/// What may be drawn is off the given number by no more than the deviation, and any such number may be drawn.
pub proof fn lemma_deviation_bounds(requests_per_conn: u64, deviation: u64, n: u64)
    ensures
        around(requests_per_conn, deviation).wf(),
        around(requests_per_conn, deviation).allows(n) <==> requests_per_conn <= n + deviation && n
            <= requests_per_conn + deviation,
{
}

/// Once its number is drawn, a connection serves that many requests, and at least one, before it is given up; a worker
/// that loses its connection starts the next one with the requests that were left.
pub proof fn lemma_answer_uses_up_one(w: CoroWorker, drawn: u64)
    ensures
        w.answered(drawn).source == w.source,
        w.answered(drawn).connected <==> w.left >= 2,
        w.left >= 2 ==> w.answered(drawn).left + 1 == w.left,
        w.left < 2 ==> w.answered(drawn).left == drawn,
{
}

impl CoroWorker {
    /// The state while a request is under way: it has the connection, and gives it back only with a response.
    pub open spec fn taken(self) -> Self {
        CoroWorker { connected: false, ..self }
    }
}

/// A request that gets no response loses the connection but uses up none of the requests left for one; a request that
/// gets one before the last leaves the connection connected again with one request less.
pub proof fn lemma_lost_connection_costs_nothing(w: CoroWorker, drawn: u64)
    ensures
        !w.taken().connected,
        w.taken().left == w.left,
        w.taken().source == w.source,
        w.left >= 2 ==> w.taken().answered(drawn).connected && w.taken().answered(drawn).left == w.left - 1,
{
}

} // verus!
