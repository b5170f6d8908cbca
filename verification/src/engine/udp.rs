//! UDP load engine: use of sockets.

use vstd::prelude::*;

use crate::engine::cfg::NativeLoadConfig;
use crate::net::SocketAddr;

verus! {

/// UDP engine config.
#[derive(Debug)]
pub struct Config {
    /// Target endpoint.
    pub addr: SocketAddr,
    /// Native workload settings.
    pub native: NativeLoadConfig,
}

/// The request that the engine sends.
pub fn payload() -> (r: &'static str)
    ensures
        r@ == "GET / HTTP/1.1\r\n\r\n"@,
{
    "GET / HTTP/1.1\r\n\r\n"
}

/// How long a worker without tokens sleeps, in microseconds.
pub const WAIT_US: u64 = 1;

/// A worker, as far as the use of its socket goes.
#[derive(Debug, Clone, Copy, PartialEq, Eq, Structural)]
pub struct Worker {
    /// The number of requests after which the socket will be recreated.
    pub requests_per_sock: u64,
    /// Number of requests done for the currently active socket.
    pub requests_per_sock_done: u64,
    /// Whether there is an active socket.
    pub has_sock: bool,
}

/// What a request adds to the statistics.
#[derive(Debug, Clone, Copy, PartialEq, Eq, Structural)]
pub enum Outcome {
    /// A request of the given size was sent.
    Sent { bytes: u64 },
    /// The socket failed.
    SocketError,
}

impl Worker {
    /// An active socket has requests left.
    pub open spec fn wf(self) -> bool {
        self.has_sock ==> self.requests_per_sock_done < self.requests_per_sock
    }

    /// The worker after a request, given how the creation of a socket went, when one was needed, and how
    /// the sending went.
    pub open spec fn after(self, created: bool, sent: bool) -> Self {
        let done = if self.has_sock || !created {
            self.requests_per_sock_done as int
        } else {
            0
        };
        if (self.has_sock || created) && sent {
            Worker {
                requests_per_sock_done: (done + 1) as u64,
                has_sock: done + 1 < self.requests_per_sock,
                ..self
            }
        } else {
            Worker { requests_per_sock_done: done as u64, has_sock: false, ..self }
        }
    }

    /// Starts without a socket.
    pub fn new(requests_per_sock: u64) -> (r: Self)
        ensures
            r.wf(),
            r.requests_per_sock == requests_per_sock,
            r.requests_per_sock_done == 0,
            !r.has_sock,
    {
        Worker { requests_per_sock, requests_per_sock_done: 0, has_sock: false }
    }

    /// Whether a socket is to be created before the next request.
    pub fn needs_socket(&self) -> (r: bool)
        ensures
            r == !self.has_sock,
    {
        !self.has_sock
    }

    /// Executes a request, given how the creation of a socket went, when one was needed, and how the
    /// sending went.
    ///
    /// Returns whether a socket was created, and the outcome. A new socket starts a new count; a socket
    /// is kept for reuse only after a successful request that leaves it below its maximum.
    pub fn execute(&mut self, created: bool, sent: bool, bytes: u64) -> (r: (bool, Outcome))
        requires
            old(self).wf(),
        ensures
            final(self).wf(),
            *final(self) == old(self).after(created, sent),
            r == counted(old(self).has_sock, created, sent, bytes),
            r.0 == (!old(self).has_sock && created),
            r.1 == (if (old(self).has_sock || created) && sent {
                Outcome::Sent { bytes }
            } else {
                Outcome::SocketError
            }),
    {
        let had: bool = self.has_sock;
        self.has_sock = false;
        if !had {
            if !created {
                return (false, Outcome::SocketError);
            }
            self.requests_per_sock_done = 0;
        }
        if !sent {
            return (!had, Outcome::SocketError);
        }
        self.requests_per_sock_done = self.requests_per_sock_done + 1;
        if self.requests_per_sock_done < self.requests_per_sock {
            self.has_sock = true;
        }
        (!had, Outcome::Sent { bytes })
    }
}

/// The worker after a number of successful requests in a row, the first on a new socket.
pub open spec fn after_sends(w: Worker, n: nat) -> Worker
    decreases n,
{
    if n == 0 {
        w
    } else {
        after_sends(w, (n - 1) as nat).after(n == 1, true)
    }
}

/// A new socket carries as many requests as configured, or one if that is zero, and is given up with the
/// last of them.
pub proof fn lemma_socket_lifetime(w: Worker, n: nat)
    requires
        !w.has_sock,
        0 < n,
        n <= w.requests_per_sock || n == 1,
    ensures
        after_sends(w, n).requests_per_sock == w.requests_per_sock,
        after_sends(w, n).requests_per_sock_done == n,
        after_sends(w, n).has_sock <==> n < w.requests_per_sock,
    decreases n,
{
    if n > 1 {
        lemma_socket_lifetime(w, (n - 1) as nat);
    } else {
        assert(after_sends(w, 0) == w);
    }
}

/// A socket does not outlive a failed request, and one that could not be created carries none; a request never changes
/// how many a socket is good for.
pub proof fn lemma_failure_loses_socket(w: Worker, created: bool, sent: bool)
    requires
        w.wf(),
    ensures
        !sent ==> !w.after(created, sent).has_sock,
        !w.has_sock && !created ==> !w.after(created, sent).has_sock && w.after(created, sent).requests_per_sock_done
            == w.requests_per_sock_done,
        w.after(created, sent).requests_per_sock == w.requests_per_sock,
        w.has_sock && sent ==> w.after(created, sent).requests_per_sock_done == w.requests_per_sock_done + 1,
        w.has_sock && !sent ==> w.after(created, sent).requests_per_sock_done == w.requests_per_sock_done,
        !w.has_sock && created && sent ==> w.after(created, sent).requests_per_sock_done == 1,
        !w.has_sock && created && !sent ==> w.after(created, sent).requests_per_sock_done == 0,
        w.after(created, sent).has_sock ==> sent && (w.has_sock || created) && w.after(
            created,
            sent,
        ).requests_per_sock_done < w.requests_per_sock,
{
}

/// What a request adds to the statistics: whether a socket was created, and the outcome.
pub open spec fn counted(had_sock: bool, created: bool, sent: bool, bytes: u64) -> (bool, Outcome) {
    (
        !had_sock && created,
        if (had_sock || created) && sent {
            Outcome::Sent { bytes }
        } else {
            Outcome::SocketError
        },
    )
}

/// A request counts as sent, with its bytes, where there was a socket and the sending succeeded, else as a socket
/// error; a socket counts as created only where one was needed and came about.
pub proof fn lemma_what_is_counted(had_sock: bool, created: bool, sent: bool, bytes: u64)
    ensures
        counted(had_sock, created, sent, bytes).0 ==> created && !had_sock,
        created && !had_sock ==> counted(had_sock, created, sent, bytes).0,
        !sent ==> counted(had_sock, created, sent, bytes).1 == Outcome::SocketError,
        !had_sock && !created ==> counted(had_sock, created, sent, bytes).1 == Outcome::SocketError,
        had_sock && sent ==> counted(had_sock, created, sent, bytes).1 == (Outcome::Sent { bytes }),
        created && sent ==> counted(had_sock, created, sent, bytes).1 == (Outcome::Sent { bytes }),
{
}

} // verus!
