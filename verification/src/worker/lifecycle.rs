//! Running and shutting down the DPDK engine.
//!
//! Packets are held by both the workers and the transmit rings, and their
//! reference counts are raised while they are being reused. So the shutdown
//! drains the receive queues, resets the reference counts, stops the ports, lets
//! the hardware settle, clears the workers, and only then cleans EAL up.

use vstd::prelude::*;

verus! {

/// How long the hardware queues are given to flush, in milliseconds.
pub const SETTLE_MS: u64 = 100;

/// What to do next.
#[derive(Debug, Clone, Copy, PartialEq, Eq, Structural)]
pub enum Stage {
    /// Reset the statistics of a port, start it and make it promiscuous.
    StartPort { port: usize },
    /// Launch the workers on their cores.
    Launch,
    /// Wait for the workers to finish.
    Join,
    /// Read the number of receive queues of a port.
    Inspect { port: usize },
    /// Receive a burst from a queue of a port.
    Drain { port: usize, queue: u16, queues: u16 },
    /// Reset the reference counts of all packets that workers hold.
    ResetRefcnt,
    /// Stop a port; a failure is tolerated.
    StopPort { port: usize },
    /// Wait for the hardware.
    Settle,
    /// Forget the workers.
    ClearWorkers,
    /// Clean EAL up.
    Cleanup,
    /// All done.
    Finished,
}

impl Stage {
    /// The place of the stage in the sequence.
    pub open spec fn rank(self) -> nat {
        match self {
            Stage::StartPort { .. } => 0,
            Stage::Launch => 1,
            Stage::Join => 2,
            Stage::Inspect { .. } => 3,
            Stage::Drain { .. } => 3,
            Stage::ResetRefcnt => 4,
            Stage::StopPort { .. } => 5,
            Stage::Settle => 6,
            Stage::ClearWorkers => 7,
            Stage::Cleanup => 8,
            Stage::Finished => 9,
        }
    }

    /// Ports and queues are among those there are.
    pub open spec fn wf(self, ports: usize) -> bool {
        match self {
            Stage::StartPort { port } => port < ports,
            Stage::Inspect { port } => port < ports,
            Stage::Drain { port, queue, queues } => port < ports && queue < queues,
            Stage::StopPort { port } => port < ports,
            _ => true,
        }
    }

    /// The first stage.
    pub open spec fn first(ports: usize) -> Self {
        if ports > 0 {
            Stage::StartPort { port: 0 }
        } else {
            Stage::Launch
        }
    }

    /// What follows the draining of all ports before `port`.
    pub open spec fn drain_from(port: int, ports: usize) -> Self {
        if port < ports {
            Stage::Inspect { port: port as usize }
        } else {
            Stage::ResetRefcnt
        }
    }

    /// The stage after this one. The reply is the number of receive queues of an inspected port, and
    /// the number of packets received from a queue that is being drained.
    pub open spec fn after(self, ports: usize, reply: u16) -> Self {
        match self {
            Stage::StartPort { port } => if port + 1 < ports {
                Stage::StartPort { port: (port + 1) as usize }
            } else {
                Stage::Launch
            },
            Stage::Launch => Stage::Join,
            Stage::Join => Stage::drain_from(0, ports),
            Stage::Inspect { port } => if reply > 0 {
                Stage::Drain { port, queue: 0, queues: reply }
            } else {
                Stage::drain_from(port + 1, ports)
            },
            Stage::Drain { port, queue, queues } => if reply > 0 {
                self
            } else if queue + 1 < queues {
                Stage::Drain { port, queue: (queue + 1) as u16, queues }
            } else {
                Stage::drain_from(port + 1, ports)
            },
            Stage::ResetRefcnt => if ports > 0 {
                Stage::StopPort { port: 0 }
            } else {
                Stage::Settle
            },
            Stage::StopPort { port } => if port + 1 < ports {
                Stage::StopPort { port: (port + 1) as usize }
            } else {
                Stage::Settle
            },
            Stage::Settle => Stage::ClearWorkers,
            Stage::ClearWorkers => Stage::Cleanup,
            Stage::Cleanup => Stage::Finished,
            Stage::Finished => Stage::Finished,
        }
    }

    /// Returns the first stage.
    pub fn start(ports: usize) -> (r: Self)
        ensures
            r == Stage::first(ports),
            r.wf(ports),
    {
        if ports > 0 {
            Stage::StartPort { port: 0 }
        } else {
            Stage::Launch
        }
    }

    fn drain(port: usize, ports: usize) -> (r: Self)
        ensures
            r == Stage::drain_from(port as int, ports),
            r.wf(ports),
    {
        if port < ports {
            Stage::Inspect { port }
        } else {
            Stage::ResetRefcnt
        }
    }

    /// Moves on to the next stage.
    pub fn advance(self, ports: usize, reply: u16) -> (r: Self)
        requires
            self.wf(ports),
        ensures
            r == self.after(ports, reply),
            r.wf(ports),
    {
        match self {
            Stage::StartPort { port } => {
                if port + 1 < ports {
                    Stage::StartPort { port: port + 1 }
                } else {
                    Stage::Launch
                }
            },
            Stage::Launch => Stage::Join,
            Stage::Join => Stage::drain(0, ports),
            Stage::Inspect { port } => {
                if reply > 0 {
                    Stage::Drain { port, queue: 0, queues: reply }
                } else {
                    Stage::drain(port + 1, ports)
                }
            },
            Stage::Drain { port, queue, queues } => {
                if reply > 0 {
                    self
                } else if queue + 1 < queues {
                    Stage::Drain { port, queue: queue + 1, queues }
                } else {
                    Stage::drain(port + 1, ports)
                }
            },
            Stage::ResetRefcnt => {
                if ports > 0 {
                    Stage::StopPort { port: 0 }
                } else {
                    Stage::Settle
                }
            },
            Stage::StopPort { port } => {
                if port + 1 < ports {
                    Stage::StopPort { port: port + 1 }
                } else {
                    Stage::Settle
                }
            },
            Stage::Settle => Stage::ClearWorkers,
            Stage::ClearWorkers => Stage::Cleanup,
            Stage::Cleanup => Stage::Finished,
            Stage::Finished => Stage::Finished,
        }
    }

    /// The port that the stage is about.
    pub open spec fn port(self) -> int {
        match self {
            Stage::StartPort { port } => port as int,
            Stage::Inspect { port } => port as int,
            Stage::Drain { port, .. } => port as int,
            Stage::StopPort { port } => port as int,
            _ => 0,
        }
    }

    /// The queue that the stage is about, counted from one.
    pub open spec fn queue(self) -> int {
        match self {
            Stage::Drain { queue, .. } => queue + 1,
            _ => 0,
        }
    }
}

/// The sequence never goes back, and it moves on unless a queue still had packets.
pub proof fn lemma_sequence(s: Stage, ports: usize, reply: u16)
    requires
        s.wf(ports),
        s != Stage::Finished,
    ensures
        ({
            let t = s.after(ports, reply);
            ||| t.rank() > s.rank()
            ||| t.rank() == s.rank() && t.port() > s.port()
            ||| t.rank() == s.rank() && t.port() == s.port() && t.queue() > s.queue()
            ||| t == s && s is Drain && reply > 0
        }),
        s.after(ports, reply).rank() <= s.rank() + 1 || ports == 0,
{
}

/// Ports are stopped one by one, and the first is stopped only after the reference counts were
/// reset; a port that was started is stopped before the wait for the hardware.
pub proof fn lemma_stop_order(s: Stage, ports: usize, reply: u16)
    requires
        s.wf(ports),
    ensures
        s.after(ports, reply) matches Stage::StopPort { port } ==> if port == 0 {
            s == Stage::ResetRefcnt
        } else {
            s == (Stage::StopPort { port: (port - 1) as usize })
        },
        s.after(ports, reply) == Stage::Settle && ports > 0 ==> s == (Stage::StopPort { port: (ports - 1) as usize }),
{
}

/// What a stage follows: ports are started one by one before the workers are launched, which are joined before
/// anything is drained; a port is looked at once every queue of the one before it was found empty, and its
/// queues are drained in order, each until it is empty; only after the last of them are the
/// reference counts reset. Nothing comes between the wait for the hardware and the clean-up but the workers.
pub proof fn lemma_what_came_before(s: Stage, ports: usize, reply: u16)
    requires
        s.wf(ports),
    ensures
        ({
            let t = s.after(ports, reply);
            let emptied = |port: int|
                {
                    ||| s == (Stage::Inspect { port: port as usize }) && reply == 0
                    ||| reply == 0 && (s matches Stage::Drain { port: p, queue, queues } && p == port && queue + 1
                        == queues)
                };
            &&& t matches Stage::StartPort { port } ==> port > 0 && s == (Stage::StartPort { port: (port - 1) as usize })
            &&& t == Stage::Launch ==> s == (Stage::StartPort { port: (ports - 1) as usize })
            &&& t == Stage::Join ==> s == Stage::Launch
            &&& t matches Stage::Inspect { port } ==> port < ports && if port == 0 {
                s == Stage::Join
            } else {
                emptied(port - 1)
            }
            &&& t matches Stage::Drain { port, queue, queues } ==> {
                ||| queue == 0 && reply == queues && s == (Stage::Inspect { port })
                ||| reply > 0 && s == t
                ||| reply == 0 && queue > 0 && s == (Stage::Drain { port, queue: (queue - 1) as u16, queues })
            }
            &&& t == Stage::ResetRefcnt ==> if ports == 0 {
                s == Stage::Join
            } else {
                emptied(ports - 1)
            }
            &&& t == Stage::ClearWorkers ==> s == Stage::Settle
            &&& t == Stage::Cleanup ==> s == Stage::ClearWorkers
            &&& t == Stage::Finished ==> s == Stage::Cleanup || s == Stage::Finished
            &&& t == s ==> s == Stage::Finished || s is Drain && reply > 0
        }),
{
}

/// The sequence starts with the first port, or with the launch where there are no ports.
pub proof fn lemma_first_stage(ports: usize)
    ensures
        ports > 0 ==> Stage::first(ports) == (Stage::StartPort { port: 0 }),
        ports == 0 ==> Stage::first(ports) == Stage::Launch,
{
}

} // verus!
