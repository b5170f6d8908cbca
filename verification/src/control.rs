//! Decisions of the gRPC service.

use vstd::prelude::*;

use crate::engine::rate::GeneratorEvent;
use crate::snapshot::DescribeResponse;

verus! {

/// Cadence at which statistic snapshots are pushed to subscribers, in milliseconds.
pub const STATS_INTERVAL_MS: u64 = 25;

/// Capacity of the per-subscriber snapshot channel.
pub const STATS_CHANNEL_CAP: usize = 4;

/// What a client asks for.
#[derive(Debug, Clone, Copy, PartialEq, Eq, Structural)]
pub enum ControlKind {
    Suspend,
    Resume,
    SetRps(u64),
    Stop,
}

/// The service over the running core.
#[derive(Debug, Clone)]
pub struct DwdService {
    /// Cached describe response (engine kind + widget groups).
    pub descriptor: DescribeResponse,
    /// Run flag; the stats stream ends when it flips to `false`.
    pub is_running: bool,
}

impl DwdService {
    /// Creates a service over a running core.
    pub fn new(descriptor: DescribeResponse) -> (r: Self)
        ensures
            r.descriptor == descriptor,
            r.is_running,
    {
        DwdService { descriptor, is_running: true }
    }

    /// Describes the engine.
    pub fn describe(&self) -> (r: &DescribeResponse)
        ensures
            *r == self.descriptor,
    {
        &self.descriptor
    }

    /// Handles a request; returns the event to forward to the generator, if any.
    ///
    /// Stop bypasses the generator: it clears the run flag. Nothing else touches the flag.
    pub fn control(&mut self, kind: Option<ControlKind>) -> (r: Option<GeneratorEvent>)
        ensures
            r == (match kind {
                Some(ControlKind::Suspend) => Some(GeneratorEvent::Suspend),
                Some(ControlKind::Resume) => Some(GeneratorEvent::Resume),
                Some(ControlKind::SetRps(rps)) => Some(GeneratorEvent::SetRps(rps)),
                Some(ControlKind::Stop) => None,
                None => None,
            }),
            final(self).descriptor == old(self).descriptor,
            final(self).is_running == (old(self).is_running && kind != Some(ControlKind::Stop)),
            r == event_for(kind),
            final(self).is_running == still_running(old(self).is_running, kind),
    {
        match kind {
            None => None,
            Some(ControlKind::Suspend) => Some(GeneratorEvent::Suspend),
            Some(ControlKind::Resume) => Some(GeneratorEvent::Resume),
            Some(ControlKind::SetRps(rps)) => Some(GeneratorEvent::SetRps(rps)),
            Some(ControlKind::Stop) => {
                self.is_running = false;
                None
            },
        }
    }
}

/// What the statistics stream does at a tick.
#[derive(Debug, Clone, Copy, PartialEq, Eq, Structural)]
pub enum StreamStep {
    /// Push a snapshot.
    Push,
    /// End the stream.
    End,
}

/// Decides a tick of the statistics stream: it ends with the run, or when the subscriber did not take
/// the previous snapshot.
pub fn stream_step(is_running: bool, previous_taken: bool) -> (r: StreamStep)
    ensures
        r == (if is_running && previous_taken {
            StreamStep::Push
        } else {
            StreamStep::End
        }),
        r == stream_does(is_running, previous_taken),
        r == StreamStep::End <==> !is_running || !previous_taken,
{
    if is_running && previous_taken {
        StreamStep::Push
    } else {
        StreamStep::End
    }
}

/// The event that a request makes for the generator, if any.
pub open spec fn event_for(kind: Option<ControlKind>) -> Option<GeneratorEvent> {
    match kind {
        Some(ControlKind::Suspend) => Some(GeneratorEvent::Suspend),
        Some(ControlKind::Resume) => Some(GeneratorEvent::Resume),
        Some(ControlKind::SetRps(rps)) => Some(GeneratorEvent::SetRps(rps)),
        _ => None,
    }
}

/// Whether the core is running after some requests.
pub open spec fn running_after(is_running: bool, kinds: Seq<Option<ControlKind>>) -> bool
    decreases kinds.len(),
{
    if kinds.len() == 0 {
        is_running
    } else {
        still_running(running_after(is_running, kinds.drop_last()), kinds.last())
    }
}

/// Whether the core is running after a request.
pub open spec fn still_running(is_running: bool, kind: Option<ControlKind>) -> bool {
    is_running && kind != Some(ControlKind::Stop)
}

/// A running core runs until it is told to stop, and never again after that.
pub proof fn lemma_runs_until_stopped(kinds: Seq<Option<ControlKind>>)
    ensures
        running_after(true, kinds) <==> !kinds.contains(Some(ControlKind::Stop)),
        !running_after(false, kinds),
    decreases kinds.len(),
{
    if kinds.len() > 0 {
        let front = kinds.drop_last();
        lemma_runs_until_stopped(front);
        if front.contains(Some(ControlKind::Stop)) {
            let i = choose|i: int| 0 <= i < front.len() && front[i] == Some(ControlKind::Stop);
            assert(kinds[i] == Some(ControlKind::Stop));
        }
        if kinds.contains(Some(ControlKind::Stop)) && kinds.last() != Some(ControlKind::Stop) {
            let i = choose|i: int| 0 <= i < kinds.len() && kinds[i] == Some(ControlKind::Stop);
            assert(front[i] == Some(ControlKind::Stop));
        }
    }
}

/// The generator can tell from an event what the client asked for: different requests that reach it make different
/// events, and a rate arrives as it was set. Only a stop, and a request for nothing, make no event.
pub proof fn lemma_events_tell_requests(a: Option<ControlKind>, b: Option<ControlKind>, rps: u64)
    ensures
        event_for(a) is Some && event_for(a) == event_for(b) ==> a == b,
        event_for(a) is None <==> a is None || a == Some(ControlKind::Stop),
        event_for(a) == Some(GeneratorEvent::SetRps(rps)) <==> a == Some(ControlKind::SetRps(rps)),
        event_for(a) == Some(GeneratorEvent::Suspend) <==> a == Some(ControlKind::Suspend),
        event_for(a) == Some(GeneratorEvent::Resume) <==> a == Some(ControlKind::Resume),
{
}

/// What the statistics stream does at a tick.
pub open spec fn stream_does(is_running: bool, previous_taken: bool) -> StreamStep {
    if is_running && previous_taken {
        StreamStep::Push
    } else {
        StreamStep::End
    }
}

/// The stream ends with the run, and with a subscriber that does not take its snapshots; else it goes on.
pub proof fn lemma_stream_ends(is_running: bool, previous_taken: bool)
    ensures
        stream_does(false, previous_taken) == StreamStep::End,
        stream_does(is_running, false) == StreamStep::End,
        stream_does(true, true) == StreamStep::Push,
{
}

} // verus!
