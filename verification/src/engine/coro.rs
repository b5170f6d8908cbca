//! Shaped per-task worker.

use vstd::prelude::*;

use crate::shaper::Shaper;

verus! {

/// Requests executed in a row before the shaper is asked again.
pub const MAX_BATCH: u64 = 32;

/// How long a worker without tokens sleeps, in milliseconds.
pub const WAIT_MS: u64 = 1;

/// What a worker does with its tokens.
#[derive(Debug, Clone, Copy, PartialEq, Eq, Structural)]
pub enum CoroStep {
    /// Sleep.
    Wait,
    /// Execute the task this many times and consume as many tokens.
    Execute(u64),
}

/// What a worker does with its tokens: they are used up in batches.
pub open spec fn step_for(tokens: u64) -> CoroStep {
    if tokens == 0 {
        CoroStep::Wait
    } else if tokens < MAX_BATCH {
        CoroStep::Execute(tokens)
    } else {
        CoroStep::Execute(MAX_BATCH)
    }
}

/// Decides what a worker does with its tokens.
pub fn next_step(tokens: u64) -> (r: CoroStep)
    ensures
        r == step_for(tokens),
        r matches CoroStep::Execute(n) ==> 0 < n <= tokens,
{
    if tokens == 0 {
        CoroStep::Wait
    } else if tokens < MAX_BATCH {
        CoroStep::Execute(tokens)
    } else {
        CoroStep::Execute(MAX_BATCH)
    }
}

/// Shaped per-task worker.
///
/// This worker tries to maintain the required number of requests by polling the [`Shaper`] and executing
/// the given task when required.
#[derive(Debug)]
pub struct ShapedCoroWorker<T> {
    /// Per-task job.
    pub task: T,
    /// The shaper.
    pub shaper: Shaper,
}

impl<T> ShapedCoroWorker<T> {
    pub fn new(task: T, shaper: Shaper) -> (r: Self)
        ensures
            r.task == task,
            r.shaper == shaper,
    {
        ShapedCoroWorker { task, shaper }
    }

    /// Polls the shaper and decides what to do.
    pub fn step(&mut self, now: u64, limit: u64) -> (r: CoroStep)
        requires
            old(self).shaper.wf(),
        ensures
            final(self).shaper.wf(),
            final(self).task == old(self).task,
            ({
                let (shaper, available) = old(self).shaper.ticked(now, limit);
                &&& final(self).shaper == shaper
                &&& r == step_for(available)
            }),
    {
        let tokens: u64 = self.shaper.tick(now, limit);
        next_step(tokens)
    }

    /// Pays for the requests that were executed.
    pub fn executed(&mut self, n: u64)
        requires
            old(self).shaper.wf(),
        ensures
            final(self).shaper.wf(),
            final(self).task == old(self).task,
            final(self).shaper == old(self).shaper.consumed(n),
    {
        self.shaper.consume(n);
    }
}

/// A worker with tokens executes, in batches that use up the tokens but have no more than 32 requests; a worker
/// without tokens waits.
pub proof fn lemma_batches(tokens: u64)
    ensures
        step_for(tokens) == CoroStep::Wait <==> tokens == 0,
        tokens > 0 ==> (step_for(tokens) matches CoroStep::Execute(n) && 0 < n <= tokens && n <= 32 && (n == tokens || n
            == 32)),
{
}

} // verus!
