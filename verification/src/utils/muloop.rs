//! Decision core of the worker-loop controller.
//!
//! A worker thread owns a [`LoopState`] and asks it, at the top of every
//! iteration, whether to run the caller-supplied action once more. The state
//! machine is pure: the thread, the sleeps and the clock live with the
//! caller, which feeds the elapsed time in. Cancellation is cooperative: a
//! stop request only suppresses the next iteration, never an in-flight
//! action.

use vstd::prelude::*;

verus! {

/// Termination policy of a worker loop.
#[derive(Debug, Clone, Copy, PartialEq, Eq, Structural)]
pub enum LoopMode {
    /// Run the action this many times, then stop on its own.
    Count(usize),
    /// Run the action while the elapsed milliseconds since the start are
    /// below this bound, checked before each iteration.
    Duration(u64),
    /// Run until stopped from outside.
    Continuous,
}

/// One run of a worker loop: its policy, how many iterations have completed,
/// and whether a stop was requested. Single-use: a new run takes a new state.
pub struct LoopState {
    /// The termination policy this run follows.
    pub mode: LoopMode,
    /// Completed iterations of the action.
    pub iterations: usize,
    /// Whether `request_stop` has been called.
    pub stop_requested: bool,
}

impl LoopState {
    /// Whether the worker, seeing `elapsed_ms` on its clock, runs the action
    /// once more: no stop requested and the policy not yet exhausted.
    pub open spec fn spec_should_run(self, elapsed_ms: u64) -> bool {
        &&& !self.stop_requested
        &&& match self.mode {
            LoopMode::Count(n) => self.iterations < n,
            LoopMode::Duration(d) => elapsed_ms < d,
            LoopMode::Continuous => true,
        }
    }

    /// A fresh run under `mode`: nothing done, no stop requested.
    pub fn new(mode: LoopMode) -> (s: Self)
        ensures
            s.mode == mode,
            s.iterations == 0,
            !s.stop_requested,
    {
        LoopState { mode, iterations: 0, stop_requested: false }
    }

    /// The check the worker makes at the top of each iteration.
    pub fn should_run(&self, elapsed_ms: u64) -> (r: bool)
        ensures
            r == self.spec_should_run(elapsed_ms),
    {
        if self.stop_requested {
            return false;
        }
        match self.mode {
            LoopMode::Count(n) => self.iterations < n,
            LoopMode::Duration(d) => elapsed_ms < d,
            LoopMode::Continuous => true,
        }
    }

    /// Records one completed run of the action.
    pub fn record_iteration(&mut self)
        requires
            old(self).iterations < usize::MAX,
        ensures
            final(self).iterations == old(self).iterations + 1,
            final(self).mode == old(self).mode,
            final(self).stop_requested == old(self).stop_requested,
    {
        self.iterations = self.iterations + 1;
    }

    /// Requests a cooperative stop; idempotent. The policy and the count are
    /// untouched, so an in-flight action still gets recorded.
    pub fn request_stop(&mut self)
        ensures
            final(self).stop_requested,
            final(self).mode == old(self).mode,
            final(self).iterations == old(self).iterations,
    {
        self.stop_requested = true;
    }
}

/// Count-policy law: as long as no outside stop arrives, a `Count(n)` worker
/// runs the action if and only if fewer than `n` iterations have completed.
/// Each completed iteration increments the count by one, so the worker that
/// checks before every iteration performs the action exactly `n` times and
/// then exits on its own, whatever its clock reads.
pub proof fn lemma_count_policy_exact(s: LoopState, n: usize, elapsed_ms: u64)
    requires
        s.mode == LoopMode::Count(n),
        !s.stop_requested,
    ensures
        s.spec_should_run(elapsed_ms) <==> s.iterations < n,
{
}

/// Stop law: once a stop has been requested, the worker's very next check
/// fails, whatever the policy and whatever its clock reads, so the worker
/// exits within one check interval and performs no further action.
pub proof fn lemma_stop_halts(s: LoopState, elapsed_ms: u64)
    requires
        s.stop_requested,
    ensures
        !s.spec_should_run(elapsed_ms),
{
}

/// Duration-policy law: with no stop requested, a `Duration(d)` worker runs
/// the action if and only if the elapsed time it reads is still below `d`;
/// once the deadline has passed at a check point it exits on its own,
/// however many iterations have completed.
pub proof fn lemma_duration_policy(s: LoopState, d: u64, elapsed_ms: u64)
    requires
        s.mode == LoopMode::Duration(d),
        !s.stop_requested,
    ensures
        s.spec_should_run(elapsed_ms) <==> elapsed_ms < d,
{
}

} // verus!
