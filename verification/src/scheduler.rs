//! The cycle scheduler's state machine. A cycle runs its steps in a fixed,
//! deterministic order — feed pass, tracker pass, ledger flush — and then
//! sleeps until the next cycle is due, measured from the end of the
//! previous one so that cycles never overlap. The surrounding process
//! performs each step and the timer wait; the order, and the fact that a
//! step's failure never changes it, are decided here.

use vstd::prelude::*;

verus! {

/// Where a cycle stands. `Sleeping` is the idle state between cycles; the
/// other three are the phases of one running cycle, in their fixed order.
pub enum CyclePhase {
    /// Polling the chronological feed.
    FeedStep,
    /// Polling the paginated issue tracker.
    TrackerStep,
    /// Flushing the ledger snapshot, after all publish attempts of the
    /// cycle have been resolved.
    FlushStep,
    /// Waiting on the inter-cycle timer.
    Sleeping,
}

/// The fixed successor of each phase.
pub open spec fn next_phase_spec(p: CyclePhase) -> CyclePhase {
    match p {
        CyclePhase::FeedStep => CyclePhase::TrackerStep,
        CyclePhase::TrackerStep => CyclePhase::FlushStep,
        CyclePhase::FlushStep => CyclePhase::Sleeping,
        CyclePhase::Sleeping => CyclePhase::FeedStep,
    }
}

/// Advances the cycle past one completed phase. Whether the step failed is
/// taken — every failure is caught and logged by the caller — and provably
/// ignored: a failing source or a failing flush never prevents the later
/// steps or the next cycle, and there is no terminal state.
pub fn advance_phase(p: &CyclePhase, step_failed: bool) -> (r: CyclePhase)
    ensures
        r == next_phase_spec(*p),
{
    let _ = step_failed;
    match p {
        CyclePhase::FeedStep => CyclePhase::TrackerStep,
        CyclePhase::TrackerStep => CyclePhase::FlushStep,
        CyclePhase::FlushStep => CyclePhase::Sleeping,
        CyclePhase::Sleeping => CyclePhase::FeedStep,
    }
}

} // verus!
