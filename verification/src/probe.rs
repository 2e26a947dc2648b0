//! Measurement counters.
//!
//! Statistics per solver are easy to double-count when a measurement is
//! aggregated over the throwaway query solvers that a solve creates. These
//! counters are additive, so every event is counted exactly once however
//! many solvers a run builds.
use vstd::prelude::*;

verus! {

/// Node budget for the sampled conflict-check BDDs: past this the answer
/// is "it does not fit", which is the answer that matters.
pub const BDD_LIMIT: usize = 1_000_000;

/// The events that are counted.
#[derive(Debug, Clone, Copy, PartialEq, Eq, Structural)]
pub enum Event {
    /// Complete conflict checks the cone was measured for.
    ConeSamples,
    /// Implication clauses in the cone of influence of the checked
    /// variable.
    ConeClauses,
    /// Variables in that cone.
    ConeVars,
    /// Of the cone clauses, those belonging to root-level variables.
    ConeRootClauses,
    /// Implication clauses of the whole determinized formula.
    DeterminizedClauses,
    /// Assigned variables at the time of the check.
    DeterminizedVars,
    /// Complete checks that tried a remembered conflicting assignment.
    HintTries,
    /// How many of those found the conflict that way.
    HintHits,
    /// What the tries cost, in nanoseconds.
    HintNanos,
    /// Propagation waves.
    Waves,
    /// Waves that ended on a conflict.
    WavesConflicted,
    /// Complete conflict checks.
    CompleteChecks,
    /// Decisions.
    Decisions,
    /// Sampled conflict-check states.
    BddSamples,
    /// How many of them fit inside the node budget.
    BddFits,
    /// The largest package seen among those that fit.
    BddPeakTotal,
}

/// The counters of a run.
#[derive(Debug)]
pub struct Counters {
    counts: Vec<u64>,
}

/// The place of an event.
pub open spec fn place(event: Event) -> int {
    match event {
        Event::ConeSamples => 0,
        Event::ConeClauses => 1,
        Event::ConeVars => 2,
        Event::ConeRootClauses => 3,
        Event::DeterminizedClauses => 4,
        Event::DeterminizedVars => 5,
        Event::HintTries => 6,
        Event::HintHits => 7,
        Event::HintNanos => 8,
        Event::Waves => 9,
        Event::WavesConflicted => 10,
        Event::CompleteChecks => 11,
        Event::Decisions => 12,
        Event::BddSamples => 13,
        Event::BddFits => 14,
        Event::BddPeakTotal => 15,
    }
}

fn index(event: Event) -> (i: usize)
    ensures
        i == place(event),
        i < 16,
{
    match event {
        Event::ConeSamples => 0,
        Event::ConeClauses => 1,
        Event::ConeVars => 2,
        Event::ConeRootClauses => 3,
        Event::DeterminizedClauses => 4,
        Event::DeterminizedVars => 5,
        Event::HintTries => 6,
        Event::HintHits => 7,
        Event::HintNanos => 8,
        Event::Waves => 9,
        Event::WavesConflicted => 10,
        Event::CompleteChecks => 11,
        Event::Decisions => 12,
        Event::BddSamples => 13,
        Event::BddFits => 14,
        Event::BddPeakTotal => 15,
    }
}

impl Counters {
    /// The count of an event.
    pub closed spec fn count(&self, event: Event) -> u64 {
        self.counts@[place(event)]
    }

    /// There is a counter for every event.
    pub closed spec fn wf(&self) -> bool {
        self.counts@.len() == 16
    }

    /// Every counter is zero.
    pub fn new() -> (counters: Counters)
        ensures
            counters.wf(),
            forall|event: Event| #[trigger] counters.count(event) == 0,
    {
        let counters = Counters { counts: vec![0, 0, 0, 0, 0, 0, 0, 0, 0, 0, 0, 0, 0, 0, 0, 0] };
        assert forall|event: Event| #[trigger] counters.count(event) == 0 by {}
        counters
    }

    /// Resets every counter, so a driver can measure one instance at a
    /// time.
    pub fn reset(&mut self)
        ensures
            final(self).wf(),
            forall|event: Event| #[trigger] final(self).count(event) == 0,
    {
        *self = Counters::new();
    }

    /// The count of an event.
    pub fn get(&self, event: Event) -> (count: u64)
        requires
            self.wf(),
        ensures
            count == self.count(event),
    {
        self.counts[index(event)]
    }

    /// Counts events; counters wrap around.
    pub fn add(&mut self, event: Event, by: u64)
        requires
            old(self).wf(),
        ensures
            final(self).wf(),
            final(self).count(event) == (old(self).count(event) + by) % 0x1_0000_0000_0000_0000,
            forall|other: Event| other != event ==> #[trigger] final(self).count(other) == old(self).count(other),
    {
        let i = index(event);
        let sum: u128 = self.counts[i] as u128 + by as u128;
        let held: u64 = (sum % 0x1_0000_0000_0000_0000) as u64;
        self.counts.set(i, held);
    }

    /// Records the largest value seen.
    pub fn observe_max(&mut self, event: Event, value: u64)
        requires
            old(self).wf(),
        ensures
            final(self).wf(),
            final(self).count(event) == (if value > old(self).count(event) { value } else { old(self).count(event) }),
            forall|other: Event| other != event ==> #[trigger] final(self).count(other) == old(self).count(other),
    {
        let i = index(event);
        if value > self.counts[i] {
            self.counts.set(i, value);
        }
    }
}

} // verus!
