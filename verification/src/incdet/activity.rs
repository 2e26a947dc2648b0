//! Clause activities for the learnt-clause deletion policy.
//!
//! Every learnt clause used as a reason during conflict analysis is bumped;
//! the bump grows geometrically per conflict (equivalent to decaying all
//! activities), so recently useful clauses survive.
use crate::clause::allocator::ClauseId;
use vstd::prelude::*;

verus! {

/// The first increment.
pub const INCREMENT_INITIAL: u64 = 1_048_576;

/// No activity and no increment reaches this limit.
pub const ACTIVITY_LIMIT: u64 = 1_152_921_504_606_846_976;

/// What activities are divided by when one reaches the limit.
pub const ACTIVITY_FACTOR: u64 = 4_294_967_296;

/// The activities of learnt clauses.
#[derive(Debug)]
pub struct ClauseActivity {
    activity: Vec<u64>,
    increment: u64,
}

impl ClauseActivity {
    /// The activity of a clause.
    pub closed spec fn of(&self, cid: ClauseId) -> u64 {
        if cid.0 < self.activity@.len() {
            self.activity@[cid.0 as int]
        } else {
            0
        }
    }

    /// The current increment.
    pub closed spec fn step(&self) -> u64 {
        self.increment
    }

    /// The limit is kept.
    pub closed spec fn wf(&self) -> bool {
        &&& 0 < self.increment < ACTIVITY_LIMIT
        &&& forall|i: int| 0 <= i < self.activity@.len() ==> #[trigger] self.activity@[i] < ACTIVITY_LIMIT
    }

    /// No clause is active.
    pub fn new() -> (activity: ClauseActivity)
        ensures
            activity.wf(),
            activity.step() == INCREMENT_INITIAL,
            forall|cid: ClauseId| #[trigger] activity.of(cid) == 0,
    {
        ClauseActivity { activity: Vec::new(), increment: INCREMENT_INITIAL }
    }

    fn rescale(&mut self)
        ensures
            final(self).wf(),
            final(self).increment == 1 + old(self).increment / ACTIVITY_FACTOR,
            forall|cid: ClauseId| #[trigger] final(self).of(cid) == old(self).of(cid) / ACTIVITY_FACTOR,
    {
        let ghost before = self.activity@;
        let mut k: usize = 0;
        while k < self.activity.len()
            invariant
                k <= self.activity@.len(),
                self.increment == old(self).increment,
                self.activity@.len() == before.len(),
                forall|i: int| 0 <= i < k ==> #[trigger] self.activity@[i] == before[i] / ACTIVITY_FACTOR,
                forall|i: int| k <= i < before.len() ==> #[trigger] self.activity@[i] == before[i],
            decreases self.activity.len() - k,
        {
            let value = self.activity[k];
            self.activity.set(k, value / ACTIVITY_FACTOR);
            k += 1;
        }
        self.increment = 1 + self.increment / ACTIVITY_FACTOR;
    }

    /// Marks a clause as used.
    pub fn bump(&mut self, cid: ClauseId)
        requires
            old(self).wf(),
            cid.0 < usize::MAX,
        ensures
            final(self).wf(),
            ({
                let sum = old(self).of(cid) + old(self).step();
                if sum < ACTIVITY_LIMIT {
                    &&& final(self).step() == old(self).step()
                    &&& final(self).of(cid) == sum
                    &&& forall|other: ClauseId| other != cid ==> #[trigger] final(self).of(other) == old(self).of(other)
                } else {
                    &&& final(self).step() == 1 + old(self).step() / ACTIVITY_FACTOR
                    &&& final(self).of(cid) == sum / ACTIVITY_FACTOR as int
                    &&& forall|other: ClauseId| other != cid ==> #[trigger] final(self).of(other) == old(self).of(other) / ACTIVITY_FACTOR
                }
            }),
    {
        while self.activity.len() <= cid.0
            invariant
                self.wf(),
                self.increment == old(self).increment,
                forall|other: ClauseId| #[trigger] self.of(other) == old(self).of(other),
                cid.0 < usize::MAX,
            decreases cid.0 + 1 - self.activity.len(),
        {
            let ghost before = *self;
            self.activity.push(0);
            assert forall|other: ClauseId| #[trigger] self.of(other) == old(self).of(other) by {
                assert(before.of(other) == old(self).of(other));
            }
        }
        let ghost before = *self;
        assert(self.activity@[cid.0 as int] < ACTIVITY_LIMIT);
        let value = self.activity[cid.0] + self.increment;
        assert(self.of(cid) == old(self).of(cid));
        self.activity.set(cid.0, value);
        assert forall|other: ClauseId| other != cid implies #[trigger] self.of(other) == old(self).of(other) by {
            assert(before.of(other) == old(self).of(other));
        }
        if value >= ACTIVITY_LIMIT {
            let ghost middle = *self;
            self.rescale();
            assert forall|other: ClauseId| other != cid implies #[trigger] self.of(other) == old(self).of(other) / ACTIVITY_FACTOR by {
                assert(middle.of(other) == old(self).of(other));
            }
        }
    }

    /// Makes later bumps weigh more.
    pub fn decay(&mut self)
        requires
            old(self).wf(),
        ensures
            final(self).wf(),
            ({
                let grown = old(self).step() + old(self).step() / 999;
                if grown < ACTIVITY_LIMIT {
                    &&& final(self).step() == grown
                    &&& forall|cid: ClauseId| #[trigger] final(self).of(cid) == old(self).of(cid)
                } else {
                    &&& final(self).step() == 1 + grown / ACTIVITY_FACTOR as int
                    &&& forall|cid: ClauseId| #[trigger] final(self).of(cid) == old(self).of(cid) / ACTIVITY_FACTOR
                }
            }),
    {
        self.increment = self.increment + self.increment / 999;
        if self.increment >= ACTIVITY_LIMIT {
            self.rescale();
        }
    }

    /// The activity of a clause.
    pub fn get(&self, cid: ClauseId) -> (activity: u64)
        ensures
            activity == self.of(cid),
    {
        if cid.0 < self.activity.len() {
            self.activity[cid.0]
        } else {
            0
        }
    }

    /// Forgets the activity of a clause.
    pub fn remove(&mut self, cid: ClauseId)
        requires
            old(self).wf(),
        ensures
            final(self).wf(),
            final(self).step() == old(self).step(),
            final(self).of(cid) == 0,
            forall|other: ClauseId| other != cid ==> #[trigger] final(self).of(other) == old(self).of(other),
    {
        if cid.0 < self.activity.len() {
            self.activity.set(cid.0, 0);
        }
    }
}

} // verus!
