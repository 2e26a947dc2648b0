//! VSIDS branching heuristics.
//!
//! Activities are fixed-point numbers: a bump starts at `BUMP_INITIAL` and
//! grows by one nineteenth per decay, which is as good as shrinking all
//! activities by one twentieth.
use crate::datastructure::heap::VarHeap;
use crate::literal::Var;
use vstd::prelude::*;

verus! {

/// The first bump.
pub const BUMP_INITIAL: u64 = 16_777_216;

/// No activity and no bump reaches this limit.
pub const RESCALE_LIMIT: u64 = 1_152_921_504_606_846_976;

/// What activities are divided by when one reaches the limit.
pub const RESCALE_FACTOR: u64 = 4_294_967_296;

/// The variables that can be decided, by activity.
#[derive(Debug)]
pub struct Vsids {
    heap: VarHeap,
    /// the value used for bumping activity values
    bump: u64,
}

impl Vsids {
    /// The activity of a variable.
    pub closed spec fn activity(&self, x: Var) -> u64 {
        self.heap.value(x)
    }

    /// The variables that can be decided.
    pub closed spec fn vars(&self) -> Set<Var> {
        self.heap.vars()
    }

    /// The current bump.
    pub closed spec fn step(&self) -> u64 {
        self.bump
    }

    /// The heap is in order, and the limit is kept.
    pub closed spec fn wf(&self) -> bool {
        &&& self.heap.wf()
        &&& 0 < self.bump < RESCALE_LIMIT
        &&& forall|x: Var| #[trigger] self.heap.value(x) < RESCALE_LIMIT
    }

    /// No variables.
    pub fn new() -> (vsids: Vsids)
        ensures
            vsids.wf(),
            vsids.vars() == Set::<Var>::empty(),
            vsids.step() == BUMP_INITIAL,
            forall|x: Var| #[trigger] vsids.activity(x) == 0,
    {
        Vsids { heap: VarHeap::new(), bump: BUMP_INITIAL }
    }

    /// Makes room for the variables below a count.
    pub fn set_var_count(&mut self, count: usize)
        requires
            old(self).wf(),
        ensures
            final(self).wf(),
            final(self).vars() == old(self).vars(),
            final(self).step() == old(self).step(),
            forall|x: Var| #[trigger] final(self).activity(x) == old(self).activity(x),
    {
        let ghost before = self.heap;
        self.heap.set_var_count(count);
        assert forall|x: Var| #[trigger] self.heap.value(x) < RESCALE_LIMIT by {
            assert(self.heap.value(x) == before.value(x));
        }
    }

    /// A variable with the highest activity score.
    pub fn peek(&self) -> (var: Option<Var>)
        requires
            self.wf(),
        ensures
            match var {
                Some(var) => self.vars().contains(var) && forall|x: Var| #[trigger]
                    self.vars().contains(x) ==> self.activity(x) <= self.activity(var),
                None => self.vars() == Set::<Var>::empty(),
            },
    {
        self.heap.peek()
    }

    /// The activity of a variable.
    pub fn get_activity(&self, var: Var) -> (activity: u64)
        ensures
            activity == self.activity(var),
    {
        self.heap.get_value(var)
    }

    /// The scores after one more step for a variable; all of them are scaled
    /// down once the variable reaches the limit.
    pub open spec fn bumped(&self, after: Vsids, var: Var) -> bool {
        let sum = self.activity(var) + self.step();
        if sum < RESCALE_LIMIT {
            &&& after.step() == self.step()
            &&& after.activity(var) == sum
            &&& forall|x: Var| x != var ==> #[trigger] after.activity(x) == self.activity(x)
        } else {
            &&& after.step() == 1 + self.step() / RESCALE_FACTOR
            &&& after.activity(var) == sum / RESCALE_FACTOR as int
            &&& forall|x: Var| x != var ==> #[trigger] after.activity(x) == self.activity(x) / RESCALE_FACTOR
        }
    }

    /// Increases the activity score of the provided variable.
    pub fn bump(&mut self, var: Var)
        requires
            old(self).wf(),
        ensures
            final(self).wf(),
            final(self).vars() == old(self).vars(),
            old(self).bumped(*final(self), var),
    {
        let ghost before = self.heap;
        assert(self.heap.value(var) < RESCALE_LIMIT);
        let value = self.heap.get_value(var) + self.bump;
        self.heap.set_value(var, value);
        if value >= RESCALE_LIMIT {
            self.rescale();
        } else {
            assert forall|x: Var| #[trigger] self.heap.value(x) < RESCALE_LIMIT by {
                if x != var {
                    assert(self.heap.value(x) == before.value(x));
                }
            }
        }
    }

    /// Decays all variable activities.
    pub fn decay(&mut self)
        requires
            old(self).wf(),
        ensures
            final(self).wf(),
            final(self).vars() == old(self).vars(),
            ({
                let grown = old(self).step() + old(self).step() / 19;
                if grown < RESCALE_LIMIT {
                    &&& final(self).step() == grown
                    &&& forall|x: Var| #[trigger] final(self).activity(x) == old(self).activity(x)
                } else {
                    &&& final(self).step() == 1 + grown / RESCALE_FACTOR as int
                    &&& forall|x: Var| #[trigger] final(self).activity(x) == old(self).activity(x) / RESCALE_FACTOR
                }
            }),
    {
        self.bump = self.bump + self.bump / 19;
        if self.bump >= RESCALE_LIMIT {
            self.rescale();
        }
    }

    /// Rescales activities to prevent overflow.
    fn rescale(&mut self)
        requires
            old(self).heap.wf(),
        ensures
            final(self).wf(),
            final(self).vars() == old(self).vars(),
            final(self).step() == 1 + old(self).step() / RESCALE_FACTOR,
            forall|x: Var| #[trigger] final(self).activity(x) == old(self).activity(x) / RESCALE_FACTOR,
    {
        let ghost before = self.heap;
        self.heap.rescale(RESCALE_FACTOR);
        self.bump = 1 + self.bump / RESCALE_FACTOR;
        assert forall|x: Var| #[trigger] self.heap.value(x) < RESCALE_LIMIT by {
            assert(self.heap.value(x) == before.value(x) / RESCALE_FACTOR);
        }
    }

    /// Adds the provided variable.
    pub fn add(&mut self, var: Var)
        requires
            old(self).wf(),
        ensures
            final(self).wf(),
            final(self).vars() == old(self).vars().insert(var),
            final(self).step() == old(self).step(),
            forall|x: Var| #[trigger] final(self).activity(x) == old(self).activity(x),
    {
        let ghost before = self.heap;
        self.heap.add(var);
        assert forall|x: Var| #[trigger] self.heap.value(x) < RESCALE_LIMIT by {
            assert(self.heap.value(x) == before.value(x));
        }
    }

    /// Removes the provided variable.
    pub fn remove(&mut self, var: Var)
        requires
            old(self).wf(),
        ensures
            final(self).wf(),
            final(self).vars() == old(self).vars().remove(var),
            final(self).step() == old(self).step(),
            forall|x: Var| #[trigger] final(self).activity(x) == old(self).activity(x),
    {
        let ghost before = self.heap;
        self.heap.remove(var);
        assert forall|x: Var| #[trigger] self.heap.value(x) < RESCALE_LIMIT by {
            assert(self.heap.value(x) == before.value(x));
        }
    }
}

} // verus!
