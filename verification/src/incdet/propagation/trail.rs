//! The assignments in chronological order.
use crate::literal::Lit;
use vstd::prelude::*;

verus! {

/// A decision level.
#[derive(Debug, Clone, Copy, PartialEq, Eq, Structural)]
pub struct DecLvl(pub usize);

impl DecLvl {
    /// The level before any decision.
    pub fn root() -> (lvl: DecLvl)
        ensures
            lvl.0 == 0,
    {
        DecLvl(0)
    }

    /// Whether no decision was made.
    pub fn is_root(self) -> (root: bool)
        ensures
            root == (self.0 == 0),
    {
        self.0 == 0
    }
}

/// Assigned literals in chronological order.
#[derive(Debug)]
pub struct Trail {
    /// List of assignments in chronological order
    trail: Vec<Lit>,
    /// Indices into trail marking the decision levels
    decisions: Vec<usize>,
}

impl Trail {
    /// The assigned literals.
    pub closed spec fn lits(&self) -> Seq<Lit> {
        self.trail@
    }

    /// Where each decision level starts.
    pub closed spec fn starts(&self) -> Seq<usize> {
        self.decisions@
    }

    /// Every level starts with a literal of the trail, after the one
    /// before it.
    pub open spec fn wf(&self) -> bool {
        &&& forall|i: int| 0 <= i < self.starts().len() ==> (#[trigger] self.starts()[i]) < self.lits().len()
        &&& forall|i: int, j: int| 0 <= i < j < self.starts().len() ==> (#[trigger] self.starts()[i]) < (#[trigger] self.starts()[j])
    }

    /// An empty trail.
    pub fn new() -> (trail: Trail)
        ensures
            trail.wf(),
            trail.lits() == Seq::<Lit>::empty(),
            trail.starts() == Seq::<usize>::empty(),
    {
        Trail { trail: Vec::new(), decisions: Vec::new() }
    }

    /// Adds an assignment.
    pub fn push(&mut self, lit: Lit)
        requires
            old(self).wf(),
        ensures
            final(self).wf(),
            final(self).lits() == old(self).lits().push(lit),
            final(self).starts() == old(self).starts(),
    {
        self.trail.push(lit);
        assert(self.starts() == old(self).starts());
        assert forall|i: int| 0 <= i < self.starts().len() implies (#[trigger] self.starts()[i]) < self.lits().len() by {
            assert(old(self).starts()[i] < old(self).lits().len());
        }
    }

    /// The current decision level.
    pub fn decision_level(&self) -> (lvl: DecLvl)
        ensures
            lvl.0 == self.starts().len(),
    {
        DecLvl(self.decisions.len())
    }

    /// Adds an assignment as a decision.
    pub fn add_decision(&mut self, lit: Lit)
        requires
            old(self).wf(),
        ensures
            final(self).wf(),
            final(self).lits() == old(self).lits().push(lit),
            final(self).starts() == old(self).starts().push(old(self).lits().len() as usize),
    {
        let start = self.trail.len();
        self.trail.push(lit);
        self.decisions.push(start);
        assert forall|i: int| 0 <= i < self.starts().len() implies (#[trigger] self.starts()[i]) < self.lits().len() by {
            if i < old(self).starts().len() {
                assert(old(self).starts()[i] < old(self).lits().len());
            }
        }
        assert forall|i: int, j: int| 0 <= i < j < self.starts().len() implies (#[trigger] self.starts()[i]) < (#[trigger] self.starts()[j]) by {
            assert(old(self).starts()[i] < old(self).lits().len());
            if j < old(self).starts().len() {
                assert(old(self).starts()[i] < old(self).starts()[j]);
            }
        }
    }

    /// The number of assignments.
    pub fn len(&self) -> (len: usize)
        ensures
            len == self.lits().len(),
    {
        self.trail.len()
    }

    /// The assignment at a position.
    pub fn at(&self, position: usize) -> (lit: Lit)
        requires
            position < self.lits().len(),
        ensures
            lit == self.lits()[position as int],
    {
        self.trail[position]
    }

    /// The literal was assigned as a decision.
    pub open spec fn decided(&self, lit: Lit) -> bool {
        exists|i: int| 0 <= i < self.starts().len() && self.lits()[(#[trigger] self.starts()[i]) as int] == lit
    }

    /// Whether the literal was assigned as a decision.
    pub fn is_decision(&self, lit: Lit) -> (decided: bool)
        requires
            self.wf(),
        ensures
            decided == self.decided(lit),
    {
        let mut k: usize = 0;
        while k < self.decisions.len()
            invariant
                k <= self.decisions@.len(),
                self.wf(),
                forall|i: int| 0 <= i < k ==> self.lits()[(#[trigger] self.starts()[i]) as int] != lit,
            decreases self.decisions.len() - k,
        {
            assert(self.starts()[k as int] < self.lits().len());
            if self.trail[self.decisions[k]] == lit {
                return true;
            }
            k += 1;
        }
        false
    }

    /// Undoes all levels above the given one and returns what was
    /// assigned there, latest first.
    pub fn backtrack_to(&mut self, lvl: DecLvl) -> (removed: Vec<Lit>)
        requires
            old(self).wf(),
        ensures
            final(self).wf(),
            lvl.0 >= old(self).starts().len() ==> final(self).lits() == old(self).lits() && final(self).starts() == old(self).starts()
                && removed@.len() == 0,
            lvl.0 < old(self).starts().len() ==> {
                let start = old(self).starts()[lvl.0 as int] as int;
                &&& final(self).starts() == old(self).starts().take(lvl.0 as int)
                &&& final(self).lits() == old(self).lits().take(start)
                &&& removed@ == old(self).lits().skip(start).reverse()
            },
    {
        let mut removed: Vec<Lit> = Vec::new();
        if lvl.0 >= self.decisions.len() {
            return removed;
        }
        let ghost lits = self.trail@;
        let ghost starts = self.decisions@;
        assert(self.starts()[lvl.0 as int] < self.lits().len());
        let start = self.decisions[lvl.0];
        self.decisions.truncate(lvl.0);
        assert(self.decisions@ =~= starts.take(lvl.0 as int));
        while self.trail.len() > start
            invariant
                self.decisions@ == starts.take(lvl.0 as int),
                start <= self.trail@.len() <= lits.len(),
                self.trail@ =~= lits.take(self.trail@.len() as int),
                removed@ =~= lits.skip(self.trail@.len() as int).reverse(),
            decreases self.trail.len(),
        {
            match self.trail.pop() {
                Some(lit) => {
                    removed.push(lit);
                },
                None => {},
            }
        }
        assert(self.starts() =~= starts.take(lvl.0 as int));
        assert forall|i: int| 0 <= i < self.starts().len() implies (#[trigger] self.starts()[i]) < self.lits().len() by {
            assert(old(self).starts()[i] < old(self).starts()[lvl.0 as int]);
        }
        assert forall|i: int, j: int| 0 <= i < j < self.starts().len() implies (#[trigger] self.starts()[i]) < (#[trigger] self.starts()[j]) by {
            assert(old(self).starts()[i] < old(self).starts()[j]);
        }
        removed
    }
}

} // verus!
