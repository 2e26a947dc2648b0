//! The clauses of a search: the originals, and what was learnt from them.
use crate::clause::allocator::{Allocator, ClauseId};
use crate::clause::implied;
use crate::literal::Lit;
use crate::normal::copy_lits;
use crate::qcnf::matrix_of;
use crate::semantics::{clause_true, lit_true, matrix_true, Assignment, Matrix};
use crate::simplify::lemma_push_true;
use vstd::prelude::*;

verus! {

broadcast use crate::literal::group_literal;

/// The original clauses and everything allocated for them.
#[derive(Debug)]
pub struct Clauses {
    matrix: Vec<Vec<Lit>>,
    originals: Vec<ClauseId>,
    allocator: Allocator,
}

impl Clauses {
    /// The original clauses.
    pub closed spec fn matrix(&self) -> Matrix {
        matrix_of(self.matrix@)
    }

    /// The names of the original clauses.
    pub closed spec fn names(&self) -> Seq<ClauseId> {
        self.originals@
    }

    /// The literals of a clause, unless it was deleted.
    pub open spec fn lits(&self, cid: ClauseId) -> Option<Seq<Lit>> {
        if cid.0 < self.held().len() {
            self.held()[cid.0 as int]
        } else {
            None
        }
    }

    /// How often a clause is registered as an implication clause.
    pub closed spec fn registrations(&self, cid: ClauseId) -> u32 {
        if cid.0 < self.allocator.clauses().len() {
            self.allocator.locks()[cid.0 as int]
        } else {
            0
        }
    }

    /// Whether a clause is registered as an implication clause.
    pub open spec fn locked(&self, cid: ClauseId) -> bool {
        self.registrations(cid) > 0
    }

    /// The allocated clauses, by number.
    pub closed spec fn held(&self) -> Seq<Option<Seq<Lit>>> {
        self.allocator.clauses()
    }

    /// Every allocated clause follows from the original ones.
    pub closed spec fn wf(&self) -> bool {
        &&& self.allocator.wf()
        &&& forall|i: int| 0 <= i < self.held().len() && (#[trigger] self.held()[i]) is Some ==> implied(self.matrix(), self.held()[i]->0)
    }

    /// A clause that is held follows from the original ones.
    pub proof fn lemma_held(&self, cid: ClauseId)
        requires
            self.wf(),
        ensures
            self.lits(cid) matches Some(lits) ==> implied(self.matrix(), lits),
    {
    }

    /// No clauses.
    pub fn new() -> (clauses: Clauses)
        ensures
            clauses.wf(),
            clauses.matrix() == Matrix::empty(),
    {
        let clauses = Clauses { matrix: Vec::new(), originals: Vec::new(), allocator: Allocator::new() };
        assert(clauses.matrix() =~= Matrix::empty());
        clauses
    }

    /// The original clauses.
    pub fn originals(&self) -> (ids: &Vec<ClauseId>)
        ensures
            ids@ == self.names(),
    {
        &self.originals
    }

    /// The literals of the original clauses.
    pub fn original_lits(&self) -> (matrix: &Vec<Vec<Lit>>)
        ensures
            matrix_of(matrix@) == self.matrix(),
    {
        &self.matrix
    }

    /// The literals of a clause, unless it was deleted.
    pub fn get(&self, cid: ClauseId) -> (lits: Option<&Vec<Lit>>)
        requires
            self.wf(),
        ensures
            lits matches Some(lits) ==> implied(self.matrix(), lits@),
            match lits {
                Some(lits) => self.lits(cid) == Some(lits@),
                None => self.lits(cid) is None,
            },
    {
        self.allocator.get(cid)
    }

    /// Adds an original clause.
    pub fn add_original(&mut self, lits: &Vec<Lit>) -> (cid: ClauseId)
        requires
            old(self).wf(),
        ensures
            final(self).wf(),
            final(self).matrix() == old(self).matrix().push(lits@),
            final(self).names() == old(self).names().push(cid),
            final(self).held() == old(self).held().push(Some(lits@)),
            cid.0 == old(self).held().len(),
            forall|other: ClauseId| #[trigger] final(self).registrations(other) == old(self).registrations(other),
    {
        let ghost m = self.matrix();
        let ghost before = self.held();
        self.matrix.push(copy_lits(lits));
        let cid = self.allocator.insert(lits.as_slice());
        self.originals.push(cid);
        proof {
            assert(self.matrix() =~= m.push(lits@));
            assert forall|i: int| 0 <= i < self.held().len() && (#[trigger] self.held()[i]) is Some implies implied(
                self.matrix(),
                self.held()[i]->0,
            ) by {
                assert forall|a: Assignment| #[trigger] matrix_true(a, self.matrix()) implies clause_true(a, self.held()[i]->0) by {
                    lemma_push_true(a, m, lits@);
                    if i < before.len() {
                        assert(self.held()[i] == before[i]);
                        assert(implied(m, before[i]->0));
                    }
                }
            }
        }
        cid
    }

    /// Adds a clause that follows from the original ones.
    pub fn add_learnt(&mut self, lits: &Vec<Lit>) -> (cid: ClauseId)
        requires
            old(self).wf(),
            implied(old(self).matrix(), lits@),
        ensures
            final(self).wf(),
            final(self).matrix() == old(self).matrix(),
            final(self).names() == old(self).names(),
            final(self).held() == old(self).held().push(Some(lits@)),
            cid.0 == old(self).held().len(),
            forall|other: ClauseId| #[trigger] final(self).registrations(other) == old(self).registrations(other),
    {
        let ghost before = self.held();
        let cid = self.allocator.insert(lits.as_slice());
        proof {
            assert forall|i: int| 0 <= i < self.held().len() && (#[trigger] self.held()[i]) is Some implies implied(
                self.matrix(),
                self.held()[i]->0,
            ) by {
                if i < before.len() {
                    assert(self.held()[i] == before[i]);
                }
            }
        }
        cid
    }

    /// Marks a clause as registered implication clause.
    pub fn lock(&mut self, cid: ClauseId)
        requires
            old(self).wf(),
        ensures
            final(self).wf(),
            final(self).matrix() == old(self).matrix(),
            final(self).names() == old(self).names(),
            final(self).held() == old(self).held(),
            final(self).registrations(cid) == (if cid.0 < old(self).held().len() && old(self).registrations(cid) < u32::MAX {
                (old(self).registrations(cid) + 1) as u32
            } else {
                old(self).registrations(cid)
            }),
            forall|other: ClauseId| other != cid ==> #[trigger] final(self).registrations(other) == old(self).registrations(other),
    {
        self.allocator.lock(cid);
    }

    /// Removes one implication registration of a clause.
    pub fn unlock(&mut self, cid: ClauseId)
        requires
            old(self).wf(),
        ensures
            final(self).wf(),
            final(self).matrix() == old(self).matrix(),
            final(self).names() == old(self).names(),
            final(self).held() == old(self).held(),
            final(self).registrations(cid) == (if old(self).registrations(cid) > 0 {
                (old(self).registrations(cid) - 1) as u32
            } else {
                0
            }),
            forall|other: ClauseId| other != cid ==> #[trigger] final(self).registrations(other) == old(self).registrations(other),
    {
        self.allocator.unlock(cid);
    }

    /// Whether a clause is registered as an implication clause.
    pub fn is_locked(&self, cid: ClauseId) -> (locked: bool)
        requires
            self.wf(),
        ensures
            locked == self.locked(cid),
    {
        self.allocator.is_locked(cid)
    }

    /// Deletes a clause.
    pub fn delete(&mut self, cid: ClauseId)
        requires
            old(self).wf(),
        ensures
            final(self).wf(),
            final(self).matrix() == old(self).matrix(),
            final(self).names() == old(self).names(),
            final(self).held() == (if cid.0 < old(self).held().len() {
                old(self).held().update(cid.0 as int, None)
            } else {
                old(self).held()
            }),
            forall|other: ClauseId| #[trigger] final(self).registrations(other) == old(self).registrations(other),
    {
        let ghost before = self.held();
        self.allocator.delete(cid);
        proof {
            assert forall|i: int| 0 <= i < self.held().len() && (#[trigger] self.held()[i]) is Some implies implied(
                self.matrix(),
                self.held()[i]->0,
            ) by {
                assert(self.held()[i] == before[i]);
            }
        }
    }
}

/// What has the literals of an implied clause is implied.
pub proof fn lemma_implied_weaker(m: Matrix, c: Seq<Lit>, d: Seq<Lit>)
    requires
        implied(m, c),
        forall|l: Lit| c.contains(l) ==> #[trigger] d.contains(l),
    ensures
        implied(m, d),
{
    assert forall|a: Assignment| #[trigger] matrix_true(a, m) implies clause_true(a, d) by {
        assert(clause_true(a, c));
        let j = choose|j: int| 0 <= j < c.len() && lit_true(a, #[trigger] c[j]);
        assert(c.contains(c[j]));
        assert(d.contains(c[j]));
        let i = choose|i: int| 0 <= i < d.len() && d[i] == c[j];
        assert(lit_true(a, d[i]));
    }
}

/// A resolvent of implied clauses is implied.
pub proof fn lemma_implied_resolvent(m: Matrix, c: Seq<Lit>, d: Seq<Lit>, pivot: Lit, r: Seq<Lit>)
    requires
        implied(m, c),
        implied(m, d),
        forall|l: Lit| #[trigger] c.contains(l) && l != pivot.neg() ==> r.contains(l),
        forall|l: Lit| #[trigger] d.contains(l) && l != pivot ==> r.contains(l),
    ensures
        implied(m, r),
{
    assert forall|a: Assignment| #[trigger] matrix_true(a, m) implies clause_true(a, r) by {
        assert(clause_true(a, c));
        assert(clause_true(a, d));
        let j = choose|j: int| 0 <= j < c.len() && lit_true(a, #[trigger] c[j]);
        let k = choose|k: int| 0 <= k < d.len() && lit_true(a, #[trigger] d[k]);
        assert(c.contains(c[j]));
        assert(d.contains(d[k]));
        let l = if c[j] != pivot.neg() { c[j] } else { d[k] };
        assert(r.contains(l));
        let i = choose|i: int| 0 <= i < r.len() && r[i] == l;
        assert(lit_true(a, r[i]));
    }
}

} // verus!
