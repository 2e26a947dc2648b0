//! Interleaved case splits.
//!
//! Once the search stalls, a universal literal is *assumed*: the variable
//! is assigned as a constant at a fresh decision level, which restricts all
//! determinacy and conflict checks to the halved universal domain. When
//! every existential variable is assigned while case assumptions are
//! active, the case is *closed*: the current functions and the cube of the
//! assumptions are recorded, the cube is excluded from future conflict
//! checks, and the search goes on below the assumptions. Unsatisfiability
//! of the negated cubes means that the whole domain is covered.
use crate::incdet::determinacy::{lemma_model_assignment, model_assignment};
use crate::incdet::model::Region;
use crate::incdet::propagation::assignment::Value;
use crate::incdet::propagation::trail::DecLvl;
use crate::incdet::state::{negate_all, sides, State};
use crate::literal::{Lit, Var};
use crate::sat::{clauses_ok, consistent, lit_ok, lits_ok, SatOutcome, SatSolver};
use crate::quantifier::QuantTy;
use crate::semantics::{clause_mentions, clause_true, cube_true, lit_true, matrix_true, Assignment};
use crate::simplify::lemma_push_true;
use vstd::prelude::*;

verus! {

broadcast use crate::literal::group_literal;

/// What was done when the search stalled.
#[derive(Debug, Clone, Copy, PartialEq, Eq, Structural)]
pub enum CaseAction {
    /// A new case assumption was made, the search continues inside it.
    Assumed,
    /// The remaining universal domain is empty.
    DomainEmpty,
    /// There is no universal variable to split on.
    NoUniversals,
}

impl State {
    /// Whether case assumptions are currently active.
    pub(crate) fn casesplits_active(&self) -> (active: bool)
        ensures
            active == (self.active@.len() > 0),
    {
        self.active.len() > 0
    }

    /// The assignment is outside the first handled regions over universal
    /// variables.
    pub(crate) open spec fn remaining(&self, a: Assignment, count: int) -> bool {
        forall|i: int| 0 <= i < count && self.universal_cube(self.handled_cases@[i].spec_cube()) ==> !cube_true(
            a,
            (#[trigger] self.handled_cases@[i]).spec_cube(),
        )
    }

    /// Every literal is universal.
    pub(crate) open spec fn universal_cube(&self, cube: Seq<Lit>) -> bool {
        forall|i: int| 0 <= i < cube.len() ==> self.quantified((#[trigger] cube[i]).v(), QuantTy::Forall)
    }

    /// The literals of the active case assumptions.
    pub(crate) open spec fn active_cube(&self) -> Seq<Lit> {
        Seq::new(self.active@.len(), |i: int| self.active@[i].0)
    }

    /// The universal variable occurs and is not assigned.
    pub(crate) open spec fn splittable(&self, x: Var) -> bool {
        &&& self.universals@.contains(x)
        &&& !self.assignment@.contains_key(x)
        &&& exists|l: Lit| l.v() == x && (#[trigger] self.occurrences.row(l.id())).len() > 0
    }

    /// The number of original clauses that the variable occurs in.
    pub(crate) open spec fn frequency(&self, x: Var) -> int {
        let sum = self.occurrences.row(2 * x.id()).len() + self.occurrences.row(2 * x.id() + 1).len();
        if sum > usize::MAX {
            usize::MAX as int
        } else {
            sum as int
        }
    }

    /// The first variable is not to be split on before the second: it is
    /// less frequent, or as frequent and not larger.
    pub(crate) open spec fn no_better(&self, x: Var, y: Var) -> bool {
        self.frequency(x) < self.frequency(y) || self.frequency(x) == self.frequency(y) && x.id() <= y.id()
    }

    /// The variable is the one to split on: the most frequent one, and the
    /// largest of several.
    pub(crate) open spec fn preferred(&self, x: Var) -> bool {
        self.splittable(x) && forall|y: Var| #[trigger] self.splittable(y) ==> self.no_better(y, x)
    }

    /// The literal holds somewhere in what remains of the active case.
    pub(crate) open spec fn in_domain(&self, lit: Lit) -> bool {
        exists|a: Assignment| #[trigger]
            cube_true(a, self.active_cube()) && self.remaining(a, self.handled_cases@.len() as int) && lit_true(a, lit)
    }

    /// A universal literal is assumed at a decision level of its own.
    pub(crate) open spec fn assumed_case(&self, before: &State, lit: Lit) -> bool {
        &&& *self == (State {
            trail: self.trail,
            assignment: self.assignment,
            levels: self.levels,
            active: self.active,
            propagation: self.propagation,
            ..*before
        })
        &&& self.trail.lits() == before.trail.lits().push(lit)
        &&& self.trail.starts() == before.trail.starts().push(before.trail.lits().len() as usize)
        &&& self.assignment@ == before.assignment@.insert(lit.v(), if lit.pos() { Value::True } else { Value::False })
        &&& self.levels@ == before.levels@.insert(lit.v(), DecLvl(self.trail.starts().len() as usize))
        &&& self.active@ == before.active@.push((lit, DecLvl(before.trail.starts().len() as usize)))
        &&& before.propagation.vars().subset_of(self.propagation.vars())
    }

    /// The active case is recorded as handled by the current functions and
    /// left.
    pub(crate) open spec fn closed_case(&self, before: &State) -> bool {
        &&& self.handled_cases@.len() == before.handled_cases@.len() + 1
        &&& self.handled_cases@.drop_last() == before.handled_cases@
        &&& self.handled_cases@.last() matches Region::Closed { cube, chain } && cube@ == before.active_cube() && Seq::new(
            chain@.len(),
            |i: int| chain@[i].0,
        ) == before.existential_trail(before.trail.lits().len() as int)
        &&& self.committed@.len() == 0
        &&& self.undone(
            &(State { stats: self.stats, handled_cases: self.handled_cases, committed: self.committed, ..*before }),
            before.active@[0].1,
        )
    }

    /// The back end has numbers for the variables of the active case and of
    /// the handled ones.
    pub(crate) open spec fn cases_numbered(&self) -> bool {
        &&& lits_ok(self.active_cube())
        &&& forall|i: int| 0 <= i < self.handled_cases@.len() ==> lits_ok((#[trigger] self.handled_cases@[i]).spec_cube())
    }

    /// What opening a case did.
    pub(crate) open spec fn opened(&self, before: &State, action: CaseAction) -> bool {
        let none_left = forall|a: Assignment|
            #![trigger cube_true(a, before.active_cube())]
            cube_true(a, before.active_cube()) ==> !before.remaining(a, before.handled_cases@.len() as int);
        match action {
            CaseAction::Assumed => {
                ||| before.active@.len() > 0 && none_left && self.closed_case(before)
                ||| exists|lit: Lit| #[trigger]
                    self.assumed_case(&(State { committed: self.committed, ..*before }), lit) && self.committed@ == before.committed@.push(lit)
                        && before.preferred(lit.v()) && before.in_domain(lit)
            },
            CaseAction::DomainEmpty => *self == *before && before.active@.len() == 0 && none_left,
            CaseAction::NoUniversals => {
                ||| *self == (State { fuel: 0, ..*before }) && !before.cases_numbered()
                ||| *self == *before && forall|x: Var| !#[trigger] before.splittable(x)
            },
        }
    }

    /// Assumes a universal literal from the remaining domain, or detects
    /// that the domain is fully handled.
    pub(crate) fn open_case(&mut self) -> (action: CaseAction)
        requires
            old(self).wf(),
        ensures
            final(self).keeps(old(self)),
            final(self).opened(old(self), action),
    {
        // the next assumption must lie in the remaining domain, and inside
        // the active case
        let mut domain = SatSolver::new();
        let mut k: usize = 0;
        while k < self.handled_cases.len()
            invariant
                k <= self.handled_cases@.len(),
                domain.wf(),
                forall|a: Assignment| #[trigger] matrix_true(a, domain.clauses()) <==> self.remaining(a, k as int),
                self.cases_numbered() ==> clauses_ok(domain.clauses()),
            decreases self.handled_cases.len() - k,
        {
            let ghost held = domain.clauses();
            let cube = self.handled_cases[k].cube();
            if self.cube_is_universal(cube) {
                let exclusion = negate_all(cube);
                domain.add_clause(&exclusion);
                proof {
                    if self.cases_numbered() {
                        assert(lits_ok(self.handled_cases@[k as int].spec_cube()));
                        assert forall|i: int| 0 <= i < exclusion@.len() implies lit_ok(#[trigger] exclusion@[i]) by {
                            assert(lit_ok(cube@[i]));
                        }
                    }
                    assert forall|a: Assignment| #[trigger] matrix_true(a, domain.clauses()) <==> self.remaining(a, k as int + 1) by {
                        lemma_push_true(a, held, exclusion@);
                        assert(matrix_true(a, held) <==> self.remaining(a, k as int));
                        lemma_negated_cube(a, cube@, exclusion@);
                        if self.remaining(a, k as int + 1) {
                            assert(!cube_true(a, self.handled_cases@[k as int].spec_cube()));
                        }
                    }
                }
            } else {
                proof {
                    assert forall|a: Assignment| #[trigger] matrix_true(a, domain.clauses()) <==> self.remaining(a, k as int + 1) by {
                        assert(matrix_true(a, held) <==> self.remaining(a, k as int));
                    }
                }
            }
            k += 1;
        }
        let mut assumptions: Vec<Lit> = Vec::new();
        let mut k: usize = 0;
        while k < self.active.len()
            invariant
                k <= self.active@.len(),
                assumptions@.len() == k,
                forall|i: int| 0 <= i < k ==> #[trigger] assumptions@[i] == self.active@[i].0,
            decreases self.active.len() - k,
        {
            assumptions.push(self.active[k].0);
            k += 1;
        }
        assert(assumptions@ =~= self.active_cube());
        let model = match domain.solve_with_assumptions(&assumptions) {
            SatOutcome::Sat(model) => model,
            SatOutcome::Unsat => {
                assert forall|a: Assignment|
                    #![trigger cube_true(a, self.active_cube())]
                    cube_true(a, self.active_cube()) implies !self.remaining(a, self.handled_cases@.len() as int) by {
                    assert(!matrix_true(a, domain.clauses()));
                }
                if self.active.len() == 0 {
                    return CaseAction::DomainEmpty;
                }
                // the active case has no remaining domain, close it
                self.close_cases();
                return CaseAction::Assumed;
            },
            SatOutcome::OutOfRange => {
                self.fuel = 0;
                return CaseAction::NoUniversals;
            },
        };
        // the most frequent universal variable that is not assigned
        let mut candidate: Option<Var> = None;
        let mut most: usize = 0;
        let mut k: usize = 0;
        while k < self.universals.len()
            invariant
                k <= self.universals@.len(),
                match candidate {
                    Some(var) => self.splittable(var) && most == self.frequency(var) && forall|i: int|
                        0 <= i < k && self.splittable(#[trigger] self.universals@[i]) ==> self.no_better(self.universals@[i], var),
                    None => most == 0 && forall|i: int| 0 <= i < k ==> !self.splittable(#[trigger] self.universals@[i]),
                },
            decreases self.universals.len() - k,
        {
            let var = self.universals[k];
            let positive = var.positive();
            let negative = var.negative();
            let count = self.occurrences.count(positive.as_index()).saturating_add(self.occurrences.count(negative.as_index()));
            proof {
                assert(self.universals@.contains(self.universals@[k as int]));
                if count > 0 {
                    assert(self.occurrences.row(positive.id()).len() > 0 || self.occurrences.row(negative.id()).len() > 0);
                }
                if self.splittable(var) {
                    let l = choose|l: Lit| l.v() == var && (#[trigger] self.occurrences.row(l.id())).len() > 0;
                    if l.pos() {
                        crate::literal::lemma_lit_ext(l, positive);
                    } else {
                        crate::literal::lemma_lit_ext(l, negative);
                    }
                }
            }
            assert(count == self.frequency(var));
            let ahead = match candidate {
                Some(other) => count > most || count == most && other.as_index() <= var.as_index(),
                None => true,
            };
            if count > 0 && ahead && !self.assignment.is_assigned(var) {
                candidate = Some(var);
                most = count;
            }
            k += 1;
        }
        let var = match candidate {
            Some(var) => var,
            None => {
                proof {
                    assert forall|x: Var| !#[trigger] self.splittable(x) by {
                        if self.splittable(x) {
                            let i = choose|i: int| 0 <= i < self.universals@.len() && self.universals@[i] == x;
                            assert(!self.splittable(self.universals@[i]));
                        }
                    }
                }
                return CaseAction::NoUniversals;
            },
        };
        proof {
            assert forall|y: Var| #[trigger] self.splittable(y) implies self.no_better(y, var) by {
                let i = choose|i: int| 0 <= i < self.universals@.len() && self.universals@[i] == y;
                assert(self.splittable(self.universals@[i]));
            }
        }
        // the positive polarity if the variable is unconstrained
        let negative = var.negative();
        let stays = crate::simplify::contains_lit(&model, negative);
        let lit = if stays {
            negative
        } else {
            var.positive()
        };
        proof {
            let held = model@.push(lit);
            assert forall|i: int| 0 <= i < model@.len() && (#[trigger] model@[i]).v() == var implies model@[i].pos() == lit.pos() by {
                if stays {
                    let j = choose|j: int| 0 <= j < model@.len() && model@[j] == lit;
                    assert(model@[i].v() == model@[j].v());
                } else if !model@[i].pos() {
                    crate::literal::lemma_lit_ext(model@[i], lit.neg());
                    crate::literal::lemma_lit_ext(lit.neg(), negative);
                    assert(model@.contains(negative));
                }
            }
            assert(consistent(held)) by {
                assert forall|i: int, j: int|
                    0 <= i < held.len() && 0 <= j < held.len() && #[trigger] held[i].v() == #[trigger] held[j].v() implies held[i].pos()
                    == held[j].pos() by {
                    if i < model@.len() {
                        assert(held[i] == model@[i]);
                    }
                    if j < model@.len() {
                        assert(held[j] == model@[j]);
                    }
                }
            }
            let a = model_assignment(held);
            lemma_model_assignment(held);
            assert forall|i: int| 0 <= i < model@.len() implies lit_true(a, #[trigger] model@[i]) by {
                assert(held[i] == model@[i]);
            }
            assert(held[held.len() - 1] == lit);
            assert(cube_true(a, model@));
            assert(matrix_true(a, domain.clauses()));
            assert(self.in_domain(lit));
        }
        self.committed.push(lit);
        self.assume_universal(lit);
        CaseAction::Assumed
    }

    /// Establishes the next committed case assumption that a backtrack
    /// undid; whether there was one.
    pub(crate) fn reassume_cases(&mut self) -> (assumed: bool)
        requires
            old(self).wf(),
        ensures
            final(self).keeps(old(self)),
            assumed == (old(self).active@.len() < old(self).committed@.len()),
            assumed ==> final(self).assumed_case(old(self), old(self).committed@[old(self).active@.len() as int]),
            !assumed ==> *final(self) == *old(self),
    {
        if self.active.len() >= self.committed.len() {
            return false;
        }
        let lit = self.committed[self.active.len()];
        self.assume_universal(lit);
        true
    }

    /// Assumes a universal literal: the variable becomes a constant at a
    /// fresh decision level, restricting all checks to the halved domain.
    fn assume_universal(&mut self, lit: Lit)
        requires
            old(self).wf(),
        ensures
            final(self).keeps(old(self)),
            final(self).assumed_case(old(self), lit),
    {
        let below = self.trail.decision_level();
        self.trail.add_decision(lit);
        self.assignment.assign_constant(lit);
        self.levels.insert(lit.var(), self.trail.decision_level());
        self.active.push((lit, below));
        self.requeue_mentioning(lit.var());
    }

    /// Queues the determinacy checks that an assumed constant can change:
    /// those of variables whose implications mention it.
    pub(crate) fn requeue_mentioning(&mut self, var: Var)
        requires
            old(self).wf(),
        ensures
            final(self).keeps(old(self)),
            final(self).requeued(old(self)),
            final(self).pure_queue == old(self).pure_queue,
            final(self).pure_queued == old(self).pure_queued,
            forall|x: Var| #[trigger]
                final(self).propagation.vars().contains(x) <==> old(self).propagation.vars().contains(x) || old(self).existentials@.contains(x)
                    && old(self).affected(x, var),
    {
        let mut k: usize = 0;
        while k < self.existentials.len()
            invariant
                k <= self.existentials@.len(),
                self.existentials == old(self).existentials,
                forall|x: Var| #[trigger]
                    self.propagation.vars().contains(x) <==> old(self).propagation.vars().contains(x) || old(self).existentials@.take(
                        k as int,
                    ).contains(x) && old(self).affected(x, var),
                self.keeps(old(self)),
                self.requeued(old(self)),
                self.pure_queue == old(self).pure_queue,
                self.pure_queued == old(self).pure_queued,
            decreases self.existentials.len() - k,
        {
            let other = self.existentials[k];
            proof {
                let part = self.existentials@.take(k as int);
                assert(self.existentials@.take(k as int + 1) =~= part.push(other));
                assert forall|x: Var| #[trigger] self.existentials@.take(k as int + 1).contains(x) <==> part.contains(x) || x == other by {
                    crate::datastructure::lemma_push_contains(part, other, x);
                }
                self.lemma_affected(old(self), other, var);
            }
            let positive = other.positive();
            let negative = other.negative();
            assert(sides(other, positive, negative));
            if !self.assignment.is_assigned(other) && (self.mentions(positive, var) || self.mentions(negative, var)) {
                self.queue_determinacy_check(other);
            }
            k += 1;
        }
        assert(self.existentials@.take(self.existentials@.len() as int) =~= self.existentials@);
    }

    /// The variable is open, and an implication clause of one of its
    /// literals mentions another variable.
    pub(crate) open spec fn affected(&self, x: Var, var: Var) -> bool {
        !self.assignment@.contains_key(x) && exists|l: Lit, k: int| l.v() == x && #[trigger] self.mentions_at(l, var, k)
    }

    proof fn lemma_affected(&self, before: &State, x: Var, var: Var)
        requires
            self.assignment == before.assignment,
            self.skolem == before.skolem,
            self.clauses == before.clauses,
        ensures
            self.affected(x, var) == before.affected(x, var),
            forall|p: Lit, n: Lit| #[trigger]
                sides(x, p, n) ==> (self.affected(x, var) <==> !self.assignment@.contains_key(x) && ((exists|k: int| #[trigger]
                    self.mentions_at(p, var, k)) || exists|k: int| #[trigger] self.mentions_at(n, var, k))),
    {
        assert forall|l: Lit, k: int| #[trigger] self.mentions_at(l, var, k) == before.mentions_at(l, var, k) by {}
        if self.affected(x, var) {
            let (l, k) = choose|l: Lit, k: int| l.v() == x && #[trigger] self.mentions_at(l, var, k);
            assert(before.mentions_at(l, var, k));
        }
        if before.affected(x, var) {
            let (l, k) = choose|l: Lit, k: int| l.v() == x && #[trigger] before.mentions_at(l, var, k);
            assert(self.mentions_at(l, var, k));
        }
        assert forall|p: Lit, n: Lit| #[trigger] sides(x, p, n) implies (self.affected(x, var) <==> !self.assignment@.contains_key(x) && ((
        exists|k: int| #[trigger] self.mentions_at(p, var, k)) || exists|k: int| #[trigger] self.mentions_at(n, var, k))) by {
            if self.affected(x, var) {
                let (l, k) = choose|l: Lit, k: int| l.v() == x && #[trigger] self.mentions_at(l, var, k);
                crate::literal::lemma_lit_ext(l, if l.pos() { p } else { n });
            }
        }
    }

    /// An implication clause of a literal mentions a variable.
    pub(crate) open spec fn mentions_at(&self, lit: Lit, var: Var, k: int) -> bool {
        &&& 0 <= k < self.skolem.of(lit).len()
        &&& match self.clauses.lits(self.skolem.of(lit)[k].clause) {
            Some(lits) => clause_mentions(lits, var),
            None => false,
        }
    }

    /// Whether an implication clause of a literal mentions a variable.
    fn mentions(&self, lit: Lit, var: Var) -> (found: bool)
        requires
            self.wf(),
        ensures
            found == exists|k: int| #[trigger] self.mentions_at(lit, var, k),
    {
        let count = self.skolem.count(lit);
        let mut k: usize = 0;
        while k < count
            invariant
                self.wf(),
                k <= count,
                count == self.skolem.of(lit).len(),
                forall|i: int| i < k ==> !#[trigger] self.mentions_at(lit, var, i),
            decreases count - k,
        {
            match self.clauses.get(self.skolem.at(lit, k).clause) {
                Some(lits) => {
                    let mut j: usize = 0;
                    while j < lits.len()
                        invariant
                            j <= lits@.len(),
                            k < self.skolem.of(lit).len(),
                            self.clauses.lits(self.skolem.of(lit)[k as int].clause) == Some(lits@),
                            forall|i: int| 0 <= i < j ==> (#[trigger] lits@[i]).v() != var,
                        decreases lits.len() - j,
                    {
                        if lits[j].var() == var {
                            assert(clause_mentions(lits@, var));
                            assert(self.mentions_at(lit, var, k as int));
                            return true;
                        }
                        j += 1;
                    }
                },
                None => {},
            }
            k += 1;
        }
        false
    }

    /// Closes all active cases: the current functions cover the cube of
    /// the active assumptions.
    pub(crate) fn close_cases(&mut self)
        requires
            old(self).wf(),
        ensures
            final(self).keeps(old(self)),
            if old(self).active@.len() == 0 {
                *final(self) == *old(self)
            } else {
                final(self).closed_case(old(self))
            },
    {
        if self.active.len() == 0 {
            return;
        }
        let mut cube: Vec<Lit> = Vec::new();
        let mut k: usize = 0;
        while k < self.active.len()
            invariant
                k <= self.active@.len(),
                cube@.len() == k,
                forall|i: int| 0 <= i < k ==> #[trigger] cube@[i] == self.active@[i].0,
            decreases self.active.len() - k,
        {
            cube.push(self.active[k].0);
            k += 1;
        }
        assert(cube@ =~= self.active_cube());
        let below = self.active[0].1;
        let chain = self.snapshot_functions();
        self.stats.cases = self.stats.cases.saturating_add(1);
        self.handled_cases.push(Region::Closed { cube, chain });
        self.committed = Vec::new();
        assert(self.handled_cases@.drop_last() =~= old(self).handled_cases@);
        self.backtrack_to(below);
    }

    fn cube_is_universal(&self, cube: &Vec<Lit>) -> (all: bool)
        ensures
            all == self.universal_cube(cube@),
    {
        let mut k: usize = 0;
        while k < cube.len()
            invariant
                k <= cube@.len(),
                forall|i: int| 0 <= i < k ==> self.quantified((#[trigger] cube@[i]).v(), QuantTy::Forall),
            decreases cube.len() - k,
        {
            if !self.is_universal(cube[k].var()) {
                return false;
            }
            k += 1;
        }
        true
    }
}

/// The negations of a cube's literals are a clause that holds outside it.
proof fn lemma_negated_cube(a: Assignment, cube: Seq<Lit>, c: Seq<Lit>)
    requires
        c.len() == cube.len(),
        forall|i: int| 0 <= i < cube.len() ==> #[trigger] c[i] == cube[i].neg(),
    ensures
        clause_true(a, c) == !cube_true(a, cube),
{
    if clause_true(a, c) {
        let i = choose|i: int| 0 <= i < c.len() && lit_true(a, #[trigger] c[i]);
        assert(!lit_true(a, cube[i]));
    }
    if !cube_true(a, cube) {
        let i = choose|i: int| 0 <= i < cube.len() && !lit_true(a, #[trigger] cube[i]);
        assert(lit_true(a, c[i]));
    }
}

} // verus!
