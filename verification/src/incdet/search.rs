//! The search of incremental determinization.
use crate::clause::allocator::ClauseId;
use crate::clause::implied;
use crate::datastructure::{LitSet, VarMap, VarSet};
use crate::incdet::casesplit::CaseAction;
use crate::incdet::cegar::{load_clauses, minimize_cube, tight, values_of_lits, within};
use crate::incdet::certify::{conclude, conclusion_ok, Conclusion};
use crate::incdet::conflict::analysis::{find_reason, forced_alone, lemma_minimized, reason_at, reason_lits, resolve, resolvent, Redundancy};
use crate::incdet::load::Core;
use crate::incdet::model::{commit, Region};
use crate::incdet::propagation::assignment::{constant_of, Value};
use crate::incdet::propagation::trail::DecLvl;
use crate::incdet::restart::{luby, RESTART_INTERVAL};
use crate::incdet::state::{contains, negate_all, sides, Conflict, PureStep, State};
use crate::incdet::vsids::Vsids;
use crate::literal::{Lit, Var};
use crate::normal::copy_lits;
use crate::qcnf::{assignment_of, matrix_of};
use crate::quantifier::QuantTy;
use crate::sat::{clauses_ok, lits_ok, SatOutcome, SatSolver};
use crate::semantics::{clause_mentions, cube_true, matrix_true, mentions, Assignment, Matrix};
use crate::simplify::same_lits;
use crate::SolverResult;
use vstd::prelude::*;

verus! {

broadcast use crate::literal::group_literal;

/// Number of learnt clauses after which the next clause deletion runs.
pub const REDUCTION_INCREMENT: usize = 2000;

/// Number of assumption violations per query before the query gives up.
pub const QUERY_VIOLATION_BUDGET: u32 = 8;

/// Number of initial rounds that run regardless of effectiveness.
pub const BOOTSTRAP_ROUNDS: u32 = 8;

/// How deep the redundancy of a literal is followed.
pub const REDUNDANCY_DEPTH: u32 = 64;

/// The outcome of a round that asks for a response.
#[derive(Debug, Clone, Copy, PartialEq, Eq, Structural)]
pub enum CegarOutcome {
    /// The conflicting assignment has no existential response.
    Unsatisfiable,
    /// The recorded response covers every universal assignment.
    Satisfiable,
    /// A case was recorded and excluded from future conflict checks.
    CaseRecorded,
}

/// Result of establishing the next query assumption.
#[derive(Debug)]
pub enum QueryStep {
    /// All query assumptions hold.
    Nothing,
    /// An assumption was assumed; propagation must run before the next.
    Assumed,
    /// An implication clause of the opposite polarity fires.
    Conflict(Conflict),
    /// The assumption variable is forced to the opposite constant.
    Unsat,
    /// The assumption variable acquired a function of its own.
    Abort,
}

/// What the analysis of a conflict gives.
#[derive(Debug)]
pub enum Analysis {
    /// A clause to learn and the level to go back to.
    Learn(Vec<Lit>, DecLvl),
    /// A clause whose existential literals are all of the root level.
    Root(Vec<Lit>),
    /// No clause can be derived.
    Failed,
}

/// The new moving average of cube sizes, in 1024ths: the newest size has
/// the weight of one tenth.
pub open spec fn averaged(average: u64, size: usize) -> int {
    (average as int / 10) * 9 + (if size < 1_000_000_000 { size as int } else { 1_000_000_000 }) * 1024 / 10
}

impl State {
    /// The universal literals.
    pub(crate) open spec fn is_universal_part(&self, lits: Seq<Lit>, part: Seq<Lit>) -> bool {
        forall|l: Lit| #[trigger] part.contains(l) <==> lits.contains(l) && self.quantified(l.v(), QuantTy::Forall)
    }

    /// The universal literals among those given.
    fn universal_part(&self, lits: &Vec<Lit>) -> (part: Vec<Lit>)
        ensures
            self.is_universal_part(lits@, part@),
    {
        let mut part: Vec<Lit> = Vec::new();
        let mut k: usize = 0;
        assert(lits@.take(0) =~= Seq::<Lit>::empty());
        while k < lits.len()
            invariant
                k <= lits@.len(),
                self.is_universal_part(lits@.take(k as int), part@),
            decreases lits.len() - k,
        {
            let ghost before = part@;
            if self.is_universal(lits[k].var()) {
                part.push(lits[k]);
            }
            proof {
                let some = lits@.take(k as int);
                assert(lits@.take(k as int + 1) =~= some.push(lits@[k as int]));
                assert forall|l: Lit| #[trigger] part@.contains(l) <==> lits@.take(k as int + 1).contains(l) && self.quantified(
                    l.v(),
                    QuantTy::Forall,
                ) by {
                    crate::datastructure::lemma_push_contains(some, lits@[k as int], l);
                    crate::datastructure::lemma_push_contains(before, lits@[k as int], l);
                    assert(before.contains(l) <==> some.contains(l) && self.quantified(l.v(), QuantTy::Forall));
                }
            }
            k += 1;
        }
        assert(lits@.take(lits@.len() as int) =~= lits@);
        part
    }

    /// Records the universal part of a conflicting assignment as the move
    /// of the universal player.
    pub(crate) fn record_unsat_witness(&mut self, conflicting: &Vec<Lit>)
        requires
            old(self).wf(),
        ensures
            final(self).keeps(old(self)),
            *final(self) == (State { unsat_witness: final(self).unsat_witness, ..*old(self) }),
            final(self).unsat_witness matches Some(witness) && old(self).is_universal_part(conflicting@, witness@),
    {
        self.unsat_witness = Some(self.universal_part(conflicting));
    }

    /// What a proposed verdict rests on. A satisfiable one: a response to
    /// all universal assignments, handled regions that leave none, or a
    /// function for every existential variable outside of cases. An
    /// unsatisfiable one: a clause without existential literals, a move of
    /// the universal player, or an assumption that is false at the root.
    pub(crate) open spec fn grounds(&self, verdict: SolverResult) -> bool {
        match verdict {
            SolverResult::Satisfiable => {
                ||| self.handled_cases@.len() > 0 && self.handled_cases@.last().spec_cube().len() == 0
                ||| forall|a: Assignment| !#[trigger] self.remaining(a, self.handled_cases@.len() as int)
                ||| self.vsids.vars() == Set::<Var>::empty() && self.active@.len() == 0
            },
            SolverResult::Unsatisfiable => {
                ||| self.conflicted
                ||| self.unsat_witness is Some
                ||| exists|k: int| #[trigger] self.pending(k) && self.refuted_at_root(self.query_assumptions@[k])
            },
            SolverResult::Unknown => true,
        }
    }

    /// What follows a round: its verdict, or a clause learnt beside the case
    /// it recorded; at the root the case is enough.
    pub(crate) open spec fn follows_round(&self, round: &State, conflict: Conflict, outcome: CegarOutcome, verdict: Option<SolverResult>) -> bool {
        match outcome {
            CegarOutcome::Unsatisfiable => {
                &&& verdict == Some(SolverResult::Unsatisfiable)
                &&& *self == (State { unsat_witness: self.unsat_witness, ..*round })
                &&& self.unsat_witness matches Some(witness) && round.is_universal_part(conflict.assignment@, witness@)
            },
            CegarOutcome::Satisfiable => verdict == Some(SolverResult::Satisfiable) && *self == *round,
            CegarOutcome::CaseRecorded => if round.trail.starts().len() == 0 {
                verdict is None && self.requeued(round)
            } else {
                self.learnt_from(round, conflict, verdict)
            },
        }
    }

    /// Resolves a conflict by a recorded response, by clause learning, or
    /// by a verdict.
    pub(crate) fn resolve_conflict(&mut self, conflict: &Conflict) -> (verdict: Option<SolverResult>)
        requires
            old(self).wf(),
        ensures
            final(self).keeps(old(self)),
            verdict matches Some(verdict) ==> final(self).grounds(verdict),
            if old(self).options.cegar && old(self).worthwhile() {
                exists|round: State, outcome: CegarOutcome| #[trigger]
                    round.round_done(old(self), conflict.assignment@, outcome) && final(self).follows_round(&round, *conflict, outcome, verdict)
            } else {
                final(self).learnt_from(old(self), *conflict, verdict)
            },
    {
        if self.options.cegar && self.cegar_worthwhile() {
            let outcome = self.cegar_round(&conflict.assignment);
            let ghost round = *self;
            assert(round.round_done(old(self), conflict.assignment@, outcome));
            match outcome {
                CegarOutcome::Unsatisfiable => {
                    self.record_unsat_witness(&conflict.assignment);
                    return Some(SolverResult::Unsatisfiable);
                },
                CegarOutcome::Satisfiable => {
                    return Some(SolverResult::Satisfiable);
                },
                CegarOutcome::CaseRecorded => {
                    if self.trail.decision_level().is_root() {
                        if !self.assignment.is_assigned(conflict.var) {
                            self.requeue_determinacy_check(conflict.var);
                        }
                        return None;
                    }
                },
            }
        }
        self.handle_conflict(conflict)
    }

    /// The average cube size is below four fifths of the number of
    /// universal variables, or there were few rounds so far.
    pub(crate) open spec fn worthwhile(&self) -> bool {
        self.rounds < BOOTSTRAP_ROUNDS || self.cube_size_average < self.universals@.len() * 1024 * 4 / 5
    }

    /// Rounds run while the average cube size stays below four fifths of
    /// the number of universal variables.
    fn cegar_worthwhile(&self) -> (worthwhile: bool)
        ensures
            worthwhile == self.worthwhile(),
    {
        if self.rounds < BOOTSTRAP_ROUNDS {
            return true;
        }
        (self.cube_size_average as u128) < self.universals.len() as u128 * 1024 * 4 / 5
    }

    /// The literals are of the existential variables besides some, in
    /// order.
    pub(crate) open spec fn responds_besides(&self, besides: Set<Var>, response: Seq<Lit>) -> bool {
        let vars = self.existentials_besides(besides, self.existentials@.len() as int);
        &&& response.len() == vars.len()
        &&& forall|i: int| 0 <= i < response.len() ==> (#[trigger] response[i]).v() == vars[i]
    }

    /// A cube of universal literals with a value for every existential
    /// variable: together they satisfy the clauses, whatever the other
    /// universal variables are.
    pub(crate) open spec fn covers_universally(&self, cube: Seq<Lit>, response: Seq<Lit>) -> bool {
        &&& forall|i: int| 0 <= i < cube.len() ==> self.universals@.contains((#[trigger] cube[i]).v())
        &&& self.responds_besides(Set::empty(), response)
        &&& within(self.matrix(), self.universals@, self.existentials@) ==> forall|a: Assignment| #[trigger]
            cube_true(a, cube) && cube_true(a, response) ==> matrix_true(a, self.matrix())
    }

    /// The clauses that the root-level functions do not settle.
    pub(crate) open spec fn all_unsettled(&self) -> Matrix {
        self.unsettled(self.clauses.names().len() as int)
    }

    /// The clauses mention universal variables, those assigned at the root,
    /// and existential ones.
    pub(crate) open spec fn knows_all(&self, m: Matrix) -> bool {
        forall|x: Var| #[trigger] mentions(m, x) ==> self.quantified(x, QuantTy::Forall) || self.rooted(x) || self.existentials@.contains(x)
    }

    /// A cube over the frontier with values for the existential variables
    /// that are open at the root: together they satisfy the clauses that
    /// the root-level functions do not settle.
    pub(crate) open spec fn covers_frontier(&self, cube: Seq<Lit>, response: Seq<Lit>) -> bool {
        let m = self.all_unsettled();
        &&& forall|i: int|
            0 <= i < cube.len() ==> (self.quantified((#[trigger] cube[i]).v(), QuantTy::Forall) || self.rooted(cube[i].v())) && mentions(
                m,
                cube[i].v(),
            )
        &&& exists|roots: Set<Var>| #[trigger] self.responds_besides(roots, response) && forall|x: Var| #[trigger] roots.contains(x) ==> self.rooted(x)
        &&& self.knows_all(m) ==> forall|a: Assignment| #[trigger] cube_true(a, cube) && cube_true(a, response) ==> matrix_true(a, m)
    }

    /// What generalizes over an interface covers all assignments in which
    /// the cube and the response hold.
    proof fn lemma_covers(&self, m: Matrix, interface: Seq<Var>, star: Assignment, cube: Seq<Lit>, response: Seq<Lit>)
        requires
            forall|i: int| 0 <= i < cube.len() ==> interface.contains((#[trigger] cube[i]).v()),
            cube_true(star, response),
            forall|a: Assignment| #[trigger]
                cube_true(a, cube) && (forall|x: Var| !interface.contains(x) ==> #[trigger] a(x) == star(x)) ==> matrix_true(a, m),
            forall|x: Var| #[trigger] mentions(m, x) ==> interface.contains(x) || clause_mentions(response, x),
        ensures
            forall|a: Assignment| #[trigger] cube_true(a, cube) && cube_true(a, response) ==> matrix_true(a, m),
    {
        assert forall|a: Assignment| #[trigger] cube_true(a, cube) && cube_true(a, response) implies matrix_true(a, m) by {
            let b = |x: Var| if interface.contains(x) { a(x) } else { star(x) };
            assert forall|i: int| 0 <= i < cube.len() implies crate::semantics::lit_true(b, #[trigger] cube[i]) by {
                assert(crate::semantics::lit_true(a, cube[i]));
            }
            assert(cube_true(b, cube));
            assert(matrix_true(b, m));
            assert forall|x: Var| #[trigger] mentions(m, x) implies a(x) == b(x) by {
                if !interface.contains(x) {
                    let i = choose|i: int| 0 <= i < response.len() && (#[trigger] response[i]).v() == x;
                    assert(crate::semantics::lit_true(a, response[i]));
                    assert(crate::semantics::lit_true(star, response[i]));
                }
            }
            crate::semantics::lemma_matrix_coincide(m, a, b);
        }
    }

    /// An existential variable that is not left out is responded to.
    proof fn lemma_responds(&self, besides: Set<Var>, response: Seq<Lit>, x: Var)
        requires
            self.responds_besides(besides, response),
            self.existentials@.contains(x),
            !besides.contains(x),
        ensures
            clause_mentions(response, x),
    {
        let n = self.existentials@.len() as int;
        let i = choose|i: int| 0 <= i < n && self.existentials@[i] == x;
        self.lemma_besides_has(besides, n, i);
        let vars = self.existentials_besides(besides, n);
        let j = choose|j: int| 0 <= j < vars.len() && vars[j] == x;
        assert(response[j].v() == x);
    }

    proof fn lemma_besides_has(&self, besides: Set<Var>, count: int, i: int)
        requires
            0 <= i < count <= self.existentials@.len(),
            !besides.contains(self.existentials@[i]),
        ensures
            self.existentials_besides(besides, count).contains(self.existentials@[i]),
        decreases count,
    {
        let x = self.existentials@[i];
        let before = self.existentials_besides(besides, count - 1);
        let all = self.existentials_besides(besides, count);
        if i < count - 1 {
            self.lemma_besides_has(besides, count - 1, i);
            let j = choose|j: int| 0 <= j < before.len() && before[j] == x;
            assert(all[j] == x);
        } else {
            assert(all.last() == x);
            assert(all[all.len() - 1] == x);
        }
    }

    /// What satisfies the clauses satisfies those that are not settled.
    proof fn lemma_unsettled_true(&self, a: Assignment, count: int)
        requires
            self.wf(),
            matrix_true(a, self.matrix()),
        ensures
            matrix_true(a, self.unsettled(count)),
        decreases count,
    {
        if count > 0 {
            self.lemma_unsettled_true(a, count - 1);
            let cid = self.clauses.names()[count - 1];
            self.clauses.lemma_held(cid);
            match self.clauses.lits(cid) {
                Some(lits) => {
                    assert(crate::semantics::clause_true(a, lits));
                    crate::simplify::lemma_push_true(a, self.unsettled(count - 1), lits);
                },
                None => {},
            }
        }
    }

    /// The frontier: what the unsettled clauses mention of the universal
    /// variables and of those assigned at the root.
    pub(crate) open spec fn frontier_set(&self) -> Set<Var> {
        Set::new(|x: Var| (self.quantified(x, QuantTy::Forall) || self.rooted(x)) && mentions(self.all_unsettled(), x))
    }

    /// The response covers the cube, of which no literal can be dropped in
    /// the assignment that both were read from.
    pub(crate) open spec fn generalizes(&self, a: Assignment, cube: Seq<Lit>, response: Seq<Lit>) -> bool {
        ||| self.covers_universally(cube, response) && tight(a, self.matrix(), self.universals@.to_set(), cube)
        ||| self.covers_frontier(cube, response) && tight(a, self.all_unsettled(), self.frontier_set(), cube)
    }

    /// A case is recorded: a response to a cube that it covers, with an
    /// assignment in which both hold that satisfies the clauses. The
    /// response is remembered.
    pub(crate) open spec fn case_recorded(&self, before: &State, empty: bool) -> bool {
        &&& self.handled_cases@.len() == before.handled_cases@.len() + 1
        &&& self.handled_cases@.drop_last() == before.handled_cases@
        &&& self.handled_cases@.last() matches Region::Response { cube, response } && self.latest_response@ == commit(
            Map::empty(),
            response@,
        ) && (cube@.len() == 0) == empty && (forall|i: int|
            0 <= i < response@.len() ==> before.existentials@.contains((#[trigger] response@[i]).v())) && exists|a: Assignment| #[trigger]
            matrix_true(a, before.matrix()) && cube_true(a, cube@) && cube_true(a, response@) && before.generalizes(a, cube@, response@)
    }

    /// Literals that a conflicting assignment or the query pins: on
    /// universal variables and those assigned at the root, and the
    /// assumptions of the query.
    pub(crate) open spec fn pins(&self, conflicting: Seq<Lit>, lits: Seq<Lit>) -> bool {
        forall|i: int|
            0 <= i < lits.len() ==> self.query_assumptions@.contains(#[trigger] lits[i]) || (self.quantified(lits[i].v(), QuantTy::Forall)
                || self.rooted(lits[i].v())) && (lits[i].pos() || conflicting.contains(lits[i]))
    }

    /// The outcome of a round. Without a response, the pinned literals
    /// exclude every assignment that satisfies the clauses. No case is
    /// recorded, and the fuel is given up, only where a clause or a pinned
    /// literal is beyond the numbering of the back end.
    pub(crate) open spec fn round_done(&self, before: &State, conflicting: Seq<Lit>, outcome: CegarOutcome) -> bool {
        &&& *self == (State {
            stats: self.stats,
            rounds: self.rounds,
            fuel: self.fuel,
            cube_size_average: self.cube_size_average,
            latest_response: self.latest_response,
            handled_cases: self.handled_cases,
            ..*before
        })
        &&& self.latest_response == before.latest_response || self.handled_cases@.len() > before.handled_cases@.len()
        &&& self.rounds == (if before.rounds < u32::MAX { (before.rounds + 1) as u32 } else { before.rounds })
        &&& match outcome {
            CegarOutcome::Unsatisfiable => {
                &&& self.handled_cases == before.handled_cases
                &&& self.fuel == before.fuel
                &&& exists|lits: Seq<Lit>| #[trigger]
                    before.pins(conflicting, lits) && forall|a: Assignment| #[trigger] cube_true(a, lits) ==> !matrix_true(a, before.matrix())
            },
            CegarOutcome::Satisfiable => self.fuel == before.fuel && self.case_recorded(before, true),
            CegarOutcome::CaseRecorded => {
                ||| self.fuel == 0 && self.handled_cases == before.handled_cases && exists|lits: Seq<Lit>| #[trigger]
                    before.pins(conflicting, lits) && (!clauses_ok(before.matrix()) || !lits_ok(lits))
                ||| self.fuel == before.fuel && self.case_recorded(before, false)
            },
        }
    }

    proof fn lemma_pins(&self, conflicting: Seq<Lit>, part: Seq<Lit>, lits: Seq<Lit>)
        requires
            self.is_universal_part(conflicting, part),
            lits == part + self.query_assumptions@,
        ensures
            self.pins(conflicting, lits),
    {
        assert forall|i: int| 0 <= i < lits.len() implies self.query_assumptions@.contains(#[trigger] lits[i]) || (self.quantified(
            lits[i].v(),
            QuantTy::Forall,
        ) || self.rooted(lits[i].v())) && (lits[i].pos() || conflicting.contains(lits[i])) by {
            if i < part.len() {
                assert(part.contains(part[i]));
            } else {
                assert(lits[i] == self.query_assumptions@[i - part.len()]);
            }
        }
    }

    proof fn lemma_universal_case(&self, star: Assignment, cube: Seq<Lit>, response: Seq<Lit>)
        requires
            forall|i: int| 0 <= i < cube.len() ==> self.universals@.contains((#[trigger] cube[i]).v()),
            cube_true(star, response),
            self.responds_besides(Set::empty(), response),
            forall|a: Assignment| #[trigger]
                cube_true(a, cube) && (forall|x: Var| !self.universals@.contains(x) ==> #[trigger] a(x) == star(x)) ==> matrix_true(
                    a,
                    self.matrix(),
                ),
        ensures
            self.covers_universally(cube, response),
    {
        let m = self.matrix();
        if within(m, self.universals@, self.existentials@) {
            assert forall|x: Var| #[trigger] mentions(m, x) implies self.universals@.contains(x) || clause_mentions(response, x) by {
                if !self.universals@.contains(x) {
                    self.lemma_responds(Set::empty(), response, x);
                }
            }
            self.lemma_covers(m, self.universals@, star, cube, response);
        }
    }

    proof fn lemma_frontier_case(&self, star: Assignment, interface: Seq<Var>, roots: Set<Var>, cube: Seq<Lit>, response: Seq<Lit>)
        requires
            forall|x: Var| #[trigger]
                interface.contains(x) <==> (self.quantified(x, QuantTy::Forall) || self.rooted(x)) && mentions(self.all_unsettled(), x),
            forall|i: int| 0 <= i < cube.len() ==> interface.contains((#[trigger] cube[i]).v()),
            cube_true(star, response),
            forall|x: Var| #[trigger] roots.contains(x) ==> self.rooted(x),
            self.responds_besides(roots, response),
            forall|a: Assignment| #[trigger]
                cube_true(a, cube) && (forall|x: Var| !interface.contains(x) ==> #[trigger] a(x) == star(x)) ==> matrix_true(
                    a,
                    self.all_unsettled(),
                ),
        ensures
            self.covers_frontier(cube, response),
    {
        let m = self.all_unsettled();
        if self.knows_all(m) {
            assert forall|x: Var| #[trigger] mentions(m, x) implies interface.contains(x) || clause_mentions(response, x) by {
                if !interface.contains(x) {
                    self.lemma_responds(roots, response, x);
                }
            }
            self.lemma_covers(m, interface, star, cube, response);
        }
    }

    /// What is not settled rests on clauses, functions and the trail alone.
    proof fn lemma_same_unsettled(&self, before: &State, count: int)
        requires
            self.clauses == before.clauses,
            self.skolem == before.skolem,
            self.trail == before.trail,
            self.levels == before.levels,
            self.assignment == before.assignment,
        ensures
            self.unsettled(count) == before.unsettled(count),
        decreases count,
    {
        if count > 0 {
            self.lemma_same_unsettled(before, count - 1);
            let cid = self.clauses.names()[count - 1];
            self.lemma_same_settled(before, self.trail.lits().len() as int, cid.0 as int);
            match self.clauses.lits(cid) {
                Some(lits) => {
                    assert(self.holds_at_root(lits) == before.holds_at_root(lits)) by {
                        if self.holds_at_root(lits) {
                            let i = choose|i: int|
                                0 <= i < lits.len() && self.rooted((#[trigger] lits[i]).v()) && constant_of(self.assignment@, lits[i]) == Some(true);
                            assert(before.rooted(lits[i].v()));
                        }
                        if before.holds_at_root(lits) {
                            let i = choose|i: int|
                                0 <= i < lits.len() && before.rooted((#[trigger] lits[i]).v()) && constant_of(before.assignment@, lits[i]) == Some(
                                    true,
                                );
                            assert(self.rooted(lits[i].v()));
                        }
                    }
                },
                None => {},
            }
        }
    }

    proof fn lemma_same_settled(&self, before: &State, count: int, index: int)
        requires
            self.skolem == before.skolem,
            self.trail == before.trail,
            self.levels == before.levels,
        ensures
            self.settled_by(count, index) == before.settled_by(count, index),
        decreases count,
    {
        if count > 0 {
            self.lemma_same_settled(before, count - 1, index);
        }
    }

    proof fn lemma_same_frontier(&self, before: &State)
        requires
            self.clauses == before.clauses,
            self.skolem == before.skolem,
            self.trail == before.trail,
            self.levels == before.levels,
            self.assignment == before.assignment,
        ensures
            self.all_unsettled() == before.all_unsettled(),
    {
        self.lemma_same_unsettled(before, self.clauses.names().len() as int);
    }

    proof fn lemma_same_besides(&self, before: &State, besides: Set<Var>, count: int)
        requires
            self.existentials == before.existentials,
        ensures
            self.existentials_besides(besides, count) == before.existentials_besides(besides, count),
        decreases count,
    {
        if count > 0 {
            self.lemma_same_besides(before, besides, count - 1);
        }
    }

    /// Runs one round for a conflicting assignment: asks for an existential
    /// response to its universal part, generalizes the response to a cube,
    /// and records both as a handled case.
    pub(crate) fn cegar_round(&mut self, conflicting: &Vec<Lit>) -> (outcome: CegarOutcome)
        requires
            old(self).wf(),
        ensures
            final(self).keeps(old(self)),
            final(self).round_done(old(self), conflicting@, outcome),
    {
        self.stats.cegar_rounds = self.stats.cegar_rounds.saturating_add(1);
        self.rounds = self.rounds.saturating_add(1);
        let mut solver = SatSolver::new();
        load_clauses(&mut solver, self.clauses.original_lits());
        let mut assumptions = self.universal_part(conflicting);
        let ghost part = assumptions@;
        let mut query = copy_lits(&self.query_assumptions);
        assumptions.append(&mut query);
        proof {
            assert(solver.clauses() =~= self.matrix());
            old(self).lemma_pins(conflicting@, part, assumptions@);
        }
        let model = match solver.solve_with_assumptions(&assumptions) {
            SatOutcome::Sat(model) => model,
            SatOutcome::Unsat => {
                return CegarOutcome::Unsatisfiable;
            },
            SatOutcome::OutOfRange => {
                self.fuel = 0;
                return CegarOutcome::CaseRecorded;
            },
        };
        let values = values_of_lits(&model);
        let ghost m = self.matrix();
        assert(solver.clauses() =~= m);
        let mut cube = minimize_cube(self.clauses.original_lits(), &self.universals, &values);
        let mut response = self.existential_part(&values, &VarSet::new());
        let ghost mut star = assignment_of(values@);
        proof {
            self.lemma_response(star, response@, Set::empty());
            self.lemma_same_besides(old(self), Set::empty(), self.existentials@.len() as int);
            old(self).lemma_universal_case(star, cube@, response@);
        }
        if cube.len() as u128 * 5 > self.universals.len() as u128 * 4 {
            // The universal cube barely generalizes: the response depends on
            // the inputs only through derived signals. Ask again with the
            // whole frontier of the conflicting assignment pinned, and
            // generalize over the frontier instead.
            let (unsettled, interface) = self.frontier();
            let mut assumptions = pinned(&interface, conflicting);
            let ghost front = assumptions@;
            let mut query = copy_lits(&self.query_assumptions);
            assumptions.append(&mut query);
            proof {
                assert forall|i: int| 0 <= i < assumptions@.len() implies old(self).query_assumptions@.contains(#[trigger] assumptions@[i]) || (
                old(self).quantified(assumptions@[i].v(), QuantTy::Forall) || old(self).rooted(assumptions@[i].v())) && (
                assumptions@[i].pos() || conflicting@.contains(assumptions@[i])) by {
                    if i < front.len() {
                        assert(assumptions@[i] == front[i]);
                        assert(interface@.contains(interface@[i]));
                    } else {
                        assert(assumptions@[i] == old(self).query_assumptions@[i - front.len()]);
                    }
                }
                assert(old(self).pins(conflicting@, assumptions@));
            }
            match solver.solve_with_assumptions(&assumptions) {
                SatOutcome::Sat(model) => {
                    let values = values_of_lits(&model);
                    let universal_cube = minimize_cube(self.clauses.original_lits(), &self.universals, &values);
                    let frontier_cube = self.frontier_cube(&unsettled, &interface, &values);
                    proof {
                        self.lemma_unsettled_true(assignment_of(values@), self.clauses.names().len() as int);
                        self.lemma_same_frontier(old(self));
                    }
                    proof {
                        star = assignment_of(values@);
                    }
                    if frontier_cube.len() < universal_cube.len() {
                        let roots = self.root_vars();
                        response = self.existential_part(&values, &roots);
                        cube = frontier_cube;
                        proof {
                            self.lemma_response(star, response@, roots@);
                            self.lemma_same_besides(old(self), roots@, self.existentials@.len() as int);
                            old(self).lemma_frontier_case(star, interface@, roots@, cube@, response@);
                            assert(interface@.to_set() =~= old(self).frontier_set());
                            assert(old(self).generalizes(star, cube@, response@));
                        }
                    } else {
                        response = self.existential_part(&values, &VarSet::new());
                        cube = universal_cube;
                        proof {
                            self.lemma_response(star, response@, Set::empty());
                            self.lemma_same_besides(old(self), Set::empty(), self.existentials@.len() as int);
                            old(self).lemma_universal_case(star, cube@, response@);
                        }
                    }
                },
                SatOutcome::Unsat => {
                    return CegarOutcome::Unsatisfiable;
                },
                SatOutcome::OutOfRange => {
                    self.fuel = 0;
                    return CegarOutcome::CaseRecorded;
                },
            }
        }
        self.note_cube_size(cube.len());
        self.latest_response = VarMap::new();
        let ghost noted = *self;
        let mut k: usize = 0;
        assert(response@.take(0) =~= Seq::<Lit>::empty());
        assert(self.latest_response@ =~= Map::empty());
        while k < response.len()
            invariant
                k <= response@.len(),
                self.latest_response@ == commit(Map::empty(), response@.take(k as int)),
                self.keeps(old(self)),
                *self == (State { latest_response: self.latest_response, ..noted }),
            decreases response.len() - k,
        {
            self.latest_response.insert(response[k].var(), response[k].is_positive());
            assert(response@.take(k as int + 1).drop_last() =~= response@.take(k as int));
            k += 1;
        }
        assert(response@.take(response@.len() as int) =~= response@);
        let satisfiable = cube.len() == 0;
        self.stats.cases = self.stats.cases.saturating_add(1);
        let ghost cases = self.handled_cases@;
        self.handled_cases.push(Region::Response { cube, response });
        proof {
            assert(self.handled_cases@.drop_last() =~= cases);
            assert(matrix_true(star, old(self).matrix()) && cube_true(star, cube@) && cube_true(star, response@));
            assert(self.case_recorded(old(self), satisfiable));
        }
        if satisfiable {
            CegarOutcome::Satisfiable
        } else {
            CegarOutcome::CaseRecorded
        }
    }

    /// The values of existential variables hold in their assignment.
    proof fn lemma_response(&self, a: Assignment, lits: Seq<Lit>, besides: Set<Var>)
        requires
            lits.len() == self.existentials_besides(besides, self.existentials@.len() as int).len(),
            forall|i: int|
                0 <= i < lits.len() ==> (#[trigger] lits[i]).v() == self.existentials_besides(besides, self.existentials@.len() as int)[i]
                    && lits[i].pos() == a(lits[i].v()),
        ensures
            cube_true(a, lits),
            forall|i: int| 0 <= i < lits.len() ==> self.existentials@.contains((#[trigger] lits[i]).v()),
    {
        self.lemma_existentials_besides(besides, self.existentials@.len() as int);
    }

    proof fn lemma_existentials_besides(&self, besides: Set<Var>, count: int)
        requires
            count <= self.existentials@.len(),
        ensures
            forall|i: int|
                0 <= i < self.existentials_besides(besides, count).len() ==> self.existentials@.contains(
                    #[trigger] self.existentials_besides(besides, count)[i],
                ),
        decreases count,
    {
        if count > 0 {
            self.lemma_existentials_besides(besides, count - 1);
            assert(self.existentials@.contains(self.existentials@[count - 1]));
            let all = self.existentials_besides(besides, count);
            let before = self.existentials_besides(besides, count - 1);
            assert forall|i: int| 0 <= i < all.len() implies self.existentials@.contains(#[trigger] all[i]) by {
                if i < before.len() {
                    assert(all[i] == before[i]);
                }
            }
        }
    }

    /// Takes a cube size into the moving average.
    fn note_cube_size(&mut self, size: usize)
        requires
            old(self).wf(),
        ensures
            final(self).keeps(old(self)),
            *final(self) == (State { cube_size_average: final(self).cube_size_average, ..*old(self) }),
            final(self).cube_size_average == averaged(old(self).cube_size_average, size),
    {
        let capped: u64 = if size < 1_000_000_000 {
            size as u64
        } else {
            1_000_000_000
        };
        self.cube_size_average = (self.cube_size_average / 10) * 9 + capped * 1024 / 10;
    }

    /// The first existential variables besides some.
    pub(crate) open spec fn existentials_besides(&self, besides: Set<Var>, count: int) -> Seq<Var>
        decreases count,
    {
        if count <= 0 {
            Seq::empty()
        } else if besides.contains(self.existentials@[count - 1]) {
            self.existentials_besides(besides, count - 1)
        } else {
            self.existentials_besides(besides, count - 1).push(self.existentials@[count - 1])
        }
    }

    /// The values of the existential variables as literals, besides those
    /// of some variables.
    fn existential_part(&self, values: &VarMap<bool>, besides: &VarSet) -> (lits: Vec<Lit>)
        ensures
            lits@.len() == self.existentials_besides(besides@, self.existentials@.len() as int).len(),
            forall|i: int|
                0 <= i < lits@.len() ==> (#[trigger] lits@[i]).v() == self.existentials_besides(besides@, self.existentials@.len() as int)[i]
                    && lits@[i].pos() == assignment_of(values@)(lits@[i].v()),
    {
        let mut lits: Vec<Lit> = Vec::new();
        let mut k: usize = 0;
        while k < self.existentials.len()
            invariant
                k <= self.existentials@.len(),
                lits@.len() == self.existentials_besides(besides@, k as int).len(),
                forall|i: int|
                    0 <= i < lits@.len() ==> (#[trigger] lits@[i]).v() == self.existentials_besides(besides@, k as int)[i] && lits@[i].pos()
                        == assignment_of(values@)(lits@[i].v()),
            decreases self.existentials.len() - k,
        {
            let var = self.existentials[k];
            if !besides.contains(var) {
                match values.get(var) {
                    Some(true) => {
                        lits.push(var.positive());
                    },
                    _ => {
                        lits.push(var.negative());
                    },
                }
            }
            k += 1;
        }
        lits
    }

    /// The variable was assigned at the root.
    pub(crate) open spec fn rooted(&self, x: Var) -> bool {
        self.levels@.contains_key(x) && self.levels@[x].0 == 0
    }

    /// Some literal was assigned a constant at the root, and holds.
    pub(crate) open spec fn holds_at_root(&self, lits: Seq<Lit>) -> bool {
        exists|i: int|
            0 <= i < lits.len() && self.rooted((#[trigger] lits[i]).v()) && constant_of(self.assignment@, lits[i]) == Some(true)
    }

    /// The variables assigned at the root level.
    fn root_vars(&self) -> (roots: VarSet)
        ensures
            forall|x: Var| #[trigger] roots@.contains(x) <==> self.rooted(x) && exists|i: int|
                0 <= i < self.trail.lits().len() && (#[trigger] self.trail.lits()[i]).v() == x,
    {
        let mut roots = VarSet::new();
        let mut k: usize = 0;
        while k < self.trail.len()
            invariant
                k <= self.trail.lits().len(),
                forall|x: Var| #[trigger] roots@.contains(x) <==> self.rooted(x) && exists|i: int|
                    0 <= i < k && (#[trigger] self.trail.lits()[i]).v() == x,
            decreases self.trail.lits().len() - k,
        {
            let ghost before = roots@;
            let var = self.trail.at(k).var();
            if self.is_root_assigned(var) {
                roots.insert(var);
            }
            proof {
                assert(self.trail.lits()[k as int].v() == var);
                assert forall|x: Var| #[trigger] roots@.contains(x) <==> self.rooted(x) && exists|i: int|
                    0 <= i < k + 1 && (#[trigger] self.trail.lits()[i]).v() == x by {
                    assert(before.contains(x) <==> self.rooted(x) && exists|i: int| 0 <= i < k && (#[trigger] self.trail.lits()[i]).v() == x);
                }
            }
            k += 1;
        }
        roots
    }

    /// The original clauses that are not settled by the root-level
    /// functions, and the frontier: the universal and root-level assigned
    /// variables occurring in them. Implication clauses of root-level
    /// assigned variables are settled, as are clauses satisfied by a
    /// root-level constant.
    fn frontier(&self) -> (result: (Vec<Vec<Lit>>, Vec<Var>))
        requires
            self.wf(),
        ensures
            matrix_of(result.0@) == self.unsettled(self.clauses.names().len() as int),
            forall|x: Var| #[trigger]
                result.1@.contains(x) <==> (self.quantified(x, QuantTy::Forall) || self.rooted(x)) && mentions(matrix_of(result.0@), x),
    {
        let ids = self.clauses.originals();
        let mut settled: Vec<bool> = Vec::new();
        let mut k: usize = 0;
        while k < self.trail.len()
            invariant
                self.wf(),
                k <= self.trail.lits().len(),
                forall|i: int| #[trigger] marked(settled@, i) <==> self.settled_by(k as int, i),
            decreases self.trail.lits().len() - k,
        {
            let lit = self.trail.at(k);
            let ghost before = settled@;
            if self.is_root_assigned(lit.var()) {
                self.mark_settled(lit, &mut settled);
                let ghost middle = settled@;
                self.mark_settled(lit.negated(), &mut settled);
                proof {
                    assert forall|i: int| #[trigger] marked(settled@, i) <==> self.settled_by(k as int + 1, i) by {
                        assert(marked(middle, i) <==> marked(before, i) || self.settles(lit, i));
                        assert(marked(before, i) <==> self.settled_by(k as int, i));
                    }
                }
            } else {
                proof {
                    assert forall|i: int| #[trigger] marked(settled@, i) <==> self.settled_by(k as int + 1, i) by {
                        assert(marked(before, i) <==> self.settled_by(k as int, i));
                    }
                }
            }
            k += 1;
        }
        let mut unsettled: Vec<Vec<Lit>> = Vec::new();
        let mut interface: Vec<Var> = Vec::new();
        let mut seen = VarSet::new();
        let mut k: usize = 0;
        assert(matrix_of(unsettled@) =~= self.unsettled(0));
        while k < ids.len()
            invariant
                self.wf(),
                k <= ids@.len(),
                ids@ == self.clauses.names(),
                forall|i: int| #[trigger] marked(settled@, i) <==> self.settled_by(self.trail.lits().len() as int, i),
                matrix_of(unsettled@) == self.unsettled(k as int),
                forall|x: Var| #[trigger] seen@.contains(x) <==> interface@.contains(x),
                forall|x: Var| #[trigger]
                    interface@.contains(x) <==> (self.quantified(x, QuantTy::Forall) || self.rooted(x)) && mentions(
                        self.unsettled(k as int),
                        x,
                    ),
            decreases ids.len() - k,
        {
            let cid = ids[k];
            let is_settled = cid.0 < settled.len() && settled[cid.0];
            assert(is_settled == marked(settled@, cid.0 as int));
            match self.clauses.get(cid) {
                Some(lits) => {
                    if !is_settled && !self.satisfied_at_root(lits) {
                        let ghost known = interface@;
                        let mut j: usize = 0;
                        while j < lits.len()
                            invariant
                                j <= lits@.len(),
                                forall|x: Var| #[trigger] seen@.contains(x) <==> interface@.contains(x),
                                forall|x: Var| #[trigger]
                                    interface@.contains(x) <==> known.contains(x) || (self.quantified(x, QuantTy::Forall) || self.rooted(x))
                                        && mentioned_by(lits@, j as int, x),
                            decreases lits.len() - j,
                        {
                            let var = lits[j].var();
                            let ghost before = interface@;
                            let ghost noted = seen@;
                            if (self.is_universal(var) || self.is_root_assigned(var)) && seen.insert(var) {
                                interface.push(var);
                            }
                            proof {
                                assert forall|x: Var| #[trigger] mentioned_by(lits@, j as int + 1, x) <==> mentioned_by(lits@, j as int, x)
                                    || x == var by {
                                    if x == var {
                                        assert(lits@[j as int].v() == x);
                                    }
                                    if mentioned_by(lits@, j as int, x) {
                                        let i = choose|i: int| 0 <= i < j && (#[trigger] lits@[i]).v() == x;
                                        assert(lits@[i].v() == x);
                                    }
                                }
                                assert forall|x: Var| #[trigger] interface@.contains(x) <==> known.contains(x) || (self.quantified(
                                    x,
                                    QuantTy::Forall,
                                ) || self.rooted(x)) && mentioned_by(lits@, j as int + 1, x) by {
                                    crate::datastructure::lemma_push_contains(before, var, x);
                                    assert(before.contains(x) <==> known.contains(x) || (self.quantified(x, QuantTy::Forall)
                                        || self.rooted(x)) && mentioned_by(lits@, j as int, x));
                                    assert(noted.contains(x) <==> before.contains(x));
                                    assert(mentioned_by(lits@, j as int + 1, x) <==> mentioned_by(lits@, j as int, x) || x == var);
                                }
                                assert forall|x: Var| #[trigger] seen@.contains(x) <==> interface@.contains(x) by {
                                    crate::datastructure::lemma_push_contains(before, var, x);
                                    assert(noted.contains(x) <==> before.contains(x));
                                }
                            }
                            j += 1;
                        }
                        let ghost before = matrix_of(unsettled@);
                        unsettled.push(copy_lits(lits));
                        proof {
                            assert(matrix_of(unsettled@) =~= before.push(lits@));
                            assert forall|x: Var| #[trigger] interface@.contains(x) <==> (self.quantified(x, QuantTy::Forall)
                                || self.rooted(x)) && mentions(before.push(lits@), x) by {
                                crate::qcnf::lemma_matrix_push(before, lits@, x);
                                assert(known.contains(x) <==> (self.quantified(x, QuantTy::Forall) || self.rooted(x)) && mentions(before, x));
                                assert(mentioned_by(lits@, lits@.len() as int, x) == clause_mentions(lits@, x));
                            }
                        }
                    }
                },
                None => {},
            }
            k += 1;
        }
        (unsettled, interface)
    }

    /// The clause is an implication clause of the literal.
    pub(crate) open spec fn settles(&self, lit: Lit, index: int) -> bool {
        0 <= index < usize::MAX && self.implies_by(lit, ClauseId(index as usize))
    }

    /// The clause is an implication clause of one of the first variables,
    /// assigned at the root.
    pub(crate) open spec fn settled_by(&self, count: int, index: int) -> bool
        decreases count,
    {
        if count <= 0 {
            false
        } else {
            let lit = self.trail.lits()[count - 1];
            self.settled_by(count - 1, index) || self.rooted(lit.v()) && (self.settles(lit, index) || self.settles(lit.neg(), index))
        }
    }

    /// The first original clauses that are not settled by the root-level
    /// functions.
    pub(crate) open spec fn unsettled(&self, count: int) -> Matrix
        decreases count,
    {
        if count <= 0 {
            Seq::empty()
        } else {
            let before = self.unsettled(count - 1);
            let cid = self.clauses.names()[count - 1];
            match self.clauses.lits(cid) {
                Some(lits) => if self.settled_by(self.trail.lits().len() as int, cid.0 as int) || self.holds_at_root(lits) {
                    before
                } else {
                    before.push(lits)
                },
                None => before,
            }
        }
    }

    /// Marks the implication clauses of a literal.
    fn mark_settled(&self, lit: Lit, settled: &mut Vec<bool>)
        ensures
            forall|i: int| #[trigger] marked(final(settled)@, i) <==> marked(old(settled)@, i) || self.settles(lit, i),
    {
        let ghost start = settled@;
        let count = self.skolem.count(lit);
        let mut k: usize = 0;
        while k < count
            invariant
                k <= count,
                count == self.skolem.of(lit).len(),
                forall|i: int| #[trigger] marked(settled@, i) <==> marked(start, i) || self.settles_before(lit, i, k as int),
            decreases count - k,
        {
            let index = self.skolem.at(lit, k).clause.0;
            let ghost before = settled@;
            if index < usize::MAX {
                while settled.len() <= index
                    invariant
                        forall|i: int| #[trigger] marked(settled@, i) <==> marked(before, i),
                    decreases index + 1 - settled.len(),
                {
                    let ghost held = settled@;
                    settled.push(false);
                    assert forall|i: int| #[trigger] marked(settled@, i) <==> marked(before, i) by {
                        assert(marked(held, i) <==> marked(before, i));
                    }
                }
                let ghost grown = settled@;
                settled.set(index, true);
                assert forall|i: int| #[trigger] marked(settled@, i) <==> marked(before, i) || i == index by {
                    assert(marked(grown, i) <==> marked(before, i));
                }
            }
            proof {
                assert forall|i: int| #[trigger] marked(settled@, i) <==> marked(start, i) || self.settles_before(lit, i, k as int + 1) by {
                    assert(marked(before, i) <==> marked(start, i) || self.settles_before(lit, i, k as int));
                    if self.settles_before(lit, i, k as int) {
                        let j = choose|j: int| 0 <= j < k && (#[trigger] self.skolem.of(lit)[j]).clause.0 == i;
                        assert(self.skolem.of(lit)[j].clause.0 == i);
                    }
                    assert(self.skolem.of(lit)[k as int].clause.0 == index);
                }
            }
            k += 1;
        }
        proof {
            assert forall|i: int| #[trigger] marked(settled@, i) <==> marked(start, i) || self.settles(lit, i) by {
                if self.settles_before(lit, i, count as int) {
                    let j = choose|j: int| 0 <= j < count && (#[trigger] self.skolem.of(lit)[j]).clause.0 == i;
                    assert(self.skolem.of(lit)[j].clause == ClauseId(i as usize));
                }
                if self.settles(lit, i) {
                    let j = choose|j: int| 0 <= j < self.skolem.of(lit).len() && (#[trigger] self.skolem.of(lit)[j]).clause == ClauseId(i as usize);
                    assert(self.skolem.of(lit)[j].clause.0 == i);
                }
            }
        }
    }

    spec fn settles_before(&self, lit: Lit, index: int, count: int) -> bool {
        0 <= index < usize::MAX && exists|j: int| 0 <= j < count && (#[trigger] self.skolem.of(lit)[j]).clause.0 == index
    }

    fn satisfied_at_root(&self, lits: &Vec<Lit>) -> (found: bool)
        ensures
            found == self.holds_at_root(lits@),
    {
        let mut k: usize = 0;
        while k < lits.len()
            invariant
                k <= lits@.len(),
                forall|i: int|
                    0 <= i < k ==> !(self.rooted((#[trigger] lits@[i]).v()) && constant_of(self.assignment@, lits@[i]) == Some(true)),
            decreases lits.len() - k,
        {
            if self.is_root_assigned(lits[k].var()) {
                match self.assignment.constant_value(lits[k]) {
                    Some(true) => {
                        return true;
                    },
                    _ => {},
                }
            }
            k += 1;
        }
        false
    }

    /// Minimizes the frontier part of a model to a cube such that the
    /// response satisfies every unsettled clause under every extension of
    /// the cube.
    fn frontier_cube(&self, unsettled: &Vec<Vec<Lit>>, interface: &Vec<Var>, values: &VarMap<bool>) -> (cube: Vec<Lit>)
        ensures
            cube_true(assignment_of(values@), cube@),
            forall|i: int| 0 <= i < cube@.len() ==> interface@.contains((#[trigger] cube@[i]).v()),
            matrix_true(assignment_of(values@), matrix_of(unsettled@)) ==> tight(
                assignment_of(values@),
                matrix_of(unsettled@),
                interface@.to_set(),
                cube@,
            ),
            matrix_true(assignment_of(values@), matrix_of(unsettled@)) ==> forall|a: Assignment| #[trigger]
                cube_true(a, cube@) && (forall|x: Var| !interface@.contains(x) ==> #[trigger] a(x) == assignment_of(values@)(x))
                    ==> matrix_true(a, matrix_of(unsettled@)),
    {
        if holds_all(unsettled, values) {
            minimize_cube(unsettled, interface, values)
        } else {
            crate::incdet::cegar::lits_under(interface, values)
        }
    }

    /// The newest clause has the literals of the one to learn, and no level
    /// is above the one to go back to.
    pub(crate) open spec fn took(&self, analysis: Analysis) -> bool {
        match analysis {
            Analysis::Learn(clause, lvl) => {
                &&& self.trail.starts().len() <= lvl.0
                &&& self.clauses.held().len() > 0
                &&& self.clauses.held().last() matches Some(lits) && same_lits(lits, clause@)
            },
            _ => false,
        }
    }

    /// What learning from a conflict does: at the root the universal part
    /// of the conflicting assignment is recorded as a move; a conflict that
    /// is not explained is given up on; else a clause is learnt, or it
    /// refutes.
    pub(crate) open spec fn learnt_from(&self, before: &State, conflict: Conflict, verdict: Option<SolverResult>) -> bool {
        &&& verdict is None ==> self.handled_cases == before.handled_cases
        &&& if before.trail.starts().len() == 0 {
            &&& verdict == Some(SolverResult::Unsatisfiable)
            &&& *self == (State { unsat_witness: self.unsat_witness, ..*before })
            &&& self.unsat_witness matches Some(witness) && before.is_universal_part(conflict.assignment@, witness@)
        } else if !before.explained(conflict) {
            verdict == Some(SolverResult::Unknown) && *self == (State {
                vsids: self.vsids,
                activity: self.activity,
                ..*before
            })
        } else {
            match verdict {
                None => {
                    &&& self.learnts@.len() == before.learnts@.len() + 1
                    &&& self.clauses.held().len() == before.clauses.held().len() + 1
                    &&& self.trail.lits().is_prefix_of(before.trail.lits())
                    &&& self.trail.starts().is_prefix_of(before.trail.starts())
                    &&& !self.conflicted
                    &&& exists|analysis: Analysis| #[trigger] before.analyzed(conflict, analysis) && self.took(analysis)
                },
                Some(verdict) => verdict == SolverResult::Unsatisfiable && (self.unsat_witness is Some || self.conflicted),
            }
        }
    }

    /// Learns a clause from a conflict, or concludes unsatisfiability.
    pub(crate) fn handle_conflict(&mut self, conflict: &Conflict) -> (verdict: Option<SolverResult>)
        requires
            old(self).wf(),
        ensures
            final(self).keeps(old(self)),
            final(self).learnt_from(old(self), *conflict, verdict),
    {
        if self.trail.decision_level().is_root() {
            // at the root all functions are forced, so the conflicting
            // assignment is a winning universal move
            self.record_unsat_witness(&conflict.assignment);
            return Some(SolverResult::Unsatisfiable);
        }
        let analysis = self.analyze(conflict);
        match &analysis {
            Analysis::Failed => {
                return Some(SolverResult::Unknown);
            },
            Analysis::Root(clause) => {
                // all existential literals are falsified by the forced
                // root-level functions, so any universal assignment
                // falsifying the universal literals is a winning move
                self.unsat_witness = Some(negate_all(&self.universal_part(clause)));
                return Some(SolverResult::Unsatisfiable);
            },
            Analysis::Learn(clause, lvl) => {
                let ghost analyzed = *self;
                self.backtrack_to(*lvl);
                proof {
                    assert(self.trail.lits().is_prefix_of(analyzed.trail.lits()));
                    assert(self.trail.starts().is_prefix_of(analyzed.trail.starts()));
                }
                self.add_learnt_clause(clause);
                self.stats.added_clauses = self.stats.added_clauses.saturating_add(1);
            },
        }
        if self.conflicted {
            // the learnt clause contained only universal literals
            return Some(SolverResult::Unsatisfiable);
        }
        // the learnt clause constrains the conflicted variable further, so
        // it may have become uniquely determined
        if !self.assignment.is_assigned(conflict.var) {
            self.requeue_determinacy_check(conflict.var);
        }
        assert(old(self).analyzed(*conflict, analysis));
        assert(self.took(analysis));
        None
    }

    /// The level of a variable.
    pub(crate) open spec fn level_of(&self, x: Var) -> DecLvl {
        if self.levels@.contains_key(x) {
            self.levels@[x]
        } else {
            DecLvl(0)
        }
    }

    /// The number of existential ones of the first literals at a level.
    pub(crate) open spec fn at_level(&self, clause: Seq<Lit>, lvl: DecLvl, count: int) -> nat
        decreases count,
    {
        if count <= 0 {
            0
        } else {
            let x = clause[count - 1].v();
            self.at_level(clause, lvl, count - 1) + if self.quantified(x, QuantTy::Exists) && self.level_of(x) == lvl {
                1nat
            } else {
                0nat
            }
        }
    }

    /// The deepest level of the first literals that is below a bound; of
    /// existential ones alone, if asked.
    pub(crate) open spec fn deepest(&self, clause: Seq<Lit>, bound: usize, existential: bool, count: int) -> usize
        decreases count,
    {
        if count <= 0 {
            0
        } else {
            let x = clause[count - 1].v();
            let before = self.deepest(clause, bound, existential, count - 1);
            let lvl = self.level_of(x).0;
            if (!existential || self.quantified(x, QuantTy::Exists)) && before < lvl < bound {
                lvl
            } else {
                before
            }
        }
    }

    /// The conflict is explained: of both literals of its variable an
    /// implication clause fires.
    pub(crate) open spec fn explained(&self, conflict: Conflict) -> bool {
        let holding = Set::new(|l: Lit| conflict.assignment@.contains(l));
        forall|p: Lit, n: Lit| #[trigger]
            sides(conflict.var, p, n) ==> (exists|k: int| #[trigger] reason_at(self.clauses, self.skolem, p, holding, k)) && (exists|k: int|
                #[trigger] reason_at(self.clauses, self.skolem, n, holding, k))
    }

    /// The literals of the resolvent of the reasons that a conflict has for
    /// the two literals of its variable.
    pub(crate) open spec fn nucleus(&self, conflict: Conflict) -> Set<Lit> {
        let holding = held(conflict);
        let positive = choose|l: Lit| #[trigger] l.v() == conflict.var && l.pos();
        resolvent(
            reason_lits(self.clauses, self.skolem, positive.neg(), holding)->0,
            reason_lits(self.clauses, self.skolem, positive, holding)->0,
            positive,
        )
    }

    /// The literals of the clause that the nucleus becomes on the way down
    /// the trail to a position: where it contains a literal of the trail,
    /// or its negation, it is resolved with the reason, if there is one.
    pub(crate) open spec fn resolved_to(&self, conflict: Conflict, position: int) -> Set<Lit>
        decreases self.trail.lits().len() - position,
    {
        if position >= self.trail.lits().len() {
            self.nucleus(conflict)
        } else {
            let before = self.resolved_to(conflict, position + 1);
            let assigned = self.trail.lits()[position];
            let lit = if before.contains(assigned) {
                assigned.neg()
            } else {
                assigned
            };
            match reason_lits(self.clauses, self.skolem, lit, held(conflict)) {
                Some(reason) => if before.contains(lit.neg()) {
                    resolvent(before, reason, lit)
                } else {
                    before
                },
                None => before,
            }
        }
    }

    /// The clause has the given literals, but for literals below the
    /// current level that are false outright.
    pub(crate) open spec fn thins(&self, lits: Set<Lit>, clause: Seq<Lit>) -> bool {
        &&& forall|l: Lit| #[trigger] clause.contains(l) ==> lits.contains(l)
        &&& forall|l: Lit| #[trigger]
            lits.contains(l) ==> clause.contains(l) || self.removable(l) && implied(self.matrix(), seq![l.neg()])
    }

    /// The clause is what resolution down to a position of the trail gives.
    /// It stops where at most one existential literal of the current level
    /// is left, or at the end of the trail.
    pub(crate) open spec fn resolved_at(&self, conflict: Conflict, clause: Seq<Lit>, position: int) -> bool {
        &&& 0 <= position <= self.trail.lits().len()
        &&& self.thins(self.resolved_to(conflict, position), clause)
        &&& position == 0 || self.at_level(clause, DecLvl(self.trail.starts().len() as usize), clause.len() as int) <= 1
    }

    /// What the analysis of a conflict gives: nothing if it is not
    /// explained; else a clause, which refutes outright if none of its
    /// existential literals is above the root, and which is learnt at the
    /// deepest level below the one that it asserts a literal of. The clause
    /// comes by resolution from the reasons of the conflict; of the current
    /// level it has one existential literal at most, unless the whole trail
    /// was resolved through.
    pub(crate) open spec fn analyzed(&self, conflict: Conflict, analysis: Analysis) -> bool {
        let current = DecLvl(self.trail.starts().len() as usize);
        match analysis {
            Analysis::Failed => !self.explained(conflict),
            Analysis::Root(clause) => {
                &&& self.explained(conflict)
                &&& forall|l: Lit| #[trigger] clause@.contains(l) <==> self.nucleus(conflict).contains(l)
                &&& self.at_level(clause@, current, clause@.len() as int) == 0
                &&& self.deepest(clause@, usize::MAX, true, clause@.len() as int) == 0
            },
            Analysis::Learn(clause, lvl) => {
                let n = clause@.len() as int;
                &&& self.explained(conflict)
                &&& exists|position: int| #[trigger] self.resolved_at(conflict, clause@, position)
                &&& lvl.0 == self.deepest(clause@, current.0, false, n) || self.at_level(clause@, current, n) == 0 && lvl.0 == self.deepest(
                    clause@,
                    self.deepest(clause@, usize::MAX, true, n),
                    false,
                    n,
                )
            },
        }
    }

    proof fn lemma_learns(&self, conflict: &Conflict, analysis: &Analysis, clause: Seq<Lit>, lvl: DecLvl, position: int)
        requires
            self.explained(*conflict),
            self.resolved_at(*conflict, clause, position),
            match analysis {
                Analysis::Learn(learnt, level) => learnt@ == clause && *level == lvl,
                _ => false,
            },
            ({
                let current = DecLvl(self.trail.starts().len() as usize);
                let n = clause.len() as int;
                lvl.0 == self.deepest(clause, current.0, false, n) || self.at_level(clause, current, n) == 0 && lvl.0 == self.deepest(
                    clause,
                    self.deepest(clause, usize::MAX, true, n),
                    false,
                    n,
                )
            }),
        ensures
            self.analyzed(*conflict, *analysis),
    {
    }

    /// The number of existential literals of a clause at a level.
    fn count_at_level(&self, clause: &Vec<Lit>, lvl: DecLvl) -> (count: usize)
        ensures
            count == self.at_level(clause@, lvl, clause@.len() as int),
    {
        let mut count: usize = 0;
        let mut k: usize = 0;
        while k < clause.len()
            invariant
                count <= k <= clause@.len(),
                count == self.at_level(clause@, lvl, k as int),
            decreases clause.len() - k,
        {
            let var = clause[k].var();
            if self.is_existential(var) && self.level(var) == lvl {
                count += 1;
            }
            k += 1;
        }
        count
    }

    /// The deepest level of a clause's literals that is below a bound; of
    /// existential literals alone, if asked.
    fn deepest_below(&self, clause: &Vec<Lit>, bound: usize, existential: bool) -> (lvl: DecLvl)
        ensures
            lvl.0 == self.deepest(clause@, bound, existential, clause@.len() as int),
    {
        let mut deepest: usize = 0;
        let mut k: usize = 0;
        while k < clause.len()
            invariant
                k <= clause@.len(),
                deepest == self.deepest(clause@, bound, existential, k as int),
            decreases clause.len() - k,
        {
            let var = clause[k].var();
            let lvl = self.level(var).0;
            if (!existential || self.is_existential(var)) && lvl < bound && lvl > deepest {
                deepest = lvl;
            }
            k += 1;
        }
        DecLvl(deepest)
    }

    /// Derives a clause from a conflict. It starts from an implication
    /// clause of either polarity of the conflicted variable that fires,
    /// and is resolved with reasons until a single existential literal of
    /// the current level is left.
    #[verifier::rlimit(60)]
    pub(crate) fn analyze(&mut self, conflict: &Conflict) -> (analysis: Analysis)
        requires
            old(self).wf(),
        ensures
            final(self).keeps(old(self)),
            match analysis {
                Analysis::Learn(clause, lvl) => implied(old(self).matrix(), clause@),
                Analysis::Root(clause) => implied(old(self).matrix(), clause@),
                Analysis::Failed => true,
            },
            *final(self) == (State { vsids: final(self).vsids, activity: final(self).activity, ..*old(self) }),
            old(self).analyzed(*conflict, analysis),
    {
        self.vsids.bump(conflict.var);
        self.activity.decay();
        let holding = LitSet::from_lits(&conflict.assignment);
        let positive = conflict.var.positive();
        let negative = conflict.var.negative();
        // start with the nucleus
        let first = find_reason(&self.clauses, &self.skolem, negative, &holding);
        let second = find_reason(&self.clauses, &self.skolem, positive, &holding);
        proof {
            assert(holding@ =~= Set::new(|l: Lit| conflict.assignment@.contains(l)));
            assert(sides(conflict.var, positive, negative));
            assert forall|p: Lit, n: Lit| #[trigger] sides(conflict.var, p, n) implies p == positive && n == negative by {
                crate::literal::lemma_lit_ext(p, positive);
                crate::literal::lemma_lit_ext(n, negative);
            }
            assert(old(self).explained(*conflict) == (first is Some && second is Some));
            assert(holding@ == held(*conflict));
            crate::literal::lemma_lit_ext(positive, choose|l: Lit| #[trigger] l.v() == conflict.var && l.pos());
            crate::literal::lemma_lit_ext(negative, positive.neg());
        }
        let mut clause = match (first, second) {
            (Some(first), Some(second)) => match (self.clauses.get(first.clause), self.clauses.get(second.clause)) {
                (Some(left), Some(right)) => resolve(left, right, positive, Ghost(self.matrix())),
                _ => {
                    return Analysis::Failed;
                },
            },
            _ => {
                return Analysis::Failed;
            },
        };
        let ghost nucleus = old(self).nucleus(*conflict);
        assert(forall|l: Lit| #[trigger] clause@.contains(l) <==> nucleus.contains(l));
        self.bump_all(&clause);
        let current = self.trail.decision_level();
        let ghost end = old(self).trail.lits().len() as int;
        proof {
            assert(old(self).resolved_to(*conflict, end) == nucleus);
            self.lemma_levels(old(self), clause@, current, clause@.len() as int);
        }
        if self.count_at_level(&clause, current) == 0 {
            // the backtrack must go strictly below the deepest existential
            // literal so that the clause asserts it
            self.vsids.decay();
            let max = self.deepest_below(&clause, usize::MAX, true);
            proof {
                let n = clause@.len() as int;
                self.lemma_deepest(old(self), clause@, usize::MAX, true, n);
                self.lemma_deepest(old(self), clause@, max.0, false, n);
            }
            if max.is_root() {
                return Analysis::Root(clause);
            }
            let lvl = self.deepest_below(&clause, max.0, false);
            let analysis = Analysis::Learn(clause, lvl);
            proof {
                let n = clause@.len() as int;
                assert(old(self).explained(*conflict));
                assert(old(self).resolved_at(*conflict, clause@, end));
                assert(old(self).at_level(clause@, current, n) == 0);
                assert(lvl.0 == old(self).deepest(clause@, old(self).deepest(clause@, usize::MAX, true, n), false, n));
                old(self).lemma_learns(conflict, &analysis, clause@, lvl, end);
            }
            return analysis;
        }
        let mut position = self.trail.len();
        while position > 0 && self.count_at_level(&clause, current) > 1
            invariant
                self.keeps(old(self)),
                *self == (State { vsids: self.vsids, activity: self.activity, ..*old(self) }),
                implied(old(self).matrix(), clause@),
                position <= self.trail.lits().len(),
                holding@ == held(*conflict),
                forall|l: Lit| #[trigger] clause@.contains(l) <==> old(self).resolved_to(*conflict, position as int).contains(l),
            decreases position,
        {
            let ghost before = old(self).resolved_to(*conflict, position as int);
            position -= 1;
            let assigned = self.trail.at(position);
            let lit = if contains(&clause, assigned) {
                assigned.negated()
            } else {
                assigned
            };
            if contains(&clause, lit.negated()) {
                match find_reason(&self.clauses, &self.skolem, lit, &holding) {
                    Some(implication) => {
                        match self.clauses.get(implication.clause) {
                            Some(reason) => {
                                assert(before.contains(lit.neg()));
                                clause = resolve(&clause, reason, lit, Ghost(self.matrix()));
                            },
                            None => {},
                        }
                        if implication.clause.0 < usize::MAX {
                            self.activity.bump(implication.clause);
                        }
                        self.bump_all(&clause);
                    },
                    None => {},
                }
            }
        }
        let ghost resolved = clause@;
        let ghost at = position as int;
        let clause = self.minimize_learnt_clause(clause, &holding);
        proof {
            let n = clause@.len() as int;
            self.lemma_levels(old(self), resolved, current, resolved.len() as int);
            self.lemma_levels(old(self), clause@, current, n);
            let lits = old(self).resolved_to(*conflict, at);
            assert forall|l: Lit| #[trigger] clause@.contains(l) implies lits.contains(l) by {
                let i = choose|i: int| 0 <= i < n && clause@[i] == l;
                assert(resolved.contains(clause@[i]));
            }
            assert forall|l: Lit| #[trigger] lits.contains(l) implies clause@.contains(l) || old(self).removable(l) && implied(
                old(self).matrix(),
                seq![l.neg()],
            ) by {
                assert(resolved.contains(l));
                let i = choose|i: int| 0 <= i < resolved.len() && resolved[i] == l;
                assert(clause@.contains(resolved[i]) || self.removable(resolved[i]) && implied(self.matrix(), seq![resolved[i].neg()]));
            }
            assert(old(self).resolved_at(*conflict, clause@, at));
        }
        let lvl = self.deepest_below(&clause, current.0, false);
        proof {
            self.lemma_deepest(old(self), clause@, current.0, false, clause@.len() as int);
        }
        self.vsids.decay();
        let analysis = Analysis::Learn(clause, lvl);
        proof {
            assert(old(self).explained(*conflict));
            assert(old(self).resolved_at(*conflict, clause@, at));
            assert(lvl.0 == old(self).deepest(clause@, old(self).trail.starts().len() as usize, false, clause@.len() as int));
            old(self).lemma_learns(conflict, &analysis, clause@, lvl, at);
        }
        analysis
    }

    /// The existential variables of the first literals.
    pub(crate) open spec fn existential_vars(&self, clause: Seq<Lit>, count: int) -> Seq<Var>
        decreases count,
    {
        if count <= 0 {
            Seq::empty()
        } else if self.quantified(clause[count - 1].v(), QuantTy::Exists) {
            self.existential_vars(clause, count - 1).push(clause[count - 1].v())
        } else {
            self.existential_vars(clause, count - 1)
        }
    }

    /// Bumps the existential variables of a clause.
    fn bump_all(&mut self, clause: &Vec<Lit>)
        requires
            old(self).wf(),
        ensures
            final(self).keeps(old(self)),
            *final(self) == (State { vsids: final(self).vsids, ..*old(self) }),
            bumped_by(old(self).vsids, final(self).vsids, old(self).existential_vars(clause@, clause@.len() as int)),
    {
        let mut k: usize = 0;
        while k < clause.len()
            invariant
                k <= clause@.len(),
                bumped_by(old(self).vsids, self.vsids, old(self).existential_vars(clause@, k as int)),
                self.keeps(old(self)),
                *self == (State { vsids: self.vsids, ..*old(self) }),
            decreases clause.len() - k,
        {
            if self.is_existential(clause[k].var()) {
                let ghost before = self.vsids;
                let ghost some = old(self).existential_vars(clause@, k as int);
                self.vsids.bump(clause[k].var());
                proof {
                    let more = some.push(clause@[k as int].v());
                    assert(more.drop_last() =~= some);
                    assert(bumped_by(old(self).vsids, before, more.drop_last()) && before.bumped(self.vsids, more.last()));
                }
            }
            k += 1;
        }
    }

    proof fn lemma_levels(&self, before: &State, clause: Seq<Lit>, lvl: DecLvl, count: int)
        requires
            self.levels == before.levels,
            self.kinds == before.kinds,
        ensures
            self.at_level(clause, lvl, count) == before.at_level(clause, lvl, count),
        decreases count,
    {
        if count > 0 {
            self.lemma_levels(before, clause, lvl, count - 1);
        }
    }

    proof fn lemma_level_front(&self, front: Seq<Lit>, clause: Seq<Lit>, lvl: DecLvl, count: int)
        requires
            count <= front.len() <= clause.len(),
            forall|i: int| 0 <= i < front.len() ==> front[i] == clause[i],
        ensures
            self.at_level(front, lvl, count) == self.at_level(clause, lvl, count),
        decreases count,
    {
        if count > 0 {
            self.lemma_level_front(front, clause, lvl, count - 1);
        }
    }

    proof fn lemma_deepest(&self, before: &State, clause: Seq<Lit>, bound: usize, existential: bool, count: int)
        requires
            self.levels == before.levels,
            self.kinds == before.kinds,
        ensures
            self.deepest(clause, bound, existential, count) == before.deepest(clause, bound, existential, count),
        decreases count,
    {
        if count > 0 {
            self.lemma_deepest(before, clause, bound, existential, count - 1);
        }
    }

    /// The literal can be left out of a learnt clause, if it is redundant:
    /// it is existential and not of the current level.
    pub(crate) open spec fn removable(&self, l: Lit) -> bool {
        self.quantified(l.v(), QuantTy::Exists) && self.level_of(l.v()) != DecLvl(self.trail.starts().len() as usize)
    }

    /// Removes the literals of a learnt clause, below the current level,
    /// whose negation is implied outright.
    fn minimize_learnt_clause(&self, clause: Vec<Lit>, holding: &LitSet) -> (result: Vec<Lit>)
        requires
            self.wf(),
            implied(self.matrix(), clause@),
        ensures
            implied(self.matrix(), result@),
            ({
                let current = DecLvl(self.trail.starts().len() as usize);
                self.at_level(result@, current, result@.len() as int) <= self.at_level(clause@, current, clause@.len() as int)
            }),
            forall|i: int| 0 <= i < result@.len() ==> clause@.contains(#[trigger] result@[i]),
            forall|i: int|
                0 <= i < clause@.len() ==> result@.contains(#[trigger] clause@[i]) || self.removable(clause@[i]) && implied(
                    self.matrix(),
                    seq![clause@[i].neg()],
                ),
            forall|i: int|
                0 <= i < result@.len() && self.removable(#[trigger] result@[i]) ==> !forced_alone(
                    self.clauses,
                    self.skolem,
                    result@[i].neg(),
                    holding@,
                ),
    {
        let current = self.trail.decision_level();
        let mut redundancy = Redundancy::new(Ghost(self.matrix()));
        let mut result: Vec<Lit> = Vec::new();
        let mut k: usize = 0;
        while k < clause.len()
            invariant
                k <= clause@.len(),
                self.wf(),
                redundancy.wf(self.matrix()),
                redundancy.fair(self.clauses, self.skolem, holding@),
                current == DecLvl(self.trail.starts().len() as usize),
                self.at_level(result@, current, result@.len() as int) <= self.at_level(clause@, current, k as int),
                forall|i: int| 0 <= i < result@.len() ==> clause@.contains(#[trigger] result@[i]),
                forall|i: int|
                    0 <= i < k ==> result@.contains(#[trigger] clause@[i]) || self.removable(clause@[i]) && implied(
                        self.matrix(),
                        seq![clause@[i].neg()],
                    ),
                forall|i: int|
                    0 <= i < result@.len() && self.removable(#[trigger] result@[i]) ==> !forced_alone(
                        self.clauses,
                        self.skolem,
                        result@[i].neg(),
                        holding@,
                    ),
            decreases clause.len() - k,
        {
            let lit = clause[k];
            let ghost before = result@;
            let redundant = self.level(lit.var()) != current && self.is_existential(lit.var()) && redundancy.is_literal_redundant(
                &self.clauses,
                &self.skolem,
                lit,
                holding,
                REDUNDANCY_DEPTH,
            );
            assert(clause@.contains(clause@[k as int]));
            if !redundant {
                result.push(lit);
                proof {
                    self.lemma_level_front(before, result@, current, before.len() as int);
                    assert forall|i: int| 0 <= i < k + 1 implies result@.contains(#[trigger] clause@[i]) || self.removable(clause@[i]) && implied(
                        self.matrix(),
                        seq![clause@[i].neg()],
                    ) by {
                        crate::datastructure::lemma_push_contains(before, lit, clause@[i]);
                    }
                }
            }
            k += 1;
        }
        proof {
            assert forall|l: Lit| #[trigger] clause@.contains(l) implies result@.contains(l) || implied(self.matrix(), seq![l.neg()]) by {
                let i = choose|i: int| 0 <= i < clause@.len() && clause@[i] == l;
                assert(result@.contains(clause@[i]) || implied(self.matrix(), seq![clause@[i].neg()]));
            }
            lemma_minimized(self.matrix(), clause@, result@);
        }
        result
    }

    /// The first query assumptions are in force.
    pub(crate) open spec fn in_force(&self, count: int) -> bool {
        forall|i: int| 0 <= i < count ==> constant_of(self.assignment@, #[trigger] self.query_assumptions@[i]) == Some(true)
    }

    /// An assumption is the first that is not in force.
    pub(crate) open spec fn pending(&self, k: int) -> bool {
        &&& 0 <= k < self.query_assumptions@.len()
        &&& self.in_force(k)
        &&& constant_of(self.assignment@, self.query_assumptions@[k]) != Some(true)
    }

    /// The assumption is false by what was forced at the root.
    pub(crate) open spec fn refuted_at_root(&self, lit: Lit) -> bool {
        &&& constant_of(self.assignment@, lit) == Some(false)
        &&& self.rooted(lit.v())
        &&& !self.root_pure_lits@.contains(lit)
    }

    /// What establishing the next assumption did.
    pub(crate) open spec fn stepped(&self, before: &State, step: QueryStep) -> bool {
        match step {
            QueryStep::Nothing => *self == *before && before.in_force(before.query_assumptions@.len() as int),
            QueryStep::Assumed => exists|k: int| #[trigger]
                before.pending(k) && !before.assignment@.contains_key(before.query_assumptions@[k].v()) && self.assumed_constant(
                    before,
                    before.query_assumptions@[k],
                ) && before.unopposed(self, before.query_assumptions@[k]),
            QueryStep::Conflict(conflict) => self.checked(before) && self.fuel == before.fuel && exists|k: int| #[trigger]
                before.pending(k) && !before.assignment@.contains_key(conflict.var) && conflict.var == before.query_assumptions@[k].v()
                    && before.violated(before.query_assumptions@[k], conflict.assignment@),
            QueryStep::Unsat => *self == *before && exists|k: int| #[trigger]
                before.pending(k) && before.refuted_at_root(before.query_assumptions@[k]),
            QueryStep::Abort => *self == *before && exists|k: int| #[trigger]
                before.pending(k) && before.assignment@.contains_key(before.query_assumptions@[k].v()) && !before.refuted_at_root(
                    before.query_assumptions@[k],
                ),
        }
    }

    /// Under no consistent assignment an implication of the opposite fires;
    /// where this cannot be asked, the steps are given up.
    pub(crate) open spec fn unopposed(&self, after: &State, lit: Lit) -> bool {
        ||| after.fuel == 0 && !self.askable(seq![lit.neg()])
        ||| after.fuel == self.fuel && forall|a: Assignment| !#[trigger] self.contradicting(a, lit.neg())
    }

    /// Under a consistent assignment an implication of the opposite fires.
    pub(crate) open spec fn violated(&self, lit: Lit, rest: Seq<Lit>) -> bool {
        exists|a: Assignment| #[trigger] self.contradicting(a, lit.neg()) && cube_true(a, rest)
    }

    /// The literal became constant at a decision level of its own.
    pub(crate) open spec fn assumed_constant(&self, before: &State, lit: Lit) -> bool {
        &&& self.trail.lits() == before.trail.lits().push(lit)
        &&& self.trail.starts() == before.trail.starts().push(before.trail.lits().len() as usize)
        &&& self.assignment@ == before.assignment@.insert(lit.v(), if lit.pos() { Value::True } else { Value::False })
        &&& self.levels@ == before.levels@.insert(lit.v(), DecLvl(self.trail.starts().len() as usize))
        &&& self.vsids.vars() == before.vsids.vars().remove(lit.v())
        &&& self.clauses.held() == before.clauses.held()
        &&& self.handled_cases == before.handled_cases
        &&& self.learnts == before.learnts
        &&& self.query_assumptions == before.query_assumptions
    }

    /// Establishes the next query assumption that is not yet in force.
    fn reassume_query_step(&mut self) -> (step: QueryStep)
        requires
            old(self).wf(),
        ensures
            final(self).keeps(old(self)),
            final(self).stepped(old(self), step),
    {
        let mut k: usize = 0;
        while k < self.query_assumptions.len()
            invariant
                k <= self.query_assumptions@.len(),
                self.keeps(old(self)),
                *self == *old(self),
                self.in_force(k as int),
            decreases self.query_assumptions.len() - k,
        {
            assert(constant_of(self.assignment@, self.query_assumptions@[k as int]) != Some(true) ==> old(self).pending(k as int));
            let lit = self.query_assumptions[k];
            let var = lit.var();
            if self.assignment.is_assigned(var) {
                match self.assignment.constant_value(lit) {
                    Some(true) => {},
                    Some(false) => {
                        if self.is_root_assigned(var) && !contains(&self.root_pure_lits, lit) {
                            return QueryStep::Unsat;
                        }
                        return QueryStep::Abort;
                    },
                    None => {
                        return QueryStep::Abort;
                    },
                }
            } else {
                assert(old(self).pending(k as int));
                match self.is_assumption_conflicted(lit) {
                    Some(assignment) => {
                        assert(old(self).violated(lit, assignment@));
                        return QueryStep::Conflict(Conflict { var, assignment });
                    },
                    None => {},
                }
                self.assume_existential(lit);
                assert(self.assumed_constant(old(self), old(self).query_assumptions@[k as int]));
                return QueryStep::Assumed;
            }
            k += 1;
        }
        QueryStep::Nothing
    }

    /// Assumes an existential literal as a constant at a fresh decision
    /// level.
    fn assume_existential(&mut self, lit: Lit)
        requires
            old(self).wf(),
        ensures
            final(self).keeps(old(self)),
            final(self).assumed_constant(old(self), lit),
            final(self).fuel == old(self).fuel,
    {
        self.assign_and_propagate(lit, true, true);
        self.requeue_mentioning(lit.var());
        self.queue_satisfied(lit);
    }

    /// The literal to decide a variable by. A decided literal holds only
    /// where one of its implications fires, so it is the negation of the
    /// intended default: the latest response where it assigns the variable,
    /// and true otherwise.
    fn decision_literal(&self, var: Var) -> (lit: Lit)
        ensures
            lit.v() == var,
            lit.pos() == (self.latest_response@.contains_key(var) && !self.latest_response@[var]),
    {
        match self.latest_response.get(var) {
            Some(false) => var.positive(),
            _ => var.negative(),
        }
    }

    /// Answers a core: runs the search until it has a verdict to propose or
    /// no steps are left, and settles what it proposes. A satisfiable core
    /// is answered by functions that satisfy its clauses; of an
    /// unsatisfiable one a move without a response is recorded. There is an
    /// answer unless a variable is beyond the numbering of the back end.
    #[verifier::rlimit(100)]
    pub(crate) fn search(&mut self, core: &Core) -> (conclusion: Conclusion)
        requires
            old(self).wf(),
            core.wf(),
        ensures
            final(self).wf(),
            final(self).matrix() == old(self).matrix(),
            conclusion_ok(*core, conclusion),
            conclusion matches Conclusion::Unsat(witness) ==> (final(self).unsat_witness matches Some(recorded) && recorded@ == witness@),
            old(self).conflicted ==> *final(self) == (State { unsat_witness: final(self).unsat_witness, ..*old(self) }),
            final(self).fuel <= old(self).fuel,
    {
        let mut proposal = if self.conflicted {
            SolverResult::Unsatisfiable
        } else {
            SolverResult::Unknown
        };
        let mut searching = !self.conflicted;
        let mut first = true;
        let mut violation_rounds: u32 = 0;
        let mut conflicts_since_restart: u32 = 0;
        let mut restart_number: u32 = 1;
        let mut next_reduction = self.learnts.len().saturating_add(REDUCTION_INCREMENT);
        let mut conflicts_at_last_case = self.stats.conflicts;
        while searching && self.fuel > 0
            invariant
                self.keeps(old(self)),
                old(self).conflicted ==> !searching && *self == *old(self),
                restart_number >= 1,
            decreases self.fuel,
        {
            assert(!old(self).conflicted);
            self.fuel = self.fuel - 1;
            match self.propagate() {
                Some(conflict) => {
                    match self.resolve_conflict(&conflict) {
                        Some(verdict) => {
                            proposal = verdict;
                            searching = false;
                            continue;
                        },
                        None => {},
                    }
                    conflicts_since_restart = conflicts_since_restart.saturating_add(1);
                    continue;
                },
                None => {},
            }
            if first {
                self.stats.initial_deterministic = self.trail.len();
                first = false;
            }
            match self.reassume_query_step() {
                QueryStep::Nothing => {},
                QueryStep::Assumed => {
                    continue;
                },
                QueryStep::Conflict(conflict) => {
                    // violations resolve by recorded cases only: clause
                    // learning would lose the assumption literal
                    violation_rounds = violation_rounds.saturating_add(1);
                    if violation_rounds > QUERY_VIOLATION_BUDGET {
                        proposal = SolverResult::Unknown;
                        searching = false;
                        continue;
                    }
                    match self.cegar_round(&conflict.assignment) {
                        CegarOutcome::Unsatisfiable => {
                            self.record_unsat_witness(&conflict.assignment);
                            proposal = SolverResult::Unsatisfiable;
                            searching = false;
                            continue;
                        },
                        CegarOutcome::Satisfiable => {
                            proposal = SolverResult::Satisfiable;
                            searching = false;
                            continue;
                        },
                        CegarOutcome::CaseRecorded => {
                            conflicts_since_restart = conflicts_since_restart.saturating_add(1);
                            continue;
                        },
                    }
                },
                QueryStep::Unsat => {
                    proposal = SolverResult::Unsatisfiable;
                    searching = false;
                    continue;
                },
                QueryStep::Abort => {
                    proposal = SolverResult::Unknown;
                    searching = false;
                    continue;
                },
            }
            if self.options.case_splits && self.reassume_cases() {
                continue;
            }
            if self.options.clause_deletion && self.learnts.len() >= next_reduction {
                self.reduce_learnts();
                next_reduction = next_reduction.saturating_add(REDUCTION_INCREMENT);
            }
            if self.options.case_splits && self.stats.conflicts >= conflicts_at_last_case && self.stats.conflicts
                - conflicts_at_last_case >= self.options.case_split_threshold {
                conflicts_at_last_case = self.stats.conflicts;
                match self.open_case() {
                    CaseAction::Assumed => {
                        continue;
                    },
                    CaseAction::DomainEmpty => {
                        proposal = SolverResult::Satisfiable;
                        searching = false;
                        continue;
                    },
                    CaseAction::NoUniversals => {
                        self.options.case_splits = false;
                    },
                }
            }
            if self.options.restarts && !self.trail.decision_level().is_root() && conflicts_since_restart / RESTART_INTERVAL >= luby(
                restart_number,
            ) {
                self.stats.restarts = self.stats.restarts.saturating_add(1);
                restart_number = restart_number.saturating_add(1);
                conflicts_since_restart = 0;
                self.backtrack_to(DecLvl::root());
                continue;
            }
            // Pure literals are assigned before decisions: their minimal
            // function is optimal, so assigning it loses nothing.
            match self.pure_literal_step() {
                PureStep::Progress => {
                    continue;
                },
                PureStep::Conflict(conflict) => {
                    match self.resolve_conflict(&conflict) {
                        Some(verdict) => {
                            proposal = verdict;
                            searching = false;
                            continue;
                        },
                        None => {},
                    }
                    conflicts_since_restart = conflicts_since_restart.saturating_add(1);
                    continue;
                },
                PureStep::Nothing => {},
            }
            let var = match self.vsids.peek() {
                Some(var) => var,
                None => {
                    if self.casesplits_active() {
                        // all existential variables are assigned within the
                        // active case: close it and continue on the rest
                        self.close_cases();
                        continue;
                    }
                    proposal = SolverResult::Satisfiable;
                    searching = false;
                    continue;
                },
            };
            self.stats.decisions = self.stats.decisions.saturating_add(1);
            // check if the decision leads to a conflict
            match self.is_conflicted(var) {
                Some(assignment) => {
                    match self.resolve_conflict(&Conflict { var, assignment }) {
                        Some(verdict) => {
                            proposal = verdict;
                            searching = false;
                            continue;
                        },
                        None => {},
                    }
                    conflicts_since_restart = conflicts_since_restart.saturating_add(1);
                },
                None => {
                    let decision = self.decision_literal(var);
                    self.assign_and_propagate(decision, true, false);
                },
            }
        }
        let settled = self.settle(core, proposal);
        let conclusion = conclude(core, settled);
        match &conclusion {
            Conclusion::Unsat(witness) => {
                self.unsat_witness = Some(copy_lits(witness));
            },
            _ => {},
        }
        conclusion
    }
}

/// The activities after the variables were bumped one after the other.
pub(crate) open spec fn bumped_by(before: Vsids, after: Vsids, vars: Seq<Var>) -> bool
    decreases vars.len(),
{
    if vars.len() == 0 {
        before == after
    } else {
        exists|middle: Vsids| bumped_by(before, middle, vars.drop_last()) && #[trigger] middle.bumped(after, vars.last())
    }
}

/// The literals that the assignment of a conflict holds.
pub(crate) open spec fn held(conflict: Conflict) -> Set<Lit> {
    Set::new(|l: Lit| conflict.assignment@.contains(l))
}

/// The literals of the variables that an assignment pins: negative where
/// it holds the negative literal, else positive.
fn pinned(vars: &Vec<Var>, holding: &Vec<Lit>) -> (lits: Vec<Lit>)
    ensures
        lits@.len() == vars@.len(),
        forall|i: int| 0 <= i < vars@.len() ==> (#[trigger] lits@[i]).v() == vars@[i] && (lits@[i].pos() || holding@.contains(lits@[i])),
{
    let set = LitSet::from_lits(holding);
    let mut lits: Vec<Lit> = Vec::new();
    let mut k: usize = 0;
    while k < vars.len()
        invariant
            k <= vars@.len(),
            lits@.len() == k,
            forall|l: Lit| #[trigger] set@.contains(l) <==> holding@.contains(l),
            forall|i: int| 0 <= i < k ==> (#[trigger] lits@[i]).v() == vars@[i] && (lits@[i].pos() || holding@.contains(lits@[i])),
        decreases vars.len() - k,
    {
        let negative = vars[k].negative();
        if set.contains(negative) {
            lits.push(negative);
        } else {
            lits.push(vars[k].positive());
        }
        k += 1;
    }
    lits
}

/// Whether the values satisfy all clauses.
fn holds_all(clauses: &Vec<Vec<Lit>>, values: &VarMap<bool>) -> (all: bool)
    ensures
        all == crate::semantics::matrix_true(crate::qcnf::assignment_of(values@), matrix_of(clauses@)),
{
    let mut k: usize = 0;
    while k < clauses.len()
        invariant
            k <= clauses@.len(),
            forall|i: int|
                0 <= i < k ==> crate::semantics::clause_true(crate::qcnf::assignment_of(values@), (#[trigger] clauses@[i])@),
        decreases clauses.len() - k,
    {
        let clause = &clauses[k];
        let mut found = false;
        let mut j: usize = 0;
        while j < clause.len() && !found
            invariant
                j <= clause@.len(),
                found ==> crate::semantics::clause_true(crate::qcnf::assignment_of(values@), clause@),
                !found ==> forall|i: int| 0 <= i < j ==> !crate::semantics::lit_true(crate::qcnf::assignment_of(values@), #[trigger] clause@[i]),
            decreases clause.len() - j,
        {
            let lit = clause[j];
            let value = match values.get(lit.var()) {
                Some(value) => value,
                None => false,
            };
            if value == lit.is_positive() {
                assert(crate::semantics::lit_true(crate::qcnf::assignment_of(values@), clause@[j as int]));
                found = true;
            }
            j += 1;
        }
        if !found {
            proof {
                assert(matrix_of(clauses@)[k as int] == clause@);
                assert(!crate::semantics::clause_true(crate::qcnf::assignment_of(values@), matrix_of(clauses@)[k as int]));
            }
            return false;
        }
        k += 1;
    }
    true
}

/// The flag of an index is set.
spec fn marked(flags: Seq<bool>, index: int) -> bool {
    0 <= index < flags.len() && flags[index]
}

/// One of the first literals is of the variable.
spec fn mentioned_by(lits: Seq<Lit>, count: int, x: Var) -> bool {
    exists|i: int| 0 <= i < count && (#[trigger] lits[i]).v() == x
}

} // verus!
