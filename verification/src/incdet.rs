//! Incremental determinization for formulas with one quantifier
//! alternation.
use crate::clause::implied;
use crate::datastructure::{LitSet, VarSet};
use crate::incdet::cegar::{answered, vars_ok};
use crate::incdet::certify::{conclusion_ok, Conclusion};
use crate::incdet::circuit::circuit_value;
use crate::incdet::load::{universal_first, Core};
use crate::incdet::model::{assigns, SkolemModel};
use crate::incdet::state::State;
use crate::literal::{Lit, Var};
use crate::normal::{copy_clauses, copy_lits, copy_vars, shape};
use crate::qcnf::{matrix_of, prefix_of, QCNF};
use crate::quantifier::QuantTy;
use crate::sat::{clauses_ok, SatOutcome, SatSolver};
use crate::semantics::{
    bound, bound_by, clause_true, cube_true, formula_true, lit_true, matrix_true, mentions, prefix_distinct, Assignment,
    Matrix, Prefix,
};
use crate::simplify::copy_prefix;
use crate::strategy::Strategy;
use crate::strategy_check::{circuit_wins, leaf_numbered, universals_of};
use crate::SolverResult;
use std::rc::Rc;
use vstd::prelude::*;

pub mod activity;
pub mod aig;
pub mod casesplit;
pub mod cegar;
pub mod certify;
pub mod circuit;
pub mod conflict;
pub mod determinacy;
pub mod extend;
pub mod load;
pub mod matrix;
pub mod model;
pub mod propagation;
pub mod restart;
pub mod search;
pub mod skolem;
pub mod smtlib;
pub mod state;
pub mod vsids;
pub mod watch;

verus! {

broadcast use crate::literal::group_literal;

/// Configuration of the incremental determinization algorithm.
///
/// The default enables all features; the options mainly exist to make it
/// possible to test and benchmark the features in isolation.
#[derive(Debug, Clone, Copy)]
pub struct Options {
    /// Propagate constant Skolem functions eagerly. Constants admit cheaper
    /// determinacy and conflict checks than general Skolem functions.
    pub constant_propagation: bool,
    /// Keep the encoded definitions for the global conflict checks instead
    /// of encoding them anew for every check.
    pub incremental_conflict_check: bool,
    /// Periodically delete long learnt clauses that are not registered as
    /// implication clauses.
    pub clause_deletion: bool,
    /// Resolve conflicts by recorded responses while they are effective.
    pub cegar: bool,
    /// Once the search stalls, assume a universal literal, solve the case,
    /// and exclude the closed case from the remaining search.
    pub case_splits: bool,
    /// Number of conflicts after which the search counts as stalled and a
    /// case split is attempted.
    pub case_split_threshold: u32,
    /// Restart the search on a Luby schedule.
    pub restarts: bool,
}

impl Options {
    /// The options that the default gives.
    pub open spec fn spec_default() -> Options {
        Options {
            constant_propagation: true,
            incremental_conflict_check: true,
            clause_deletion: true,
            cegar: true,
            case_splits: true,
            case_split_threshold: 5000,
            restarts: false,
        }
    }
}

impl Default for Options {
    fn default() -> (options: Options)
        ensures
            options == Options::spec_default(),
    {
        Options {
            constant_propagation: true,
            incremental_conflict_check: true,
            clause_deletion: true,
            cegar: true,
            case_splits: true,
            case_split_threshold: 5000,
            restarts: false,
        }
    }
}

/// Number of handled cases beyond which an extension gives up on checking
/// the retained regions again.
pub const MAX_REVERIFIED_CASES: usize = 64;

/// A solver for formulas with at most two alternating blocks.
#[derive(Debug)]
pub struct IncDet {
    options: Options,
    formula: QCNF,
    /// the stack depth at which each clause was added
    depths: Vec<usize>,
    /// the live search of the last solve
    state: Option<State>,
    model: Option<Rc<SkolemModel>>,
    witness: Option<Vec<Lit>>,
    /// the recorded move refutes the clauses together with the assumptions
    refuting: bool,
    /// the assumptions of the last solve
    assumptions: Vec<Lit>,
    extensions: u32,
    /// clauses known to follow from the loaded ones, to start a search with
    seeds: Vec<Vec<Lit>>,
}

/// The clause contains one of the literals.
pub open spec fn has_declined(c: Seq<Lit>, declined: Seq<Lit>) -> bool {
    exists|i: int| 0 <= i < c.len() && declined.contains(#[trigger] c[i])
}

/// Where the first clauses hold, the second hold.
pub open spec fn follows_from(n: Matrix, m: Matrix) -> bool {
    forall|b: Assignment| #[trigger] matrix_true(b, m) ==> matrix_true(b, n)
}

/// The literals as clauses of one literal each.
pub open spec fn units(lits: Seq<Lit>) -> Matrix {
    Seq::new(lits.len(), |i: int| seq![lits[i]])
}

/// Every variable of the formula is within the numbering of the back end.
pub open spec fn in_range(p: Prefix, m: Matrix) -> bool {
    &&& clauses_ok(m)
    &&& forall|x: Var| #[trigger] bound(p, x) ==> x.dimacs() <= crate::sat::MAX_NUMBER
}

/// The verdict owed on a formula: its truth, if it has at most two
/// alternating blocks and the back end can number its variables. The
/// verdict is never wrong.
pub open spec fn verdict_ok(p: Prefix, m: Matrix, verdict: SolverResult) -> bool {
    &&& verdict == SolverResult::Satisfiable ==> formula_true(p, m)
    &&& verdict == SolverResult::Unsatisfiable ==> !formula_true(p, m)
    &&& shape(p, m).len() > 2 ==> verdict == SolverResult::Unknown
    &&& shape(p, m).len() <= 2 && in_range(p, m) ==> verdict != SolverResult::Unknown
}

/// A move of the universal player: universal literals that do not
/// contradict each other.
pub open spec fn move_ok(p: Prefix, witness: Seq<Lit>) -> bool {
    &&& forall|i: int| 0 <= i < witness.len() ==> bound_by(p, QuantTy::Forall, (#[trigger] witness[i]).v())
    &&& crate::sat::consistent(witness)
}

/// A refuting move: universal literals under which the clauses cannot be
/// satisfied.
pub open spec fn refutes(p: Prefix, m: Matrix, witness: Seq<Lit>) -> bool {
    &&& forall|i: int| 0 <= i < witness.len() ==> bound_by(p, QuantTy::Forall, (#[trigger] witness[i]).v())
    &&& forall|a: Assignment| #[trigger] cube_true(a, witness) ==> !matrix_true(a, m)
}

/// The model plays the universal variables of the formula, defines others,
/// and satisfies the clauses whatever the universal ones are.
pub open spec fn certifies(p: Prefix, m: Matrix, model: SkolemModel) -> bool {
    &&& forall|universal: Map<Var, bool>, x: Var|
        #![trigger model.values(universal).contains_key(x)]
        assigns(universal, model.spec_universals()) && model.values(universal).contains_key(x) ==> bound(p, x)
            || mentions(m, x)
    &&& forall|x: Var| #[trigger] model.spec_universals().contains(x) ==> bound_by(p, QuantTy::Forall, x)
    &&& forall|x: Var| #[trigger] bound_by(p, QuantTy::Forall, x) ==> model.spec_universals().contains(x)
    &&& forall|x: Var| #[trigger] model.defines(x) ==> (bound(p, x) || mentions(m, x)) && !bound_by(p, QuantTy::Forall, x)
    &&& model.wins(m)
}

impl IncDet {
    /// The quantifier blocks loaded.
    pub closed spec fn blocks(self) -> Prefix {
        self.formula.blocks()
    }

    /// The clauses loaded.
    pub closed spec fn clauses(self) -> Matrix {
        self.formula.clauses()
    }

    /// The clauses and the assumptions that the last solve was about.
    pub closed spec fn goal(self) -> Matrix {
        self.clauses() + units(self.assumptions@)
    }

    /// The stack depth of each clause.
    pub closed spec fn clause_depths(self) -> Seq<usize> {
        self.depths@
    }

    /// The number of extensions in place.
    pub closed spec fn extensions(self) -> u32 {
        self.extensions
    }

    /// No variable is bound twice, what the live search holds follows from
    /// the clauses, and a move recorded as refuting refutes.
    pub closed spec fn wf(self) -> bool {
        &&& self.formula.wf()
        &&& self.depths@.len() == self.clauses().len()
        &&& self.state matches Some(state) ==> state.wf() && follows_from(state.matrix(), self.clauses())
        &&& self.witness is Some && self.refuting ==> refutes(self.blocks(), self.goal(), self.witness->0@)
        &&& forall|i: int| 0 <= i < self.seeds@.len() ==> implied(self.clauses(), (#[trigger] self.seeds@[i])@)
    }

    /// The model of the last satisfiable verdict.
    pub closed spec fn model(self) -> Option<SkolemModel> {
        match self.model {
            Some(model) => Some(*model),
            None => None,
        }
    }

    /// The move recorded with the last unsatisfiable verdict.
    pub closed spec fn witness(self) -> Option<Seq<Lit>> {
        match self.witness {
            Some(witness) => Some(witness@),
            None => None,
        }
    }

    /// The recorded move is known to refute.
    pub closed spec fn refuted(self) -> bool {
        self.witness is Some && self.refuting
    }

    /// A move recorded as refuting refutes.
    pub proof fn lemma_refuting(self)
        requires
            self.wf(),
            self.refuted(),
        ensures
            refutes(self.blocks(), self.goal(), self.witness()->0),
    {
    }

    /// Creates a solver with the provided configuration.
    pub fn with_options(options: Options) -> (solver: IncDet)
        ensures
            solver.wf(),
            solver.blocks() == Prefix::empty(),
            solver.clauses() == Matrix::empty(),
            solver.clause_depths() == Seq::<usize>::empty(),
            solver.extensions() == 0,
            solver.model() is None,
            solver.witness() is None,
    {
        let solver = IncDet {
            options,
            formula: QCNF { prefix: Vec::new(), matrix: Vec::new() },
            depths: Vec::new(),
            state: None,
            model: None,
            witness: None,
            refuting: false,
            assumptions: Vec::new(),
            extensions: 0,
            seeds: Vec::new(),
        };
        assert(solver.blocks() =~= Prefix::empty());
        assert(solver.clauses() =~= Matrix::empty());
        solver
    }

    /// Creates a solver with the default configuration and loads the given
    /// formula.
    pub fn from_qcnf(qcnf: &QCNF) -> (solver: IncDet)
        requires
            qcnf.wf(),
        ensures
            solver.wf(),
            solver.blocks() == qcnf.blocks(),
            solver.clauses() == qcnf.clauses(),
            solver.model() is None,
            solver.witness() is None,
    {
        IncDet::from_qcnf_with_options(qcnf, Options::default())
    }

    /// Creates a solver with the provided configuration and loads the
    /// given formula.
    pub fn from_qcnf_with_options(qcnf: &QCNF, options: Options) -> (solver: IncDet)
        requires
            qcnf.wf(),
        ensures
            solver.wf(),
            solver.blocks() == qcnf.blocks(),
            solver.clauses() == qcnf.clauses(),
            solver.extensions() == 0,
            forall|i: int| 0 <= i < solver.clause_depths().len() ==> #[trigger] solver.clause_depths()[i] == 0,
            solver.model() is None,
            solver.witness() is None,
    {
        let mut depths: Vec<usize> = Vec::new();
        let mut k: usize = 0;
        while k < qcnf.matrix.len()
            invariant
                k <= qcnf.matrix@.len(),
                depths@.len() == k,
                forall|i: int| 0 <= i < k ==> #[trigger] depths@[i] == 0,
            decreases qcnf.matrix.len() - k,
        {
            depths.push(0);
            k += 1;
        }
        IncDet::from_frames(qcnf, depths, options)
    }

    /// Creates a solver with the provided configuration and loads the
    /// given formula, whose clauses were added at the given stack depths.
    pub fn from_frames(qcnf: &QCNF, depths: Vec<usize>, options: Options) -> (solver: IncDet)
        requires
            qcnf.wf(),
            depths@.len() == qcnf.clauses().len(),
        ensures
            solver.wf(),
            solver.blocks() == qcnf.blocks(),
            solver.clauses() == qcnf.clauses(),
            solver.clause_depths() == depths@,
            solver.extensions() == 0,
            solver.model() is None,
            solver.witness() is None,
    {
        let formula = QCNF { prefix: copy_prefix(&qcnf.prefix), matrix: copy_clauses(&qcnf.matrix) };
        IncDet {
            options,
            formula,
            depths,
            state: None,
            model: None,
            witness: None,
            refuting: false,
            assumptions: Vec::new(),
            extensions: 0,
            seeds: Vec::new(),
        }
    }

    /// Solves the formula.
    pub fn solve(&mut self) -> (verdict: SolverResult)
        requires
            old(self).wf(),
        ensures
            final(self).wf(),
            final(self).blocks() == old(self).blocks(),
            final(self).clauses() == old(self).clauses(),
            final(self).clause_depths() == old(self).clause_depths(),
            final(self).extensions() == old(self).extensions(),
            final(self).goal() == old(self).clauses(),
            verdict_ok(old(self).blocks(), old(self).clauses(), verdict),
            evidence_ok(*final(self), verdict),
    {
        let none: Vec<Lit> = Vec::new();
        proof {
            assert(self.clauses() + units(none@) =~= self.clauses());
        }
        self.solve_under(&none)
    }

    /// Solves the formula under assumptions, which are temporary clauses of
    /// one literal.
    pub fn solve_under(&mut self, assumptions: &Vec<Lit>) -> (verdict: SolverResult)
        requires
            old(self).wf(),
        ensures
            final(self).wf(),
            final(self).blocks() == old(self).blocks(),
            final(self).clauses() == old(self).clauses(),
            final(self).clause_depths() == old(self).clause_depths(),
            final(self).extensions() == old(self).extensions(),
            final(self).goal() == old(self).clauses() + units(assumptions@),
            verdict_ok(old(self).blocks(), final(self).goal(), verdict),
            evidence_ok(*final(self), verdict),
    {
        self.ask(assumptions);
        let goal = self.goal_formula();
        let core = match Core::load(&goal) {
            None => {
                return SolverResult::Unknown;
            },
            Some(core) => core,
        };
        let mut state = State::load(self.options, &core);
        proof {
            lemma_seeds(self.seeds@, self.clauses(), units(assumptions@), core.clauses());
        }
        state.add_learnt_clauses(&self.seeds);
        let conclusion = state.search(&core);
        if !core.flipped && assumptions.len() == 0 {
            proof {
                assert(self.goal() =~= self.clauses());
            }
            self.state = Some(state);
        }
        self.record(core, conclusion)
    }

    /// Forgets what the last solve found and takes new assumptions.
    fn ask(&mut self, assumptions: &Vec<Lit>)
        requires
            old(self).wf(),
        ensures
            final(self).wf(),
            final(self).formula == old(self).formula,
            final(self).depths == old(self).depths,
            final(self).options == old(self).options,
            final(self).extensions == old(self).extensions,
            final(self).assumptions@ == assumptions@,
            final(self).seeds == old(self).seeds,
            final(self).state == old(self).state,
            final(self).model is None,
            final(self).witness is None,
    {
        self.model = None;
        self.witness = None;
        self.refuting = false;
        self.assumptions = copy_lits(assumptions);
    }

    /// The formula together with the assumptions.
    fn goal_formula(&self) -> (goal: QCNF)
        ensures
            goal.blocks() == self.blocks(),
            goal.clauses() == self.goal(),
    {
        let mut matrix = copy_clauses(&self.formula.matrix);
        add_units(&mut matrix, &self.assumptions);
        QCNF { prefix: copy_prefix(&self.formula.prefix), matrix }
    }

    /// Records a conclusion about the goal.
    fn record(&mut self, core: Core, conclusion: Conclusion) -> (verdict: SolverResult)
        requires
            old(self).wf(),
            old(self).model is None,
            old(self).witness is None,
            core.represents(old(self).blocks(), old(self).goal()),
            shape(old(self).blocks(), old(self).goal()).len() <= 2,
            conclusion_ok(core, conclusion),
        ensures
            final(self).wf(),
            final(self).formula == old(self).formula,
            final(self).depths == old(self).depths,
            final(self).options == old(self).options,
            final(self).extensions == old(self).extensions,
            final(self).assumptions == old(self).assumptions,
            final(self).state == old(self).state,
            verdict_ok(old(self).blocks(), old(self).goal(), verdict),
            evidence_ok(*final(self), verdict),
    {
        let ghost p = self.blocks();
        let ghost m = self.goal();
        match conclusion {
            Conclusion::Sat(model) => {
                proof {
                    lemma_certifies(&model, core, p, m);
                }
                self.model = Some(model);
                SolverResult::Satisfiable
            },
            Conclusion::Unsat(witness) => {
                proof {
                    assert forall|i: int| 0 <= i < witness@.len() implies bound_by(p, QuantTy::Forall, (#[trigger] witness@[i]).v()) by {
                        assert(core.universals@.contains(witness@[i].v()));
                    }
                    if !core.flipped {
                        assert forall|a: Assignment| #[trigger] cube_true(a, witness@) implies !matrix_true(a, m) by {
                            assert(!matrix_true(a, core.clauses()));
                        }
                    }
                }
                self.refuting = !core.flipped;
                self.witness = Some(witness);
                SolverResult::Unsatisfiable
            },
            Conclusion::OutOfRange => {
                proof {
                    if in_range(p, m) {
                        lemma_core_in_range(core, p, m);
                    }
                }
                SolverResult::Unknown
            },
        }
    }

    /// Extends the loaded formula in place after a solve, with new
    /// variables in the existing blocks and new clauses at the given stack
    /// depths, and solves it again. The live search goes on with what it
    /// has: root-level functions, learnt clauses, handled cases and
    /// activities.
    ///
    /// `None` when the extension is not possible in place, with the formula
    /// as it was: a first universal variable, a variable that is bound or
    /// occurs already, more than two blocks, or retained choices that a new
    /// clause may break.
    pub fn extend_and_resolve(
        &mut self,
        new_universals: &Vec<Var>,
        new_existentials: &Vec<Var>,
        clauses: &Vec<Vec<Lit>>,
        depths: &Vec<usize>,
    ) -> (verdict: Option<SolverResult>)
        requires
            old(self).wf(),
            depths@.len() == clauses@.len(),
        ensures
            final(self).wf(),
            ({
                let q = extended(old(self).blocks(), new_universals@, new_existentials@);
                let n = old(self).clauses() + matrix_of(clauses@);
                let possible = can_extend(old(self).blocks(), old(self).clauses(), new_universals@, new_existentials@) && shape(q, n).len()
                    <= 2 && universal_first(q, n);
                &&& verdict is Some ==> possible
                &&& old(self).can_take(new_universals@, new_existentials@, matrix_of(clauses@)) ==> verdict is Some
                &&& old(self).recorded_cases() > MAX_REVERIFIED_CASES && !old(self).conflicted() && !crate::incdet::extend::all_tautologies(
                    matrix_of(clauses@),
                ) ==> verdict is None
            }),
            match verdict {
                None => {
                    &&& final(self).blocks() == old(self).blocks()
                    &&& final(self).clauses() == old(self).clauses()
                    &&& final(self).clause_depths() == old(self).clause_depths()
                    &&& final(self).extensions() == old(self).extensions()
                },
                Some(verdict) => {
                    &&& extends_prefix(old(self).blocks(), final(self).blocks(), new_universals@, new_existentials@)
                    &&& final(self).clauses() == old(self).clauses() + matrix_of(clauses@)
                    &&& final(self).clause_depths() == old(self).clause_depths() + depths@
                    &&& old(self).extensions() < u32::MAX ==> final(self).extensions() == old(self).extensions() + 1
                    &&& final(self).goal() == final(self).clauses()
                    &&& verdict_ok(final(self).blocks(), final(self).clauses(), verdict)
                    &&& evidence_ok(*final(self), verdict)
                },
            },
    {
        let prefix = match extended_prefix(&self.formula, new_universals, new_existentials) {
            None => {
                return None;
            },
            Some(prefix) => prefix,
        };
        let mut matrix = copy_clauses(&self.formula.matrix);
        let mut added = copy_clauses(clauses);
        matrix.append(&mut added);
        let formula = QCNF { prefix, matrix };
        assert(formula.clauses() =~= self.clauses() + matrix_of(clauses@));
        let core = match Core::load(&formula) {
            None => {
                return None;
            },
            Some(core) => core,
        };
        if core.flipped {
            return None;
        }
        let live = self.state.take();
        let mut state = match live {
            None => State::load(self.options, &core),
            Some(mut state) => {
                let ghost m = self.clauses();
                let ghost lits = state.root_pure_lits@;
                proof {
                    let n = matrix_of(clauses@);
                    assert forall|i: int| 0 <= i < clauses@.len() implies state.has_pure_choice((#[trigger] clauses@[i])@)
                        == has_declined(n[i], lits) by {
                        assert(n[i] == clauses@[i]@);
                    }
                }
                if state.conflicted {
                    // more clauses keep the formula false, whatever was
                    // chosen or handled
                    State::load(self.options, &core)
                } else if !state.extend(&core, clauses) {
                    // the state is as usable as before, for the same clauses
                    self.state = Some(state);
                    return None;
                } else {
                    proof {
                        lemma_extended(m, matrix_of(clauses@), state.matrix(), formula.clauses());
                    }
                    state
                }
            },
        };
        let conclusion = state.search(&core);
        let mut all_depths = copy_depths(&self.depths);
        let mut new_depths = copy_depths(depths);
        all_depths.append(&mut new_depths);
        proof {
            let before = self.clauses();
            assert forall|i: int| 0 <= i < self.seeds@.len() implies implied(formula.clauses(), (#[trigger] self.seeds@[i])@) by {
                assert forall|a: Assignment| #[trigger] matrix_true(a, formula.clauses()) implies clause_true(a, self.seeds@[i]@) by {
                    lemma_part_true(a, before, matrix_of(clauses@));
                }
            }
        }
        self.formula = formula;
        self.depths = all_depths;
        self.state = Some(state);
        self.model = None;
        self.witness = None;
        self.refuting = false;
        self.assumptions = Vec::new();
        self.extensions = self.extensions.saturating_add(1);
        proof {
            assert(self.goal() =~= self.clauses());
        }
        Some(self.record(core, conclusion))
    }

    /// Solves the formula under assumptions on the live search, which keeps
    /// what it derives: learnt clauses follow from the formula alone.
    ///
    /// `None` when the live search cannot answer; the caller then falls
    /// back to a solver of its own.
    pub fn resolve_with_assumptions(&mut self, assumptions: &Vec<Lit>) -> (verdict: Option<SolverResult>)
        requires
            old(self).wf(),
        ensures
            final(self).wf(),
            final(self).blocks() == old(self).blocks(),
            final(self).clauses() == old(self).clauses(),
            final(self).clause_depths() == old(self).clause_depths(),
            final(self).extensions() == old(self).extensions(),
            !old(self).can_query() && !old(self).conflicted() ==> verdict is None && *final(self) == *old(self),
            ({
                let n = old(self).clauses() + units(assumptions@);
                let answerable = shape(old(self).blocks(), n).len() <= 2 && in_range(old(self).blocks(), n);
                &&& shape(old(self).blocks(), n).len() > 2 ==> verdict is None
                &&& old(self).conflicted() && answerable ==> verdict is Some
                &&& old(self).is_live() && old(self).can_query() && answerable && (forall|i: int|
                    0 <= i < assumptions@.len() ==> old(self).assumable(#[trigger] assumptions@[i])) ==> verdict is Some
            }),
            old(self).is_live() && !old(self).conflicted() && (exists|i: int|
                0 <= i < assumptions@.len() && !old(self).existential((#[trigger] assumptions@[i]).v())) ==> verdict is None,
            verdict != Some(SolverResult::Unknown),
            old(self).is_live() || verdict is Some ==> final(self).is_live(),
            verdict matches Some(verdict) ==> {
                &&& final(self).goal() == old(self).clauses() + units(assumptions@)
                &&& verdict_ok(old(self).blocks(), final(self).goal(), verdict)
                &&& evidence_ok(*final(self), verdict)
            },
    {
        let conflicted = match &self.state {
            Some(state) => state.conflicted,
            None => false,
        };
        if !conflicted && !self.fast_query_available() {
            return None;
        }
        self.ask(assumptions);
        let goal = self.goal_formula();
        let core = match Core::load(&goal) {
            None => {
                return None;
            },
            Some(core) => core,
        };
        let live = self.state.take();
        let mut state = match live {
            Some(state) => state,
            None => match self.fresh_search() {
                Some(state) => state,
                None => {
                    return None;
                },
            },
        };
        if !conflicted && !state.start_query(assumptions) {
            self.state = Some(state);
            return None;
        }
        let conclusion = state.search(&core);
        let satisfiable = match &conclusion {
            Conclusion::Sat(_) => true,
            _ => false,
        };
        state.end_query(satisfiable);
        self.state = Some(state);
        match self.record(core, conclusion) {
            SolverResult::Unknown => None,
            verdict => Some(verdict),
        }
    }

    /// A search for the clauses alone, if they have at most two alternating
    /// blocks with the universal one first.
    fn fresh_search(&self) -> (state: Option<State>)
        requires
            self.wf(),
        ensures
            state is Some <==> shape(self.blocks(), self.clauses()).len() <= 2 && universal_first(self.blocks(), self.clauses()),
            state matches Some(state) ==> state.wf() && follows_from(state.matrix(), self.clauses()) && state.unsearched(),
    {
        match Core::load(&self.formula) {
            None => None,
            Some(core) => if core.flipped {
                None
            } else {
                Some(State::load(self.options, &core))
            },
        }
    }

    /// Whether assumption queries can run on the live search: not when
    /// recorded cases predate the query (their strategies need not respect
    /// the assumptions) or the incremental conflict check is disabled.
    pub fn fast_query_available(&self) -> (available: bool)
        ensures
            available == self.can_query(),
    {
        match &self.state {
            Some(state) => self.options.incremental_conflict_check && state.handled_cases.len() == 0,
            None => self.options.incremental_conflict_check,
        }
    }

    /// The incremental conflict check is enabled.
    pub closed spec fn checks_incrementally(&self) -> bool {
        self.options.incremental_conflict_check
    }

    /// The number of cases that the live search has recorded.
    pub closed spec fn recorded_cases(&self) -> nat {
        match self.state {
            Some(state) => state.handled_cases@.len(),
            None => 0,
        }
    }

    /// The live search has found a clause that no existential literal can
    /// satisfy.
    pub closed spec fn conflicted(&self) -> bool {
        self.state is Some && self.state->0.conflicted
    }

    /// No case is recorded, and the incremental conflict check is enabled.
    pub open spec fn can_query(&self) -> bool {
        self.checks_incrementally() && self.recorded_cases() == 0
    }

    /// The live search knows the variable as an existential one.
    pub closed spec fn existential(&self, x: Var) -> bool {
        self.state is Some && self.state->0.quantified(x, QuantTy::Exists)
    }

    /// The opposites of the literals that the live search made constant at
    /// the root by choice.
    pub closed spec fn declined(&self) -> Seq<Lit> {
        match self.state {
            Some(state) => state.root_pure_lits@,
            None => Seq::empty(),
        }
    }

    /// An extension can be taken in place: it keeps one alternation with
    /// the universal block first, and nothing that the live search retains
    /// is at stake, since there is no such search, it has refuted the
    /// clauses, the clauses say nothing, or it has recorded no case and the
    /// clauses contain none of the literals it declined.
    pub open spec fn can_take(&self, universals: Seq<Var>, existentials: Seq<Var>, clauses: Matrix) -> bool {
        let q = extended(self.blocks(), universals, existentials);
        let n = self.clauses() + clauses;
        &&& can_extend(self.blocks(), self.clauses(), universals, existentials)
        &&& shape(q, n).len() <= 2
        &&& universal_first(q, n)
        &&& {
            ||| !self.is_live()
            ||| self.conflicted()
            ||| crate::incdet::extend::all_tautologies(clauses)
            ||| self.recorded_cases() == 0 && forall|i: int|
                0 <= i < clauses.len() ==> !has_declined(#[trigger] clauses[i], self.declined())
        }
    }

    /// The literal is of a known existential variable, and no choice at the
    /// root is against it.
    pub open spec fn assumable(&self, lit: Lit) -> bool {
        self.existential(lit.v()) && !self.declined().contains(lit)
    }

    /// A search is live.
    pub closed spec fn is_live(&self) -> bool {
        self.state is Some
    }

    /// Drops the clauses that were added above a stack depth.
    pub fn retract_to_depth(&mut self, depth: usize) -> (retracted: bool)
        requires
            old(self).wf(),
        ensures
            retracted,
            final(self).wf(),
            final(self).blocks() == old(self).blocks(),
            final(self).clauses() == kept_to_depth(old(self).clauses(), old(self).clause_depths(), depth),
            final(self).clause_depths() == kept_depths(old(self).clause_depths(), depth),
            final(self).extensions() == old(self).extensions(),
            final(self).model() is None,
            final(self).witness() is None,
    {
        let ghost m = self.clauses();
        let ghost ds = self.depths@;
        let mut matrix: Vec<Vec<Lit>> = Vec::new();
        let mut depths: Vec<usize> = Vec::new();
        let mut k: usize = 0;
        proof {
            assert(m.take(0) =~= Matrix::empty());
            assert(ds.take(0) =~= Seq::<usize>::empty());
            assert(matrix_of(matrix@) =~= Matrix::empty());
        }
        while k < self.formula.matrix.len()
            invariant
                k <= m.len(),
                m == self.formula.clauses(),
                ds == self.depths@,
                ds.len() == m.len(),
                matrix@.len() == depths@.len(),
                matrix_of(matrix@) == kept_to_depth(m.take(k as int), ds.take(k as int), depth),
                depths@ == kept_depths(ds.take(k as int), depth),
            decreases m.len() - k,
        {
            proof {
                assert(m.take(k as int + 1).drop_last() =~= m.take(k as int));
                assert(ds.take(k as int + 1).drop_last() =~= ds.take(k as int));
                assert(m.take(k as int + 1).last() == self.formula.matrix@[k as int]@);
            }
            if self.depths[k] <= depth {
                let ghost before = matrix_of(matrix@);
                matrix.push(copy_lits(&self.formula.matrix[k]));
                depths.push(self.depths[k]);
                assert(matrix_of(matrix@) =~= before.push(self.formula.matrix@[k as int]@));
            }
            k += 1;
        }
        assert(m.take(m.len() as int) =~= m);
        assert(ds.take(ds.len() as int) =~= ds);
        self.formula = QCNF { prefix: copy_prefix(&self.formula.prefix), matrix };
        self.depths = depths;
        self.seeds = Vec::new();
        self.state = None;
        self.model = None;
        self.witness = None;
        self.refuting = false;
        true
    }

    /// The clauses learnt by the live search. They follow from the loaded
    /// clauses, so they remain valid for any extension of them.
    pub fn learnt_clauses(&self) -> (clauses: Vec<Vec<Lit>>)
        requires
            self.wf(),
        ensures
            matrix_of(clauses@) == self.learnt(),
            forall|i: int| 0 <= i < clauses@.len() ==> implied(self.clauses(), (#[trigger] clauses@[i])@),
    {
        match &self.state {
            Some(state) => {
                let clauses = state.learnt_clauses();
                proof {
                    assert forall|i: int| 0 <= i < clauses@.len() implies implied(self.clauses(), (#[trigger] clauses@[i])@) by {
                        assert(implied(state.matrix(), clauses@[i]@));
                    }
                }
                clauses
            },
            None => {
                let none: Vec<Vec<Lit>> = Vec::new();
                assert(matrix_of(none@) =~= Matrix::empty());
                none
            },
        }
    }

    /// The clauses that the next search starts with.
    pub closed spec fn seeded(&self) -> Matrix {
        matrix_of(self.seeds@)
    }

    /// The clauses that the live search has learnt and kept.
    pub closed spec fn learnt(&self) -> Matrix {
        match self.state {
            Some(state) => state.learnt_matrix(state.learnts@.len() as int),
            None => Seq::empty(),
        }
    }

    /// Gives clauses that follow from the loaded ones, for the next search
    /// to start with.
    pub fn seed(&mut self, clauses: Vec<Vec<Lit>>)
        requires
            old(self).wf(),
            forall|i: int| 0 <= i < clauses@.len() ==> implied(old(self).clauses(), (#[trigger] clauses@[i])@),
        ensures
            final(self).wf(),
            final(self).blocks() == old(self).blocks(),
            final(self).clauses() == old(self).clauses(),
            final(self).clause_depths() == old(self).clause_depths(),
            final(self).extensions() == old(self).extensions(),
            final(self).goal() == old(self).goal(),
            final(self).model() == old(self).model(),
            final(self).witness() == old(self).witness(),
            final(self).seeded() == matrix_of(clauses@),
    {
        self.seeds = clauses;
    }

    /// The loaded formula.
    pub fn formula(&self) -> (formula: &QCNF)
        requires
            self.wf(),
        ensures
            formula.wf(),
            formula.blocks() == self.blocks(),
            formula.clauses() == self.clauses(),
    {
        &self.formula
    }

    /// The stack depth of each loaded clause.
    pub fn depths(&self) -> (depths: &Vec<usize>)
        requires
            self.wf(),
        ensures
            depths@ == self.clause_depths(),
            depths@.len() == self.clauses().len(),
    {
        &self.depths
    }

    /// The number of completed extensions in place.
    pub fn extension_count(&self) -> (count: u32)
        ensures
            count == self.extensions(),
    {
        self.extensions
    }

    /// The move recorded with the last unsatisfiable verdict.
    pub fn unsat_witness_candidate(&self) -> (witness: Option<Vec<Lit>>)
        ensures
            match witness {
                Some(witness) => self.witness() == Some(witness@),
                None => self.witness() is None,
            },
    {
        match &self.witness {
            Some(witness) => Some(copy_lits(witness)),
            None => None,
        }
    }

    /// A winning move for the universal player of an unsatisfiable formula:
    /// universal literals such that no assignment in which they hold
    /// satisfies the clauses, nor the assumptions of the last solve. `None`
    /// if the last verdict was another, or an existential block is outside
    /// the universal one: the universal player then needs a strategy.
    pub fn unsat_witness(&self) -> (witness: Option<Vec<Lit>>)
        requires
            self.wf(),
        ensures
            witness is Some <==> self.refuted(),
            witness matches Some(witness) ==> self.witness() == Some(witness@) && refutes(self.blocks(), self.goal(), witness@),
    {
        if self.refuting {
            self.unsat_witness_candidate()
        } else {
            None
        }
    }

    /// [`IncDet::unsat_witness`] minimized over the given variables: of
    /// their literals, none can be left out alone.
    pub fn unsat_witness_minimized(&self, removable: &VarSet) -> (witness: Option<Vec<Lit>>)
        requires
            self.wf(),
        ensures
            witness is Some <==> self.refuted(),
            witness matches Some(witness) ==> {
                &&& refutes(self.blocks(), self.goal(), witness@)
                &&& witness@.no_duplicates()
                &&& forall|i: int| 0 <= i < witness@.len() ==> self.witness()->0.contains(#[trigger] witness@[i])
                &&& forall|i: int|
                    0 <= i < self.witness()->0.len() && !removable@.contains((#[trigger] self.witness()->0[i]).v()) ==> witness@.contains(
                        self.witness()->0[i],
                    )
                &&& clauses_ok(self.goal()) && crate::sat::lits_ok(self.witness()->0) ==> forall|i: int|
                    0 <= i < witness@.len() && removable@.contains((#[trigger] witness@[i]).v()) ==> needed(self.goal(), witness@, witness@[i])
            },
    {
        match self.unsat_witness() {
            None => None,
            Some(full) => {
                let goal = self.goal_formula();
                Some(minimize_move(&goal.matrix, full, removable, Ghost(self.blocks())))
            },
        }
    }

    /// Checks the Skolem functions of the last satisfiable verdict against
    /// the clauses it was about, by the circuit that they form.
    pub fn verify_skolem_functions(&self) -> (valid: bool)
        requires
            self.wf(),
            self.model() is Some,
        ensures
            valid ==> circuit_satisfies(self.model()->0, self.blocks(), self.goal()),
            leaf_numbered(model_prefix(self.model()->0), self.goal(), self.model()->0) ==> valid == circuit_satisfies(
                self.model()->0,
                self.blocks(),
                self.goal(),
            ),
    {
        match &self.model {
            None => false,
            Some(model) => {
                let goal = self.goal_formula();
                if model.universals.len() as u64 >= crate::incdet::aig::MAX_GRAPH {
                    return false;
                }
                let mut prefix: Vec<(QuantTy, Vec<Var>)> = Vec::new();
                prefix.push((QuantTy::Forall, copy_vars(&model.universals)));
                let instance = QCNF { prefix, matrix: goal.matrix };
                let ghost p = instance.blocks();
                proof {
                    assert(p.len() == 1);
                    assert(p[0] == (QuantTy::Forall, model.universals@));
                    assert(p.drop_last() =~= Prefix::empty());
                    assert(universals_of(p.drop_last()) == Seq::<Var>::empty());
                    assert(universals_of(p) =~= model.universals@);
                }
                let shared = crate::shared::share(model);
                let strategy = Strategy::Leaf(shared);
                let valid = crate::strategy_check::verify_strategy(&instance, &strategy);
                proof {
                    assert(p =~= model_prefix(**model));
                    lemma_satisfying_circuit(&shared, &strategy, p, instance.clauses());
                    crate::strategy_check::lemma_leaf_numbered(shared, p, instance.clauses());
                    if valid {
                        lemma_circuit_satisfies(&shared, &strategy, p, instance.clauses());
                    }
                }
                valid
            },
        }
    }

    /// The piecewise Skolem model. Must only be called after a satisfiable
    /// verdict.
    pub fn skolem_model(&self) -> (model: Rc<SkolemModel>)
        requires
            self.model() is Some,
        ensures
            *model == self.model()->0,
    {
        match &self.model {
            Some(model) => crate::shared::share(model),
            None => Rc::new(SkolemModel { universals: Vec::new(), regions: Vec::new(), final_chain: Vec::new() }),
        }
    }
}

/// What backs a result: a model of the goal, or a move of
/// the universal player.
pub open spec fn evidence_ok(solver: IncDet, verdict: SolverResult) -> bool {
    &&& verdict == SolverResult::Satisfiable ==> solver.model() is Some && certifies(solver.blocks(), solver.goal(), solver.model()->0)
    &&& verdict == SolverResult::Unsatisfiable ==> solver.witness() is Some && move_ok(solver.blocks(), solver.witness()->0)
    &&& verdict == SolverResult::Unsatisfiable ==> solver.refuted() == universal_first(solver.blocks(), solver.goal())
    &&& verdict != SolverResult::Satisfiable ==> solver.model() is None
    &&& verdict != SolverResult::Unsatisfiable ==> solver.witness() is None
}

/// The blocks with new variables: universal ones in the universal block,
/// existential ones in the existential block behind it.
pub open spec fn extends_prefix(p: Prefix, q: Prefix, universals: Seq<Var>, existentials: Seq<Var>) -> bool {
    if p.len() == 1 {
        &&& p[0].0 == QuantTy::Exists
        &&& universals.len() == 0
        &&& q == seq![(QuantTy::Exists, p[0].1 + existentials)]
    } else {
        &&& p.len() == 2
        &&& p[0].0 == QuantTy::Forall
        &&& p[1].0 == QuantTy::Exists
        &&& q == seq![(QuantTy::Forall, p[0].1 + universals), (QuantTy::Exists, p[1].1 + existentials)]
    }
}

/// The blocks with new variables.
pub open spec fn extended(p: Prefix, universals: Seq<Var>, existentials: Seq<Var>) -> Prefix {
    if p.len() == 1 {
        seq![(QuantTy::Exists, p[0].1 + existentials)]
    } else {
        seq![(QuantTy::Forall, p[0].1 + universals), (QuantTy::Exists, p[1].1 + existentials)]
    }
}

/// There is a block for every new variable, and none of them is bound or
/// occurs already.
pub open spec fn can_extend(p: Prefix, m: Matrix, universals: Seq<Var>, existentials: Seq<Var>) -> bool {
    &&& (p.len() == 1 && p[0].0 == QuantTy::Exists && universals.len() == 0) || (p.len() == 2 && p[0].0 == QuantTy::Forall && p[1].0
        == QuantTy::Exists)
    &&& forall|i: int| 0 <= i < universals.len() ==> !mentions(m, #[trigger] universals[i])
    &&& forall|i: int| 0 <= i < existentials.len() ==> !mentions(m, #[trigger] existentials[i])
    &&& prefix_distinct(extended(p, universals, existentials))
}

/// The clauses that were added up to a stack depth.
pub open spec fn kept_to_depth(m: Matrix, depths: Seq<usize>, depth: usize) -> Matrix
    decreases m.len(),
{
    if m.len() == 0 || depths.len() != m.len() {
        Seq::empty()
    } else {
        let before = kept_to_depth(m.drop_last(), depths.drop_last(), depth);
        if depths.last() <= depth {
            before.push(m.last())
        } else {
            before
        }
    }
}

/// The stack depths of those clauses.
pub open spec fn kept_depths(depths: Seq<usize>, depth: usize) -> Seq<usize>
    decreases depths.len(),
{
    if depths.len() == 0 {
        Seq::empty()
    } else {
        let before = kept_depths(depths.drop_last(), depth);
        if depths.last() <= depth {
            before.push(depths.last())
        } else {
            before
        }
    }
}

/// Whatever the universal variables are, the values of the model's circuit
/// satisfy the clauses.
pub open spec fn circuit_satisfies(model: SkolemModel, p: Prefix, m: Matrix) -> bool {
    forall|a: Assignment|
        (forall|x: Var| #[trigger] model.defines(x) ==> a(x) == circuit_value(
            model,
            Map::new(|u: Var| model.spec_universals().contains(u), |u: Var| a(u)),
            x,
        )) ==> #[trigger] matrix_true(a, m)
}

/// The universal variables of a model as a block.
pub open spec fn model_prefix(model: SkolemModel) -> Prefix {
    seq![(QuantTy::Forall, model.universals@)]
}

proof fn lemma_satisfying_circuit(model: &Rc<SkolemModel>, strategy: &Strategy, p: Prefix, m: Matrix)
    requires
        *strategy == Strategy::Leaf(*model),
        universals_of(p) == model.universals@,
    ensures
        circuit_satisfies(**model, p, m) ==> circuit_wins(*strategy, p, m),
{
    assert forall|a: Assignment| circuit_satisfies(**model, p, m) && #[trigger] crate::strategy_check::circuit_follows(
        *strategy,
        p,
        a,
    ) implies matrix_true(a, m) by {
        let inputs = crate::strategy_check::restricted_to(model.universals@, a);
        let point = crate::strategy_circuit::leaf_inputs(model.universals@, inputs);
        let plain = Map::new(|u: Var| model.spec_universals().contains(u), |u: Var| a(u));
        assert(point =~= plain);
        let played = strategy.circuit(inputs, Map::empty());
        assert forall|x: Var| #[trigger] model.defines(x) implies a(x) == circuit_value(**model, plain, x) by {
            assert(played.contains_key(x));
            assert(a(x) == played[x]);
        }
    }
}

proof fn lemma_circuit_satisfies(model: &Rc<SkolemModel>, strategy: &Strategy, p: Prefix, m: Matrix)
    requires
        *strategy == Strategy::Leaf(*model),
        universals_of(p) == model.universals@,
        circuit_wins(*strategy, p, m),
    ensures
        circuit_satisfies(**model, p, m),
{
    assert forall|a: Assignment|
        (forall|x: Var| #[trigger] model.defines(x) ==> a(x) == circuit_value(
            **model,
            Map::new(|u: Var| model.spec_universals().contains(u), |u: Var| a(u)),
            x,
        )) implies #[trigger] matrix_true(a, m) by {
        let inputs = crate::strategy_check::restricted_to(model.universals@, a);
        let point = crate::strategy_circuit::leaf_inputs(model.universals@, inputs);
        let plain = Map::new(|u: Var| model.spec_universals().contains(u), |u: Var| a(u));
        assert(point =~= plain);
        let played = strategy.circuit(inputs, Map::empty());
        assert forall|x: Var| #[trigger] played.contains_key(x) implies a(x) == played[x] by {
            assert(model.defines(x));
        }
        assert(crate::incdet::model::agrees(a, played));
        assert(crate::strategy_check::circuit_follows(*strategy, p, a));
    }
}

/// A model of the core certifies the formula that it represents.
proof fn lemma_certifies(model: &SkolemModel, core: Core, p: Prefix, m: Matrix)
    requires
        core.represents(p, m),
        conclusion_model(*model, core),
    ensures
        certifies(p, m, *model),
        formula_true(p, m),
{
    lemma_wins_weaker(*model, core.clauses(), m);
    assert forall|universal: Map<Var, bool>, x: Var|
        #![trigger model.values(universal).contains_key(x)]
        assigns(universal, model.spec_universals()) && model.values(universal).contains_key(x) implies bound(p, x) || mentions(m, x) by {
        if core.universals@.contains(x) {
            assert(bound_by(p, QuantTy::Forall, x));
            let k = choose|k: int| 0 <= k < p.len() && (#[trigger] p[k]).0 == QuantTy::Forall && p[k].1.contains(x);
            assert(bound(p, x));
        }
    }
}

spec fn conclusion_model(model: SkolemModel, core: Core) -> bool {
    &&& model.spec_universals() == core.universals@
    &&& model.wins(core.clauses())
    &&& answered(core.universals@, core.clauses())
    &&& forall|universal: Map<Var, bool>, x: Var|
        #![trigger model.values(universal).contains_key(x)]
        assigns(universal, model.spec_universals()) && model.values(universal).contains_key(x) ==> core.universals@.contains(x)
            || core.existentials@.contains(x)
    &&& forall|x: Var| #[trigger] model.defines(x) ==> core.existentials@.contains(x)
}

/// A part of clauses that hold holds.
proof fn lemma_part_true(a: Assignment, m: Matrix, n: Matrix)
    requires
        matrix_true(a, m + n),
    ensures
        matrix_true(a, m),
        matrix_true(a, n),
{
    assert forall|i: int| 0 <= i < m.len() implies clause_true(a, #[trigger] m[i]) by {
        assert((m + n)[i] == m[i]);
    }
    assert forall|i: int| 0 <= i < n.len() implies clause_true(a, #[trigger] n[i]) by {
        assert((m + n)[m.len() + i] == n[i]);
    }
}

/// What follows from the clauses follows from a core of them.
proof fn lemma_seeds(seeds: Seq<Vec<Lit>>, m: Matrix, more: Matrix, core: Matrix)
    requires
        forall|i: int| 0 <= i < seeds.len() ==> implied(m, (#[trigger] seeds[i])@),
        forall|b: Assignment| #[trigger] matrix_true(b, core) ==> matrix_true(b, m + more),
    ensures
        forall|i: int| 0 <= i < seeds.len() ==> implied(core, (#[trigger] seeds[i])@),
{
    assert forall|i: int| 0 <= i < seeds.len() implies implied(core, (#[trigger] seeds[i])@) by {
        assert forall|a: Assignment| #[trigger] matrix_true(a, core) implies clause_true(a, seeds[i]@) by {
            lemma_part_true(a, m, more);
        }
    }
}

/// What follows from clauses and their additions follows from the
/// extended clauses.
proof fn lemma_extended(m: Matrix, added: Matrix, n: Matrix, all: Matrix)
    requires
        all == m + added,
        forall|b: Assignment| #[trigger] matrix_true(b, m) && matrix_true(b, added) ==> matrix_true(b, n),
    ensures
        follows_from(n, all),
{
    assert forall|b: Assignment| #[trigger] matrix_true(b, all) implies matrix_true(b, n) by {
        assert forall|i: int| 0 <= i < m.len() implies crate::semantics::clause_true(b, #[trigger] m[i]) by {
            assert(all[i] == m[i]);
        }
        assert forall|i: int| 0 <= i < added.len() implies crate::semantics::clause_true(b, #[trigger] added[i]) by {
            assert(all[m.len() + i] == added[i]);
        }
        assert(matrix_true(b, m));
    }
}

/// A copy of stack depths.
fn copy_depths(depths: &Vec<usize>) -> (copy: Vec<usize>)
    ensures
        copy@ == depths@,
{
    let mut copy: Vec<usize> = Vec::new();
    let mut k: usize = 0;
    while k < depths.len()
        invariant
            k <= depths@.len(),
            copy@ =~= depths@.take(k as int),
        decreases depths.len() - k,
    {
        copy.push(depths[k]);
        k += 1;
    }
    copy
}

/// Leaves out the removable literals of a refuting move, one by one, as
/// long as what is left refutes.
pub(crate) fn minimize_move(matrix: &Vec<Vec<Lit>>, full: Vec<Lit>, removable: &VarSet, Ghost(p): Ghost<Prefix>) -> (witness: Vec<Lit>)
    requires
        refutes(p, matrix_of(matrix@), full@),
    ensures
        refutes(p, matrix_of(matrix@), witness@),
        witness@.no_duplicates(),
        forall|i: int| 0 <= i < witness@.len() ==> full@.contains(#[trigger] witness@[i]),
        forall|i: int| 0 <= i < full@.len() && !removable@.contains((#[trigger] full@[i]).v()) ==> witness@.contains(full@[i]),
        clauses_ok(matrix_of(matrix@)) && crate::sat::lits_ok(full@) ==> forall|i: int|
            0 <= i < witness@.len() && removable@.contains((#[trigger] witness@[i]).v()) ==> needed(matrix_of(matrix@), witness@, witness@[i]),
{
    let ghost m = matrix_of(matrix@);
    let mut solver = SatSolver::new();
    crate::incdet::cegar::load_clauses(&mut solver, matrix);
    assert(solver.clauses() =~= m);
    let mut witness = each_once(&full);
    proof {
        assert forall|i: int| 0 <= i < witness@.len() implies full@.contains(#[trigger] witness@[i]) && bound_by(
            p,
            QuantTy::Forall,
            witness@[i].v(),
        ) by {
            assert(witness@.contains(witness@[i]));
            let j = choose|j: int| 0 <= j < full@.len() && full@[j] == witness@[i];
            assert(bound_by(p, QuantTy::Forall, full@[j].v()));
        }
        assert forall|a: Assignment| #[trigger] cube_true(a, witness@) implies !matrix_true(a, m) by {
            assert forall|i: int| 0 <= i < full@.len() implies lit_true(a, #[trigger] full@[i]) by {
                assert(full@.contains(full@[i]));
                assert(witness@.contains(full@[i]));
                let j = choose|j: int| 0 <= j < witness@.len() && witness@[j] == full@[i];
                assert(lit_true(a, witness@[j]));
            }
            assert(cube_true(a, full@));
        }
        assert forall|i: int| 0 <= i < full@.len() implies witness@.contains(#[trigger] full@[i]) by {
            assert(full@.contains(full@[i]));
        }
    }
    let mut k: usize = 0;
    while k < full.len()
        invariant
            k <= full@.len(),
            solver.wf(),
            solver.clauses() == m,
            refutes(p, m, full@),
            refutes(p, m, witness@),
            witness@.no_duplicates(),
            forall|i: int| 0 <= i < witness@.len() ==> full@.contains(#[trigger] witness@[i]),
            forall|i: int| 0 <= i < full@.len() && !removable@.contains((#[trigger] full@[i]).v()) ==> witness@.contains(full@[i]),
            clauses_ok(m) && crate::sat::lits_ok(full@) ==> forall|i: int|
                0 <= i < k && removable@.contains((#[trigger] full@[i]).v()) && witness@.contains(full@[i]) ==> needed(m, witness@, full@[i]),
        decreases full.len() - k,
    {
        let lit = full[k];
        let ghost before = witness@;
        if removable.contains(lit.var()) {
            let reduced = without_lit(&witness, lit);
            proof {
                if crate::sat::lits_ok(full@) {
                    assert forall|i: int| 0 <= i < reduced@.len() implies crate::sat::lit_ok(#[trigger] reduced@[i]) by {
                        assert(reduced@.contains(reduced@[i]));
                        let j = choose|j: int| 0 <= j < before.len() && before[j] == reduced@[i];
                        assert(full@.contains(before[j]));
                        let n = choose|n: int| 0 <= n < full@.len() && full@[n] == before[j];
                        assert(crate::sat::lit_ok(full@[n]));
                    }
                }
            }
            match solver.solve_with_assumptions(&reduced) {
                SatOutcome::Unsat => {
                    proof {
                        assert forall|i: int| 0 <= i < reduced@.len() implies bound_by(p, QuantTy::Forall, (#[trigger] reduced@[i]).v())
                            && full@.contains(reduced@[i]) by {
                            assert(reduced@.contains(reduced@[i]));
                            let j = choose|j: int| 0 <= j < witness@.len() && witness@[j] == reduced@[i];
                            assert(full@.contains(witness@[j]));
                        }
                    }
                    witness = reduced;
                    proof {
                        assert forall|i: int| 0 <= i < k && #[trigger] witness@.contains(full@[i]) && needed(m, before, full@[i]) implies needed(
                            m,
                            witness@,
                            full@[i],
                        ) by {
                            lemma_needed(m, before, witness@, full@[i]);
                        }
                        assert(!witness@.contains(lit));
                    }
                },
                SatOutcome::Sat(model) => {
                    proof {
                        let a = crate::incdet::determinacy::model_assignment(model@);
                        crate::incdet::determinacy::lemma_model_assignment(model@);
                        assert(matrix_true(a, m) && cube_true(a, reduced@));
                        assert forall|l: Lit| #[trigger] witness@.contains(l) && l != lit implies lit_true(a, l) by {
                            assert(reduced@.contains(l));
                            let j = choose|j: int| 0 <= j < reduced@.len() && reduced@[j] == l;
                            assert(lit_true(a, reduced@[j]));
                        }
                        assert(needed(m, witness@, lit));
                    }
                },
                SatOutcome::OutOfRange => {},
            }
        }
        k += 1;
    }
    proof {
        if clauses_ok(m) && crate::sat::lits_ok(full@) {
            assert forall|i: int| 0 <= i < witness@.len() && removable@.contains((#[trigger] witness@[i]).v()) implies needed(
                m,
                witness@,
                witness@[i],
            ) by {
                assert(full@.contains(witness@[i]));
                let j = choose|j: int| 0 <= j < full@.len() && full@[j] == witness@[i];
                assert(witness@.contains(full@[j]));
            }
        }
    }
    witness
}

/// The other literals alone do not refute the clauses.
pub open spec fn needed(m: Matrix, witness: Seq<Lit>, lit: Lit) -> bool {
    exists|a: Assignment| #[trigger] matrix_true(a, m) && forall|l: Lit| #[trigger] witness.contains(l) && l != lit ==> lit_true(a, l)
}

/// What is needed of more literals is needed of fewer.
proof fn lemma_needed(m: Matrix, more: Seq<Lit>, fewer: Seq<Lit>, lit: Lit)
    requires
        needed(m, more, lit),
        forall|l: Lit| #[trigger] fewer.contains(l) ==> more.contains(l),
    ensures
        needed(m, fewer, lit),
{
    let a = choose|a: Assignment| #[trigger] matrix_true(a, m) && forall|l: Lit| #[trigger] more.contains(l) && l != lit ==> lit_true(a, l);
    assert(matrix_true(a, m) && forall|l: Lit| #[trigger] fewer.contains(l) && l != lit ==> lit_true(a, l));
}

/// The literals, each once.
fn each_once(lits: &Vec<Lit>) -> (rest: Vec<Lit>)
    ensures
        forall|l: Lit| #[trigger] rest@.contains(l) <==> lits@.contains(l),
        rest@.no_duplicates(),
{
    let mut seen = LitSet::new();
    let mut rest: Vec<Lit> = Vec::new();
    let mut k: usize = 0;
    while k < lits.len()
        invariant
            k <= lits@.len(),
            rest@.no_duplicates(),
            forall|l: Lit| #[trigger] rest@.contains(l) <==> lits@.take(k as int).contains(l),
            forall|l: Lit| #[trigger] seen@.contains(l) <==> rest@.contains(l),
        decreases lits.len() - k,
    {
        let ghost before = rest@;
        let l = lits[k];
        if !seen.contains(l) {
            seen.insert(l);
            rest.push(l);
        }
        proof {
            let part = lits@.take(k as int);
            assert(lits@.take(k as int + 1) =~= part.push(l));
            assert forall|x: Lit| (#[trigger] rest@.contains(x) <==> lits@.take(k as int + 1).contains(x)) && (seen@.contains(x)
                <==> rest@.contains(x)) by {
                crate::datastructure::lemma_push_contains(part, l, x);
                crate::datastructure::lemma_push_contains(before, l, x);
                assert(before.contains(x) <==> part.contains(x));
            }
        }
        k += 1;
    }
    assert(lits@.take(lits@.len() as int) =~= lits@);
    rest
}

/// The literals besides one.
fn without_lit(lits: &Vec<Lit>, lit: Lit) -> (rest: Vec<Lit>)
    ensures
        forall|l: Lit| #[trigger] rest@.contains(l) <==> lits@.contains(l) && l != lit,
        lits@.no_duplicates() ==> rest@.no_duplicates(),
{
    let mut rest: Vec<Lit> = Vec::new();
    let mut k: usize = 0;
    while k < lits.len()
        invariant
            k <= lits@.len(),
            forall|l: Lit| #[trigger] rest@.contains(l) <==> lits@.take(k as int).contains(l) && l != lit,
            lits@.no_duplicates() ==> rest@.no_duplicates(),
        decreases lits.len() - k,
    {
        let ghost before = rest@;
        let l = lits[k];
        proof {
            if lits@.no_duplicates() && before.contains(l) {
                let i = choose|i: int| 0 <= i < k && lits@.take(k as int)[i] == l;
                assert(lits@[i] == lits@[k as int]);
            }
        }
        if l != lit {
            rest.push(l);
        }
        proof {
            let part = lits@.take(k as int);
            assert(lits@.take(k as int + 1) =~= part.push(l));
            assert forall|x: Lit| #[trigger] rest@.contains(x) <==> lits@.take(k as int + 1).contains(x) && x != lit by {
                crate::datastructure::lemma_push_contains(part, l, x);
                crate::datastructure::lemma_push_contains(before, l, x);
                assert(before.contains(x) <==> part.contains(x) && x != lit);
            }
        }
        k += 1;
    }
    assert(lits@.take(lits@.len() as int) =~= lits@);
    rest
}

/// The prefix of a formula with new variables in its blocks. `None` when
/// there is no block for a new variable, or one of them is bound or occurs
/// already.
fn extended_prefix(formula: &QCNF, universals: &Vec<Var>, existentials: &Vec<Var>) -> (result: Option<Vec<(QuantTy, Vec<Var>)>>)
    requires
        formula.wf(),
    ensures
        result matches Some(prefix) ==> extends_prefix(formula.blocks(), prefix_of(prefix@), universals@, existentials@)
            && prefix_distinct(prefix_of(prefix@)) && prefix_of(prefix@) == extended(formula.blocks(), universals@, existentials@),
        result is Some <==> can_extend(formula.blocks(), formula.clauses(), universals@, existentials@),
{
    let ghost p = formula.blocks();
    let blocks = formula.prefix.len();
    assert(p.len() == blocks);
    assert(forall|i: int| 0 <= i < blocks ==> (#[trigger] p[i]).0 == formula.prefix@[i].0);
    if blocks == 0 || blocks > 2 || formula.prefix[blocks - 1].0 != QuantTy::Exists {
        return None;
    }
    if blocks == 1 && universals.len() > 0 {
        return None;
    }
    if blocks == 2 && formula.prefix[0].0 != QuantTy::Forall {
        return None;
    }
    let mut inner = copy_vars(&formula.prefix[blocks - 1].1);
    let mut more = copy_vars(existentials);
    inner.append(&mut more);
    let mut prefix: Vec<(QuantTy, Vec<Var>)> = Vec::new();
    if blocks == 2 {
        let mut outer = copy_vars(&formula.prefix[0].1);
        let mut more = copy_vars(universals);
        outer.append(&mut more);
        prefix.push((QuantTy::Forall, outer));
    }
    prefix.push((QuantTy::Exists, inner));
    let ghost q = prefix_of(prefix@);
    proof {
        if blocks == 2 {
            assert(q =~= seq![(QuantTy::Forall, p[0].1 + universals@), (QuantTy::Exists, p[1].1 + existentials@)]);
        } else {
            assert(q =~= seq![(QuantTy::Exists, p[0].1 + existentials@)]);
        }
    }
    let occurring = crate::simplify::occurring_vars(&formula.matrix);
    if mentioned(&occurring, universals) || mentioned(&occurring, existentials) {
        return None;
    }
    if crate::qcnf::is_distinct(&prefix) {
        Some(prefix)
    } else {
        None
    }
}

fn mentioned(occurring: &VarSet, vars: &Vec<Var>) -> (found: bool)
    ensures
        found == exists|i: int| 0 <= i < vars@.len() && occurring@.contains(#[trigger] vars@[i]),
{
    let mut k: usize = 0;
    while k < vars.len()
        invariant
            k <= vars@.len(),
            forall|i: int| 0 <= i < k ==> !occurring@.contains(#[trigger] vars@[i]),
        decreases vars.len() - k,
    {
        if occurring.contains(vars[k]) {
            return true;
        }
        k += 1;
    }
    false
}

/// A model that satisfies clauses satisfies what they imply.
proof fn lemma_wins_weaker(model: SkolemModel, n: Matrix, m: Matrix)
    requires
        model.wins(n),
        forall|b: Assignment| #[trigger] matrix_true(b, n) ==> matrix_true(b, m),
    ensures
        model.wins(m),
{
}

/// The core of a formula in range is in range.
proof fn lemma_core_in_range(core: Core, p: Prefix, m: Matrix)
    requires
        core.represents(p, m),
        in_range(p, m),
    ensures
        clauses_ok(core.clauses()),
        vars_ok(core.universals@),
{
    let n = core.clauses();
    assert forall|x: Var| #[trigger] mentions(m, x) implies x.dimacs() <= crate::sat::MAX_NUMBER by {
        let i = choose|i: int| 0 <= i < m.len() && crate::semantics::clause_mentions(#[trigger] m[i], x);
        let j = choose|j: int| 0 <= j < m[i].len() && (#[trigger] m[i][j]).v() == x;
        assert(crate::sat::lits_ok(m[i]));
        assert(crate::sat::lit_ok(m[i][j]));
    }
    assert forall|i: int| 0 <= i < n.len() implies crate::sat::lits_ok(#[trigger] n[i]) by {
        assert forall|j: int| 0 <= j < n[i].len() implies crate::sat::lit_ok(#[trigger] n[i][j]) by {
            let x = n[i][j].v();
            assert(crate::semantics::clause_mentions(n[i], x));
            assert(mentions(n, x));
            assert(mentions(m, x));
        }
    }
    assert forall|i: int| 0 <= i < core.universals@.len() implies (#[trigger] core.universals@[i]).dimacs()
        <= crate::sat::MAX_NUMBER by {
        let x = core.universals@[i];
        assert(core.universals@.contains(x));
        assert(bound_by(p, QuantTy::Forall, x));
        let k = choose|k: int| 0 <= k < p.len() && (#[trigger] p[k]).0 == QuantTy::Forall && p[k].1.contains(x);
        assert(bound(p, x));
    }
}

/// Adds the literals as clauses of one literal each.
pub(crate) fn add_units(matrix: &mut Vec<Vec<Lit>>, lits: &Vec<Lit>)
    ensures
        matrix_of(final(matrix)@) == matrix_of(old(matrix)@) + units(lits@),
{
    let ghost before = matrix_of(matrix@);
    let mut k: usize = 0;
    assert(before + units(lits@.take(0)) =~= before);
    while k < lits.len()
        invariant
            k <= lits@.len(),
            matrix_of(matrix@) == before + units(lits@.take(k as int)),
        decreases lits.len() - k,
    {
        let mut unit: Vec<Lit> = Vec::new();
        unit.push(lits[k]);
        let ghost last = matrix_of(matrix@);
        assert(unit@ =~= seq![lits@[k as int]]);
        matrix.push(unit);
        assert(matrix_of(matrix@) =~= last.push(unit@));
        assert(matrix_of(matrix@) =~= before + units(lits@.take(k as int + 1)));
        k += 1;
    }
    assert(lits@.take(lits@.len() as int) =~= lits@);
}

} // verus!
