//! An incremental 2QBF solving API.
//!
//! The solver maintains an *assertion stack* of frames holding variable
//! declarations and clauses ([`IncrementalSolver::push`] /
//! [`IncrementalSolver::pop`]), solves the conjunction of all frames under
//! a ∀∃ prefix, and extracts piecewise Skolem functions from satisfiable
//! results.
//!
//! Incrementality has three layers:
//!
//! * **In-place continuation**: while the stack changes stay monotone, a
//!   plain solve continues the live solver of the previous solve instead of
//!   rebuilding it. Popping a frame the live solver has integrated retracts
//!   its clauses, and a change that it cannot take falls back to a rebuild.
//! * **Learnt-clause carrying**: rebuilds are seeded with the clauses
//!   learnt by earlier solves, each tagged with the stack depth at which it
//!   was harvested and dropped as soon as that depth is popped.
//! * **Temporary queries** run on the live solver where it can take them,
//!   and otherwise on a throwaway solver beside it.
use crate::clause::implied;
use crate::datastructure::{Rows, VarMap, VarSet};
use crate::incdet::load::universal_first;
use crate::incdet::model::SkolemModel;
use crate::incdet::{certifies, refutes, verdict_ok, IncDet, Options};
use crate::incremental::stack::{stack_blocks, stack_formula, stacked_clauses, stacked_existentials, stacked_universals, Frame};
use crate::literal::{Lit, Var};
use crate::normal::copy_lits;
use crate::qcnf::QCNF;
use crate::quantifier::QuantTy;
use crate::semantics::{bound_by, clause_mentions, clause_true, cube_true, lit_true, matrix_true, mentions, Assignment, Matrix, Prefix};
use crate::SolverResult;
use vstd::prelude::*;

pub mod queries;
pub mod stack;
pub mod terms;

verus! {

broadcast use crate::literal::group_literal;

/// The live solver of the last plain solve: its verdict, and how much of
/// every stack frame it has integrated.
#[derive(Debug)]
pub(crate) struct Base {
    pub(crate) result: SolverResult,
    pub(crate) solver: IncDet,
    /// per-frame `(universals, existentials, clauses)` lengths at the time
    /// of integration
    pub(crate) integrated: Vec<(usize, usize, usize)>,
    /// whether the solver sits in the state of a query instead of that of
    /// the plain solve
    pub(crate) queried: bool,
}

impl Base {
    /// The verdict is that of the solver's formula, unless a query came in
    /// between.
    pub(crate) open spec fn wf(&self) -> bool {
        &&& self.solver.wf()
        &&& !self.queried ==> {
            &&& self.solver.goal() == self.solver.clauses()
            &&& verdict_ok(self.solver.blocks(), self.solver.clauses(), self.result)
            &&& evidence(self.solver, self.result, self.solver.blocks(), self.solver.clauses())
        }
    }
}

/// Which solver serves model queries for the most recent solve.
#[derive(Debug, Clone, Copy, PartialEq, Eq, Structural)]
pub(crate) enum Served {
    /// the live solver, with the given verdict
    Base(SolverResult),
    /// the throwaway solver of a temporary query
    Query,
}

/// What a solver recorded for a verdict on a formula: a model of it, or a
/// move of the universal player.
pub open spec fn evidence(solver: IncDet, verdict: SolverResult, p: Prefix, m: Matrix) -> bool {
    &&& verdict == SolverResult::Satisfiable ==> solver.model() is Some && certifies(p, m, solver.model()->0)
    &&& verdict == SolverResult::Unsatisfiable ==> solver.witness() is Some && crate::sat::consistent(solver.witness()->0) && forall|i: int|
        0 <= i < solver.witness()->0.len() ==> bound_by(p, QuantTy::Forall, (#[trigger] solver.witness()->0[i]).v())
    &&& verdict == SolverResult::Unsatisfiable && solver.refuted() ==> refutes(p, m, solver.witness()->0)
    &&& verdict == SolverResult::Unsatisfiable ==> solver.refuted() || !universal_first(p, m)
    &&& verdict != SolverResult::Unknown ==> forall|a: Assignment| #[trigger] matrix_true(a, m) ==> matrix_true(a, solver.goal())
}

/// An incremental ∀∃ (2QBF) solver.
pub struct IncrementalSolver {
    pub(crate) options: Options,
    /// the assertion stack; index 0 is the base frame that can never be
    /// popped
    pub(crate) frames: Vec<Frame>,
    /// carried learnt clauses, tagged with the stack depth they were learnt
    /// at
    pub(crate) learnt: Vec<(usize, Vec<Lit>)>,
    /// the live solver of the last plain solve
    pub(crate) base: Option<Base>,
    /// the solver of the most recent temporary query
    pub(crate) query: Option<(SolverResult, IncDet, Vec<Lit>)>,
    /// which solver answers model queries; `None` after a stack change that
    /// staled the models
    pub(crate) last: Option<Served>,
    /// what the served solver answered
    pub(crate) asked: Ghost<(Prefix, Matrix)>,
    /// whether monotone changes continue the live solver
    pub(crate) continuation: bool,
    /// the next fresh variable
    pub(crate) next_var: u32,
    /// variables the solver introduced for terms the caller built
    pub(crate) auxiliary: VarSet,
    /// the gates of the terms built so far, with their inputs
    pub(crate) gates: Vec<(Lit, Vec<Lit>)>,
    /// the gates by their first input
    pub(crate) buckets: Rows<usize>,
    /// the gates by their variable
    pub(crate) gate_at: VarMap<usize>,
    /// the constant-true node, allocated on first use
    pub(crate) truth: Option<Lit>,
    /// count of extensions in place, across rebuilds
    pub(crate) extensions: u32,
}

/// Carried clauses with their literals.
pub open spec fn carried_of(learnt: Seq<(usize, Vec<Lit>)>) -> Seq<(usize, Seq<Lit>)> {
    Seq::new(learnt.len(), |i: int| (learnt[i].0, learnt[i].1@))
}

/// The carried clauses that were learnt below a depth.
pub open spec fn carried_below(carried: Seq<(usize, Seq<Lit>)>, depth: nat) -> Seq<(usize, Seq<Lit>)>
    decreases carried.len(),
{
    if carried.len() == 0 {
        carried
    } else {
        let before = carried_below(carried.drop_last(), depth);
        if carried.last().0 < depth {
            before.push(carried.last())
        } else {
            before
        }
    }
}

/// The first number beyond all variables.
pub const VAR_LIMIT: u32 = 2_147_483_648;

/// Where the clauses hold, the literal holds iff all inputs hold.
pub open spec fn means(m: Matrix, gate: Lit, inputs: Seq<Lit>) -> bool {
    forall|a: Assignment| #[trigger] matrix_true(a, m) ==> lit_true(a, gate) == cube_true(a, inputs)
}

impl IncrementalSolver {
    /// The frames of the assertion stack.
    pub closed spec fn stack(&self) -> Seq<Frame> {
        self.frames@
    }

    /// The quantifier blocks of the stack.
    pub open spec fn blocks(&self) -> Prefix {
        stack_blocks(self.stack())
    }

    /// The clauses of the stack.
    pub open spec fn clauses(&self) -> Matrix {
        stacked_clauses(self.stack())
    }

    /// The number of the next fresh variable.
    pub closed spec fn fresh(&self) -> u32 {
        self.next_var
    }

    /// The variables introduced for terms.
    pub closed spec fn introduced(&self) -> Set<Var> {
        self.auxiliary@
    }

    /// The formula that the models served now are about.
    pub closed spec fn goal(&self) -> (Prefix, Matrix) {
        self.asked@
    }

    /// The verdict that the models served now belong to.
    pub closed spec fn verdict(&self) -> Option<SolverResult> {
        match self.last {
            None => None,
            Some(Served::Base(result)) => Some(result),
            Some(Served::Query) => match self.query {
                Some(query) => Some(query.0),
                None => None,
            },
        }
    }

    /// The model served now.
    pub closed spec fn served_model(&self) -> Option<SkolemModel> {
        match self.last {
            None => None,
            Some(Served::Base(_)) => match self.base {
                Some(base) => base.solver.model(),
                None => None,
            },
            Some(Served::Query) => match self.query {
                Some(query) => query.1.model(),
                None => None,
            },
        }
    }

    /// The move of the universal player served now.
    pub closed spec fn served_move(&self) -> Option<Seq<Lit>> {
        match self.last {
            None => None,
            Some(Served::Base(_)) => match self.base {
                Some(base) => base.solver.witness(),
                None => None,
            },
            Some(Served::Query) => match self.query {
                Some(query) => query.1.witness(),
                None => None,
            },
        }
    }

    /// The clauses that the solver of the model served now holds.
    pub closed spec fn served_clauses(&self) -> Matrix {
        match self.last {
            None => Matrix::empty(),
            Some(Served::Base(_)) => match self.base {
                Some(base) => base.solver.goal(),
                None => Matrix::empty(),
            },
            Some(Served::Query) => match self.query {
                Some(query) => query.1.goal(),
                None => Matrix::empty(),
            },
        }
    }

    /// The number of extensions in place of the live solver.
    pub closed spec fn continued(&self) -> u32 {
        match self.base {
            Some(base) => base.solver.extensions(),
            None => 0,
        }
    }

    /// The learnt clauses carried from solve to solve, each with the stack
    /// depth it was learnt at.
    pub closed spec fn carried(&self) -> Seq<(usize, Seq<Lit>)> {
        carried_of(self.learnt@)
    }

    /// A carried clause follows from the frames up to its depth.
    pub proof fn lemma_carried(&self, i: int)
        requires
            self.wf(),
            0 <= i < self.carried().len(),
        ensures
            self.carried()[i].0 < self.stack().len(),
            implied(stacked_clauses(self.stack().take(self.carried()[i].0 + 1)), self.carried()[i].1),
    {
        assert(self.learnt@[i].0 < self.frames@.len());
    }

    /// Monotone changes continue the live solver.
    pub closed spec fn continues(&self) -> bool {
        self.continuation
    }

    /// The number of extensions in place over the lifetime.
    pub closed spec fn total(&self) -> u32 {
        self.extensions
    }

    pub(crate) open spec fn learnt_ok(&self) -> bool {
        forall|i: int|
            0 <= i < self.learnt@.len() ==> (#[trigger] self.learnt@[i]).0 < self.frames@.len() && implied(
                stacked_clauses(self.frames@.take(self.learnt@[i].0 + 1)),
                self.learnt@[i].1@,
            )
    }

    pub(crate) open spec fn gates_ok(&self) -> bool {
        &&& forall|i: int| 0 <= i < self.gates@.len() ==> means(stacked_clauses(self.frames@), (#[trigger] self.gates@[i]).0, self.gates@[i].1@)
        &&& self.truth matches Some(truth) ==> implied(stacked_clauses(self.frames@), seq![truth])
    }

    pub(crate) open spec fn vars_ok(&self) -> bool {
        &&& 1 <= self.next_var <= VAR_LIMIT
        &&& forall|x: Var| #[trigger] mentions(stacked_clauses(self.frames@), x) ==> x.dimacs() < self.next_var
        &&& forall|i: int, j: int|
            0 <= i < self.gates@.len() && 0 <= j < self.gates@[i].1@.len() ==> (#[trigger] self.gates@[i].1@[j]).v().dimacs() < self.next_var
        &&& forall|i: int| 0 <= i < self.gates@.len() ==> (#[trigger] self.gates@[i]).0.v().dimacs() < self.next_var
        &&& self.truth matches Some(truth) ==> truth.v().dimacs() < self.next_var
    }

    pub(crate) open spec fn served_ok(&self) -> bool {
        match self.last {
            None => true,
            Some(Served::Base(result)) => self.base is Some && evidence(self.base->0.solver, result, self.asked@.0, self.asked@.1),
            Some(Served::Query) => self.query is Some && evidence((self.query->0).1, (self.query->0).0, self.asked@.0, self.asked@.1),
        }
    }

    pub(crate) open spec fn solvers_ok(&self) -> bool {
        &&& self.base matches Some(base) ==> base.wf()
        &&& self.query matches Some(query) ==> query.1.wf()
        &&& self.served_ok()
    }

    /// The universal literals that the most recent query assumed.
    pub closed spec fn domain(&self) -> Seq<Lit> {
        match self.last {
            Some(Served::Query) => match self.query {
                Some(query) => query.2@,
                None => Seq::empty(),
            },
            _ => Seq::empty(),
        }
    }

    /// There is a base frame; carried clauses and gates are what the stack
    /// makes them; fresh variables are fresh; and what is served is
    /// evidence for the goal.
    pub closed spec fn wf(&self) -> bool {
        &&& self.frames@.len() >= 1
        &&& self.learnt_ok()
        &&& self.gates_ok()
        &&& self.vars_ok()
        &&& self.solvers_ok()
    }

    /// The stack and what is built on it are unchanged.
    pub(crate) open spec fn same_stack(&self, before: &IncrementalSolver) -> bool {
        &&& self.frames@ == before.frames@
        &&& self.next_var == before.next_var
        &&& self.auxiliary@ == before.auxiliary@
        &&& self.gates@ == before.gates@
        &&& self.buckets == before.buckets
        &&& self.truth == before.truth
        &&& self.continuation == before.continuation
    }

    /// There is a base frame, and fresh variables have numbers.
    pub proof fn lemma_has_frame(&self)
        requires
            self.wf(),
        ensures
            self.stack().len() >= 1,
            1 <= self.fresh() <= VAR_LIMIT,
    {
    }

    /// The stack mentions no fresh variable.
    pub proof fn lemma_fresh(&self, x: Var)
        requires
            self.wf(),
            mentions(self.clauses(), x),
        ensures
            x.dimacs() < self.fresh(),
    {
    }

    /// A solver with an empty stack.
    pub fn new(options: Options) -> (solver: IncrementalSolver)
        ensures
            solver.wf(),
            solver.stack().len() == 1,
            solver.stack()[0].universals@.len() == 0,
            solver.stack()[0].existentials@.len() == 0,
            solver.clauses() == Matrix::empty(),
            solver.fresh() == 1,
            solver.introduced() == Set::<Var>::empty(),
            solver.verdict() is None,
            solver.total() == 0,
    {
        let mut frames: Vec<Frame> = Vec::new();
        frames.push(Frame::new());
        let solver = IncrementalSolver {
            options,
            frames,
            learnt: Vec::new(),
            base: None,
            query: None,
            last: None,
            asked: Ghost((Seq::empty(), Seq::empty())),
            continuation: true,
            next_var: 1,
            auxiliary: VarSet::new(),
            gates: Vec::new(),
            buckets: Rows::new(),
            gate_at: VarMap::new(),
            truth: None,
            extensions: 0,
        };
        proof {
            assert(solver.frames@.drop_last() =~= Seq::<Frame>::empty());
            assert(stacked_clauses(solver.frames@.drop_last()) == Matrix::empty());
            assert(solver.frames@.last().matrix() == Matrix::empty());
            assert(solver.clauses() =~= Matrix::empty());
        }
        solver
    }

    /// Enables or disables in-place continuation of the live solver.
    pub fn set_continuation(&mut self, enabled: bool)
        requires
            old(self).wf(),
        ensures
            final(self).wf(),
            final(self).stack() == old(self).stack(),
            final(self).fresh() == old(self).fresh(),
            final(self).introduced() == old(self).introduced(),
            final(self).verdict() == old(self).verdict(),
            final(self).goal() == old(self).goal(),
            final(self).total() == old(self).total(),
            final(self).continued() == old(self).continued(),
            final(self).continues() == enabled,
            final(self).keeps_terms(old(self)),
    {
        self.continuation = enabled;
        proof {
            self.lemma_keeps_terms(old(self));
        }
    }

    /// The number of the next fresh variable.
    pub fn next_number(&self) -> (number: u32)
        ensures
            number == self.fresh(),
    {
        self.next_var
    }

    /// A fresh variable, unused by any declaration so far. The variable
    /// still needs to be declared to be quantified.
    pub fn fresh_var(&mut self) -> (var: u32)
        requires
            old(self).wf(),
            old(self).fresh() < VAR_LIMIT,
        ensures
            final(self).wf(),
            var == old(self).fresh(),
            final(self).fresh() == var + 1,
            final(self).stack() == old(self).stack(),
            final(self).introduced() == old(self).introduced(),
            final(self).verdict() == old(self).verdict(),
            final(self).goal() == old(self).goal(),
            final(self).total() == old(self).total(),
            final(self).continues() == old(self).continues(),
            final(self).keeps_terms(old(self)),
    {
        let var = self.next_var;
        self.next_var = var + 1;
        proof {
            self.lemma_keeps_terms(old(self));
        }
        var
    }

    /// Keeps fresh variables beyond a number.
    fn note_var(&mut self, var: u32)
        requires
            old(self).wf(),
            var < VAR_LIMIT,
        ensures
            final(self).wf(),
            final(self).frames@ == old(self).frames@,
            final(self).auxiliary@ == old(self).auxiliary@,
            final(self).gates@ == old(self).gates@,
            final(self).buckets == old(self).buckets,
            final(self).truth == old(self).truth,
            final(self).continuation == old(self).continuation,
            final(self).last == old(self).last,
            final(self).query == old(self).query,
            final(self).base == old(self).base,
            final(self).asked == old(self).asked,
            final(self).extensions == old(self).extensions,
            final(self).next_var == (if var >= old(self).next_var { (var + 1) as u32 } else { old(self).next_var }),
    {
        if var >= self.next_var {
            self.next_var = var + 1;
        }
    }

    /// Declares a universal variable in the current frame.
    pub fn declare_universal(&mut self, var: u32)
        requires
            old(self).wf(),
            0 < var < VAR_LIMIT,
        ensures
            final(self).wf(),
            declares(old(self).stack(), final(self).stack(), var, QuantTy::Forall),
            final(self).clauses() == old(self).clauses(),
            final(self).fresh() == (if var >= old(self).fresh() { (var + 1) as u32 } else { old(self).fresh() }),
            final(self).introduced() == old(self).introduced(),
            final(self).verdict() == old(self).verdict(),
            final(self).goal() == old(self).goal(),
            final(self).continues() == old(self).continues(),
            final(self).total() == old(self).total(),
            final(self).keeps_terms(old(self)),
    {
        self.declare(var, QuantTy::Forall);
        proof {
            self.lemma_keeps_terms(old(self));
        }
    }

    /// Declares an existential variable in the current frame.
    pub fn declare_existential(&mut self, var: u32)
        requires
            old(self).wf(),
            0 < var < VAR_LIMIT,
        ensures
            final(self).wf(),
            declares(old(self).stack(), final(self).stack(), var, QuantTy::Exists),
            final(self).clauses() == old(self).clauses(),
            final(self).fresh() == (if var >= old(self).fresh() { (var + 1) as u32 } else { old(self).fresh() }),
            final(self).introduced() == old(self).introduced(),
            final(self).verdict() == old(self).verdict(),
            final(self).goal() == old(self).goal(),
            final(self).continues() == old(self).continues(),
            final(self).total() == old(self).total(),
            final(self).keeps_terms(old(self)),
    {
        self.declare(var, QuantTy::Exists);
        proof {
            self.lemma_keeps_terms(old(self));
        }
    }

    pub(crate) fn declare(&mut self, var: u32, quantifier: QuantTy)
        requires
            old(self).wf(),
            0 < var < VAR_LIMIT,
        ensures
            final(self).wf(),
            declares(old(self).stack(), final(self).stack(), var, quantifier),
            final(self).clauses() == old(self).clauses(),
            final(self).next_var == (if var >= old(self).next_var { (var + 1) as u32 } else { old(self).next_var }),
            final(self).auxiliary@ == old(self).auxiliary@,
            final(self).gates@ == old(self).gates@,
            final(self).buckets == old(self).buckets,
            final(self).truth == old(self).truth,
            final(self).extensions == old(self).extensions,
            final(self).continuation == old(self).continuation,
            final(self).verdict() == old(self).verdict(),
            final(self).asked == old(self).asked,
    {
        let ghost before = self.frames@;
        self.note_var(var);
        let top = self.frames.len() - 1;
        let var = Var::from_dimacs(var as i32);
        match quantifier {
            QuantTy::Forall => self.frames[top].universals.push(var),
            QuantTy::Exists => self.frames[top].existentials.push(var),
        }
        proof {
            lemma_same_clauses(before, self.frames@);
            crate::literal::lemma_var_of(var);
            assert(self.frames@.drop_last() =~= before.drop_last());
            lemma_learnt_kept(before, self.frames@, self.learnt@);
        }
    }

    /// Adds a clause (DIMACS literals) to the current frame.
    pub fn add_clause(&mut self, lits: &[i32])
        requires
            old(self).wf(),
            numbers_in_range(lits@),
        ensures
            final(self).wf(),
            final(self).clauses() == old(self).clauses().push(clause_of(lits@)),
            final(self).stack().len() == old(self).stack().len(),
            final(self).stack().drop_last() == old(self).stack().drop_last(),
            same_declarations(old(self).stack(), final(self).stack()),
            final(self).blocks() == old(self).blocks(),
            final(self).fresh() >= old(self).fresh(),
            final(self).introduced() == old(self).introduced(),
            final(self).verdict() == old(self).verdict(),
            final(self).goal() == old(self).goal(),
            below_fresh(lits@, old(self).fresh()) ==> final(self).fresh() == old(self).fresh(),
            final(self).continues() == old(self).continues(),
            final(self).total() == old(self).total(),
            final(self).keeps_terms(old(self)),
    {
        let clause = lits_of(lits);
        self.note_lits(&clause);
        let top = self.frames.len() - 1;
        let ghost before = *self;
        self.push_clause(top, clause);
        proof {
            self.lemma_keeps_terms(old(self));
            lemma_top_clause(before.frames@, self.frames@, clause@);
            lemma_same_declarations(before.frames@, self.frames@);
            assert(self.frames@.drop_last() =~= before.frames@.drop_last());
        }
    }

    /// Adds a clause to the frame at stack depth `depth` instead of the top
    /// frame.
    pub fn add_clause_at(&mut self, depth: usize, lits: &[i32])
        requires
            old(self).wf(),
            depth < old(self).stack().len(),
            numbers_in_range(lits@),
        ensures
            final(self).wf(),
            final(self).stack().len() == old(self).stack().len(),
            forall|d: int| 0 <= d < old(self).stack().len() ==> (#[trigger] final(self).stack()[d]).matrix() == (if d == depth {
                old(self).stack()[d].matrix().push(clause_of(lits@))
            } else {
                old(self).stack()[d].matrix()
            }),
            final(self).blocks() == old(self).blocks(),
            final(self).introduced() == old(self).introduced(),
            final(self).verdict() == old(self).verdict(),
            final(self).goal() == old(self).goal(),
            final(self).continues() == old(self).continues(),
            final(self).total() == old(self).total(),
            final(self).keeps_terms(old(self)),
    {
        let clause = lits_of(lits);
        self.note_lits(&clause);
        let ghost before = *self;
        self.push_clause(depth, clause);
        proof {
            self.lemma_keeps_terms(old(self));
            lemma_same_declarations(before.frames@, self.frames@);
        }
    }

    fn note_lits(&mut self, lits: &Vec<Lit>)
        requires
            old(self).wf(),
            forall|i: int| 0 <= i < lits@.len() ==> (#[trigger] lits@[i]).v().dimacs() < VAR_LIMIT,
        ensures
            final(self).wf(),
            final(self).frames@ == old(self).frames@,
            final(self).auxiliary@ == old(self).auxiliary@,
            final(self).gates@ == old(self).gates@,
            final(self).buckets == old(self).buckets,
            final(self).truth == old(self).truth,
            final(self).continuation == old(self).continuation,
            final(self).last == old(self).last,
            final(self).query == old(self).query,
            final(self).base == old(self).base,
            final(self).asked == old(self).asked,
            final(self).extensions == old(self).extensions,
            final(self).next_var >= old(self).next_var,
            forall|i: int| 0 <= i < lits@.len() ==> (#[trigger] lits@[i]).v().dimacs() < final(self).next_var,
            (forall|i: int| 0 <= i < lits@.len() ==> (#[trigger] lits@[i]).v().dimacs() < old(self).next_var) ==> final(self).next_var
                == old(self).next_var,
    {
        let mut k: usize = 0;
        while k < lits.len()
            invariant
                k <= lits@.len(),
                self.wf(),
                forall|i: int| 0 <= i < lits@.len() ==> (#[trigger] lits@[i]).v().dimacs() < VAR_LIMIT,
                self.frames@ == old(self).frames@,
                self.auxiliary@ == old(self).auxiliary@,
                self.gates@ == old(self).gates@,
                self.buckets == old(self).buckets,
                self.truth == old(self).truth,
                self.continuation == old(self).continuation,
                self.last == old(self).last,
                self.query == old(self).query,
                self.base == old(self).base,
                self.asked == old(self).asked,
                self.extensions == old(self).extensions,
                self.next_var >= old(self).next_var,
                forall|i: int| 0 <= i < k ==> (#[trigger] lits@[i]).v().dimacs() < self.next_var,
                (forall|i: int| 0 <= i < lits@.len() ==> (#[trigger] lits@[i]).v().dimacs() < old(self).next_var) ==> self.next_var
                    == old(self).next_var,
            decreases lits.len() - k,
        {
            let number = lits[k].var().to_dimacs();
            proof {
                crate::literal::lemma_var_of(lits@[k as int].v());
            }
            self.note_var(number as u32);
            k += 1;
        }
    }

    /// Adds a clause of known variables to a frame.
    pub(crate) fn push_clause(&mut self, depth: usize, clause: Vec<Lit>)
        requires
            old(self).wf(),
            depth < old(self).frames@.len(),
            forall|i: int| 0 <= i < clause@.len() ==> (#[trigger] clause@[i]).v().dimacs() < old(self).next_var,
        ensures
            final(self).wf(),
            final(self).frames@.len() == old(self).frames@.len(),
            grows_at(old(self).frames@, final(self).frames@, depth as int, clause@),
            forall|d: int| 0 <= d < old(self).frames@.len() && d != depth ==> #[trigger] final(self).frames@[d] == old(self).frames@[d],
            final(self).next_var == old(self).next_var,
            final(self).auxiliary@ == old(self).auxiliary@,
            final(self).gates@ == old(self).gates@,
            final(self).buckets == old(self).buckets,
            final(self).truth == old(self).truth,
            final(self).continuation == old(self).continuation,
            final(self).last == old(self).last,
            final(self).query == old(self).query,
            final(self).base == old(self).base,
            final(self).asked == old(self).asked,
            final(self).extensions == old(self).extensions,
    {
        let ghost before = self.frames@;
        let ghost c = clause@;
        self.frames[depth].clauses.push(clause);
        proof {
            let after = self.frames@;
            assert(after[depth as int].matrix() =~= before[depth as int].matrix().push(c));
            assert(grows_at(before, after, depth as int, c));
            lemma_grown(before, after, depth as int, c);
            assert forall|i: int| 0 <= i < self.learnt@.len() implies implied(
                stacked_clauses(after.take((#[trigger] self.learnt@[i]).0 + 1)),
                self.learnt@[i].1@,
            ) by {
                let n = self.learnt@[i].0 + 1;
                assert(implied(stacked_clauses(before.take(n)), self.learnt@[i].1@));
                assert forall|a: Assignment| #[trigger] matrix_true(a, stacked_clauses(after.take(n))) implies clause_true(
                    a,
                    self.learnt@[i].1@,
                ) by {
                    lemma_grown_lower(before, after, depth as int, c, n, a);
                }
            }
            assert forall|i: int| 0 <= i < self.gates@.len() implies means(
                stacked_clauses(after),
                (#[trigger] self.gates@[i]).0,
                self.gates@[i].1@,
            ) by {
                assert(means(stacked_clauses(before), self.gates@[i].0, self.gates@[i].1@));
            }
        }
    }

    /// Changes an existing existential declaration into a universal one,
    /// in whatever frame it was declared first.
    pub fn redeclare_universal(&mut self, var: u32)
        requires
            old(self).wf(),
            0 < var < VAR_LIMIT,
        ensures
            final(self).wf(),
            redeclares(old(self).stack(), final(self).stack(), var),
            final(self).clauses() == old(self).clauses(),
            final(self).fresh() == old(self).fresh(),
            final(self).introduced() == old(self).introduced(),
    {
        let target = Var::from_dimacs(var as i32);
        proof {
            crate::literal::lemma_var_of(target);
        }
        let ghost before = self.frames@;
        let mut d: usize = 0;
        while d < self.frames.len()
            invariant
                d <= self.frames@.len(),
                self.wf(),
                self.frames@ == before,
                before == old(self).frames@,
                self.next_var == old(self).next_var,
                self.auxiliary@ == old(self).auxiliary@,
                target == crate::literal::var_of(var as int),
                forall|e: int| 0 <= e < d ==> !(#[trigger] before[e]).existentials@.contains(target),
            decreases self.frames.len() - d,
        {
            let mut j: usize = 0;
            while j < self.frames[d].existentials.len()
                invariant
                    d < self.frames@.len(),
                    self.wf(),
                    self.frames@ == before,
                    before == old(self).frames@,
                    self.next_var == old(self).next_var,
                    self.auxiliary@ == old(self).auxiliary@,
                    target == crate::literal::var_of(var as int),
                    forall|e: int| 0 <= e < d ==> !(#[trigger] before[e]).existentials@.contains(target),
                    forall|i: int| 0 <= i < j ==> before[d as int].existentials@[i] != target,
                decreases before[d as int].existentials@.len() - j,
            {
                if self.frames[d].existentials[j] == target {
                    self.frames[d].existentials.remove(j);
                    self.frames[d].universals.push(target);
                    self.base = None;
                    self.query = None;
                    self.last = None;
                    proof {
                        assert(before[d as int].existentials@[j as int] == target);
                        lemma_same_clauses(before, self.frames@);
                        lemma_learnt_kept(before, self.frames@, self.learnt@);
                        assert(self.frames@[d as int].existentials@ =~= before[d as int].existentials@.remove(j as int));
                    }
                    return;
                }
                j += 1;
            }
            assert(!before[d as int].existentials@.contains(target));
            d += 1;
        }
    }

    /// Adds the definition `var ↔ AND(lits)` to the current frame and
    /// declares `var` existential.
    pub fn define_and(&mut self, var: u32, lits: &[i32])
        requires
            old(self).wf(),
            0 < var < VAR_LIMIT,
            numbers_in_range(lits@),
        ensures
            final(self).wf(),
            final(self).stack().len() == old(self).stack().len(),
            final(self).stack().drop_last() == old(self).stack().drop_last(),
            stacked_universals(final(self).stack()) == stacked_universals(old(self).stack()),
            stacked_existentials(final(self).stack()) == stacked_existentials(old(self).stack()).push(crate::literal::var_of(var as int)),
            forall|a: Assignment| #[trigger]
                matrix_true(a, final(self).clauses()) <==> matrix_true(a, old(self).clauses()) && (a(crate::literal::var_of(var as int))
                    == cube_true(a, clause_of(lits@))),
            final(self).fresh() >= old(self).fresh(),
            var < old(self).fresh() && below_fresh(lits@, old(self).fresh()) ==> final(self).fresh() == old(self).fresh(),
            final(self).continues() == old(self).continues(),
            final(self).total() == old(self).total(),
            final(self).introduced() == old(self).introduced(),
            final(self).verdict() == old(self).verdict(),
            final(self).goal() == old(self).goal(),
    {
        let ghost start = self.frames@;
        self.declare_existential(var);
        proof {
            lemma_declares(start, self.frames@, var, QuantTy::Exists);
        }
        let inputs = lits_of(lits);
        self.note_lits(&inputs);
        let gate = Var::from_dimacs(var as i32).positive();
        proof {
            crate::literal::lemma_var_of(gate.v());
        }
        self.push_gate(gate, &inputs);
    }

    /// Adds the clauses that make a literal the conjunction of others.
    pub(crate) fn push_gate(&mut self, gate: Lit, inputs: &Vec<Lit>)
        requires
            old(self).wf(),
            gate.v().dimacs() < old(self).next_var,
            forall|i: int| 0 <= i < inputs@.len() ==> (#[trigger] inputs@[i]).v().dimacs() < old(self).next_var,
        ensures
            final(self).wf(),
            final(self).frames@.len() == old(self).frames@.len(),
            final(self).frames@.drop_last() == old(self).frames@.drop_last(),
            same_declarations(old(self).frames@, final(self).frames@),
            final(self).blocks() == old(self).blocks(),
            forall|a: Assignment| #[trigger]
                matrix_true(a, stacked_clauses(final(self).frames@)) <==> matrix_true(a, stacked_clauses(old(self).frames@)) && (lit_true(
                    a,
                    gate,
                ) == cube_true(a, inputs@)),
            final(self).next_var == old(self).next_var,
            final(self).auxiliary@ == old(self).auxiliary@,
            final(self).gates@ == old(self).gates@,
            final(self).buckets == old(self).buckets,
            final(self).truth == old(self).truth,
            final(self).continuation == old(self).continuation,
            final(self).last == old(self).last,
            final(self).query == old(self).query,
            final(self).base == old(self).base,
            final(self).asked == old(self).asked,
            final(self).extensions == old(self).extensions,
    {
        let top = self.frames.len() - 1;
        let ghost m = stacked_clauses(self.frames@);
        let mut reverse: Vec<Lit> = Vec::new();
        reverse.push(gate);
        let mut k: usize = 0;
        while k < inputs.len()
            invariant
                k <= inputs@.len(),
                self.wf(),
                top == self.frames@.len() - 1,
                self.frames@.len() == old(self).frames@.len(),
                self.frames@.drop_last() =~= old(self).frames@.drop_last(),
                same_declarations(old(self).frames@, self.frames@),
                self.blocks() == old(self).blocks(),
                gate.v().dimacs() < self.next_var,
                forall|i: int| 0 <= i < inputs@.len() ==> (#[trigger] inputs@[i]).v().dimacs() < self.next_var,
                self.next_var == old(self).next_var,
                self.auxiliary@ == old(self).auxiliary@,
                self.gates@ == old(self).gates@,
                self.buckets == old(self).buckets,
                self.truth == old(self).truth,
                self.continuation == old(self).continuation,
                self.last == old(self).last,
                self.query == old(self).query,
                self.base == old(self).base,
                self.asked == old(self).asked,
                self.extensions == old(self).extensions,
                reverse@.len() == k + 1,
                reverse@[0] == gate,
                forall|i: int| 0 <= i < k ==> #[trigger] reverse@[i + 1] == inputs@[i].neg(),
                forall|a: Assignment| #[trigger]
                    matrix_true(a, stacked_clauses(self.frames@)) <==> matrix_true(a, m) && (lit_true(a, gate) ==> forall|i: int|
                        0 <= i < k ==> lit_true(a, #[trigger] inputs@[i])),
            decreases inputs.len() - k,
        {
            let ghost before = self.frames@;
            let mut pair: Vec<Lit> = Vec::new();
            pair.push(gate.negated());
            pair.push(inputs[k]);
            let ghost c = pair@;
            self.push_clause(top, pair);
            reverse.push(inputs[k].negated());
            proof {
                lemma_grown(before, self.frames@, top as int, c);
                lemma_same_declarations(before, self.frames@);
                assert forall|a: Assignment| #[trigger] matrix_true(a, stacked_clauses(self.frames@)) <==> matrix_true(a, m) && (lit_true(
                    a,
                    gate,
                ) ==> forall|i: int| 0 <= i < k + 1 ==> lit_true(a, #[trigger] inputs@[i])) by {
                    assert(c[0] == gate.neg() && c[1] == inputs@[k as int]);
                    if clause_true(a, c) {
                        let i = choose|i: int| 0 <= i < c.len() && lit_true(a, #[trigger] c[i]);
                        assert(i == 0 || i == 1);
                    } else {
                        assert(!lit_true(a, c[0]));
                        assert(!lit_true(a, c[1]));
                    }
                    assert(matrix_true(a, stacked_clauses(before)) <==> matrix_true(a, m) && (lit_true(a, gate) ==> forall|i: int|
                        0 <= i < k ==> lit_true(a, #[trigger] inputs@[i])));
                }
            }
            k += 1;
        }
        let ghost before = self.frames@;
        let ghost c = reverse@;
        assert forall|i: int| 0 <= i < c.len() implies (#[trigger] c[i]).v().dimacs() < self.next_var by {
            if i > 0 {
                assert(c[(i - 1) + 1] == inputs@[i - 1].neg());
            }
        }
        self.push_clause(top, reverse);
        proof {
            lemma_grown(before, self.frames@, top as int, c);
            lemma_same_declarations(before, self.frames@);
            assert forall|a: Assignment| #[trigger] matrix_true(a, stacked_clauses(self.frames@)) <==> matrix_true(a, m) && (lit_true(
                a,
                gate,
            ) == cube_true(a, inputs@)) by {
                assert(matrix_true(a, stacked_clauses(before)) <==> matrix_true(a, m) && (lit_true(a, gate) ==> cube_true(a, inputs@)));
                if clause_true(a, c) && cube_true(a, inputs@) {
                    let i = choose|i: int| 0 <= i < c.len() && lit_true(a, #[trigger] c[i]);
                    if i > 0 {
                        assert(c[(i - 1) + 1] == inputs@[i - 1].neg());
                        assert(lit_true(a, inputs@[i - 1]));
                    }
                }
                if lit_true(a, gate) {
                    assert(lit_true(a, c[0]));
                }
                if !cube_true(a, inputs@) {
                    let i = choose|i: int| 0 <= i < inputs@.len() && !lit_true(a, #[trigger] inputs@[i]);
                    assert(c[i + 1] == inputs@[i].neg());
                    assert(lit_true(a, c[i + 1]));
                }
            }
        }
    }

    /// Pushes a new frame onto the assertion stack.
    pub fn push(&mut self)
        requires
            old(self).wf(),
        ensures
            final(self).wf(),
            final(self).stack().len() == old(self).stack().len() + 1,
            final(self).stack().drop_last() == old(self).stack(),
            final(self).clauses() == old(self).clauses(),
            same_declarations(old(self).stack(), final(self).stack()),
            final(self).blocks() == old(self).blocks(),
            final(self).fresh() == old(self).fresh(),
            final(self).introduced() == old(self).introduced(),
            final(self).verdict() == old(self).verdict(),
            final(self).goal() == old(self).goal(),
            final(self).continues() == old(self).continues(),
            final(self).total() == old(self).total(),
            final(self).keeps_terms(old(self)),
    {
        let ghost before = self.frames@;
        self.frames.push(Frame::new());
        proof {
            self.lemma_keeps_terms(old(self));
            let after = self.frames@;
            assert(after.drop_last() =~= before);
            assert(stacked_clauses(after) =~= stacked_clauses(before));
            assert(stacked_universals(after) =~= stacked_universals(before));
            assert(stacked_existentials(after) =~= stacked_existentials(before));
            assert forall|i: int| 0 <= i < self.learnt@.len() implies implied(
                stacked_clauses(after.take((#[trigger] self.learnt@[i]).0 + 1)),
                self.learnt@[i].1@,
            ) by {
                assert(after.take(self.learnt@[i].0 + 1) =~= before.take(self.learnt@[i].0 + 1));
            }
        }
    }

    /// Pops the top frame, dropping its declarations and clauses, and every
    /// carried learnt clause that was learnt while the frame was on the
    /// stack. Returns `false` if only the base frame is left.
    pub fn pop(&mut self) -> (popped: bool)
        requires
            old(self).wf(),
        ensures
            final(self).wf(),
            popped == (old(self).stack().len() > 1),
            popped ==> final(self).stack() == old(self).stack().drop_last() && final(self).verdict() is None,
            !popped ==> final(self).stack() == old(self).stack() && final(self).verdict() == old(self).verdict() && final(self).goal()
                == old(self).goal(),
            final(self).fresh() == old(self).fresh(),
            final(self).introduced() == old(self).introduced(),
            final(self).continues() == old(self).continues(),
            final(self).total() == old(self).total(),
            popped ==> final(self).carried() == carried_below(old(self).carried(), final(self).stack().len()),
            !popped ==> final(self).carried() == old(self).carried(),
    {
        // terms built against retired variables stop being shareable
        self.gates = Vec::new();
        self.buckets = Rows::new();
        self.gate_at = VarMap::new();
        self.truth = None;
        if self.frames.len() <= 1 {
            return false;
        }
        let ghost before = self.frames@;
        let popped = self.frames.pop();
        let depth = self.frames.len() - 1;
        let mut learnt: Vec<(usize, Vec<Lit>)> = Vec::new();
        let mut k: usize = 0;
        proof {
            assert(carried_of(self.learnt@).take(0) =~= Seq::empty());
            assert(carried_of(learnt@) =~= Seq::empty());
        }
        while k < self.learnt.len()
            invariant
                k <= self.learnt@.len(),
                self.frames@ == before.drop_last(),
                self.continuation == old(self).continuation,
                self.learnt == old(self).learnt,
                carried_of(learnt@) == carried_below(carried_of(self.learnt@).take(k as int), self.frames@.len()),
                depth == self.frames@.len() - 1,
                before.len() >= 2,
                forall|i: int|
                    0 <= i < self.learnt@.len() ==> (#[trigger] self.learnt@[i]).0 < before.len() && implied(
                        stacked_clauses(before.take(self.learnt@[i].0 + 1)),
                        self.learnt@[i].1@,
                    ),
                forall|i: int|
                    0 <= i < learnt@.len() ==> (#[trigger] learnt@[i]).0 < self.frames@.len() && implied(
                        stacked_clauses(self.frames@.take(learnt@[i].0 + 1)),
                        learnt@[i].1@,
                    ),
            decreases self.learnt.len() - k,
        {
            proof {
                let all = carried_of(self.learnt@);
                assert(all.take(k as int + 1).drop_last() =~= all.take(k as int));
                assert(all.take(k as int + 1).last() == (self.learnt@[k as int].0, self.learnt@[k as int].1@));
            }
            let ghost held = learnt@;
            if self.learnt[k].0 <= depth {
                assert(self.frames@.take(self.learnt@[k as int].0 + 1) =~= before.take(self.learnt@[k as int].0 + 1));
                learnt.push((self.learnt[k].0, copy_lits(&self.learnt[k].1)));
                assert(carried_of(learnt@) =~= carried_of(held).push((self.learnt@[k as int].0, self.learnt@[k as int].1@)));
            }
            k += 1;
        }
        assert(carried_of(self.learnt@).take(self.learnt@.len() as int) =~= carried_of(self.learnt@));
        self.learnt = learnt;
        // Popping an integrated frame retracts clauses the live solver
        // holds: a satisfiable one can drop the clauses of a frame without
        // declarations, and is discarded otherwise.
        let plain = match popped {
            Some(frame) => frame.universals.len() == 0 && frame.existentials.len() == 0,
            None => false,
        };
        let live = self.base.take();
        match live {
            None => {},
            Some(mut base) => {
                if self.frames.len() >= base.integrated.len() {
                    self.base = Some(base);
                } else if plain && base.result == SolverResult::Satisfiable && base.solver.retract_to_depth(depth) {
                    base.integrated = self.frame_sizes();
                    base.queried = true;
                    self.base = Some(base);
                }
            },
        }
        self.query = None;
        self.last = None;
        proof {
            assert(self.frames@ =~= before.drop_last());
            assert forall|x: Var| #[trigger] mentions(stacked_clauses(self.frames@), x) implies x.dimacs() < self.next_var by {
                let m = stacked_clauses(self.frames@);
                let all = stacked_clauses(before);
                let i = choose|i: int| 0 <= i < m.len() && clause_mentions(#[trigger] m[i], x);
                assert(all[i] == m[i]);
                assert(mentions(all, x));
            }
        }
        true
    }

    /// The current stack depth (0 for the base frame).
    pub fn depth(&self) -> (depth: usize)
        requires
            self.wf(),
        ensures
            depth == self.stack().len() - 1,
    {
        self.frames.len() - 1
    }

    /// The 2QBF instance of the current stack.
    pub fn qcnf(&self) -> (formula: QCNF)
        ensures
            formula.wf(),
            formula.blocks() == self.blocks(),
            formula.clauses() == self.clauses(),
    {
        stack_formula(&self.frames)
    }

    /// The per-frame sizes of the current stack.
    pub(crate) fn frame_sizes(&self) -> (sizes: Vec<(usize, usize, usize)>)
        ensures
            sizes@.len() == self.frames@.len(),
            forall|i: int|
                0 <= i < sizes@.len() ==> #[trigger] sizes@[i] == (
                    self.frames@[i].universals@.len() as usize,
                    self.frames@[i].existentials@.len() as usize,
                    self.frames@[i].clauses@.len() as usize,
                ),
    {
        let mut sizes: Vec<(usize, usize, usize)> = Vec::new();
        let mut k: usize = 0;
        while k < self.frames.len()
            invariant
                k <= self.frames@.len(),
                sizes@.len() == k,
                forall|i: int|
                    0 <= i < k ==> #[trigger] sizes@[i] == (
                        self.frames@[i].universals@.len() as usize,
                        self.frames@[i].existentials@.len() as usize,
                        self.frames@[i].clauses@.len() as usize,
                    ),
            decreases self.frames.len() - k,
        {
            let frame = &self.frames[k];
            sizes.push((frame.universals.len(), frame.existentials.len(), frame.clauses.len()));
            k += 1;
        }
        sizes
    }
}

impl Default for IncrementalSolver {
    fn default() -> (solver: IncrementalSolver)
        ensures
            solver.wf(),
            solver.stack().len() == 1,
            solver.clauses() == Matrix::empty(),
            solver.fresh() == 1,
            solver.verdict() is None,
    {
        IncrementalSolver::new(Options::default())
    }
}

/// The stacks declare the same variables.
pub open spec fn same_declarations(before: Seq<Frame>, after: Seq<Frame>) -> bool {
    &&& stacked_universals(after) == stacked_universals(before)
    &&& stacked_existentials(after) == stacked_existentials(before)
}

/// A declaration in the top frame is the last one of the stack.
pub proof fn lemma_declares(before: Seq<Frame>, after: Seq<Frame>, var: u32, quantifier: QuantTy)
    requires
        before.len() > 0,
        declares(before, after, var, quantifier),
    ensures
        stacked_universals(after) == (if quantifier == QuantTy::Forall {
            stacked_universals(before).push(crate::literal::var_of(var as int))
        } else {
            stacked_universals(before)
        }),
        stacked_existentials(after) == (if quantifier == QuantTy::Exists {
            stacked_existentials(before).push(crate::literal::var_of(var as int))
        } else {
            stacked_existentials(before)
        }),
{
    let x = crate::literal::var_of(var as int);
    assert(after.last() == after[before.len() - 1]);
    if quantifier == QuantTy::Forall {
        assert(stacked_universals(after) =~= stacked_universals(before).push(x));
        assert(stacked_existentials(after) =~= stacked_existentials(before));
    } else {
        assert(stacked_existentials(after) =~= stacked_existentials(before).push(x));
        assert(stacked_universals(after) =~= stacked_universals(before));
    }
}

/// The top frame declares one more variable; nothing else changes.
pub open spec fn declares(before: Seq<Frame>, after: Seq<Frame>, var: u32, quantifier: QuantTy) -> bool {
    let x = crate::literal::var_of(var as int);
    let top = before.len() - 1;
    &&& after.len() == before.len()
    &&& after.drop_last() == before.drop_last()
    &&& after[top].matrix() == before[top].matrix()
    &&& after[top].universals@ == (if quantifier == QuantTy::Forall {
        before[top].universals@.push(x)
    } else {
        before[top].universals@
    })
    &&& after[top].existentials@ == (if quantifier == QuantTy::Exists {
        before[top].existentials@.push(x)
    } else {
        before[top].existentials@
    })
}

/// The first frame that declares the variable existential declares it
/// universal instead; nothing else changes.
pub open spec fn redeclares(before: Seq<Frame>, after: Seq<Frame>, var: u32) -> bool {
    let x = crate::literal::var_of(var as int);
    &&& after.len() == before.len()
    &&& (forall|d: int| 0 <= d < before.len() ==> !(#[trigger] before[d]).existentials@.contains(x)) ==> after == before
    &&& forall|d: int|
        0 <= d < before.len() && (#[trigger] before[d]).existentials@.contains(x) && (forall|e: int|
            0 <= e < d ==> !(#[trigger] before[e]).existentials@.contains(x)) ==> {
            &&& after[d].universals@ == before[d].universals@.push(x)
            &&& exists|j: int|
                0 <= j < before[d].existentials@.len() && before[d].existentials@[j] == x && after[d].existentials@
                    == #[trigger] before[d].existentials@.remove(j)
            &&& forall|e: int| 0 <= e < before.len() && e != d ==> #[trigger] after[e] == before[e]
        }
}

/// The numbers stand for literals of variables below the limit.
pub open spec fn numbers_in_range(lits: Seq<i32>) -> bool {
    forall|i: int| 0 <= i < lits.len() ==> (#[trigger] lits[i]) != 0 && -(VAR_LIMIT as int) < lits[i] < VAR_LIMIT
}

/// The numbers stand for literals of variables below a fresh one.
pub open spec fn below_fresh(lits: Seq<i32>, fresh: u32) -> bool {
    forall|i: int| 0 <= i < lits.len() ==> -(fresh as int) < (#[trigger] lits[i]) < fresh
}

/// The literal with a DIMACS number.
pub open spec fn lit_numbered(number: i32) -> Lit {
    crate::literal::lit_of(crate::literal::var_of(if number > 0 { number as int } else { -(number as int) }), number > 0)
}

/// The clause with the given DIMACS numbers.
pub open spec fn clause_of(lits: Seq<i32>) -> Seq<Lit> {
    Seq::new(lits.len(), |i: int| lit_numbered(lits[i]))
}

/// The literals with the given DIMACS numbers.
pub(crate) fn lits_of(numbers: &[i32]) -> (lits: Vec<Lit>)
    requires
        numbers_in_range(numbers@),
    ensures
        lits@ == clause_of(numbers@),
        forall|i: int| 0 <= i < lits@.len() ==> (#[trigger] lits@[i]).v().dimacs() < VAR_LIMIT && lits@[i].dimacs() == numbers@[i],
        forall|i: int| 0 <= i < lits@.len() ==> (#[trigger] lits@[i]).v().dimacs() == (if numbers@[i] > 0 { numbers@[i] as int } else { -(numbers@[i] as int) }),
{
    let mut lits: Vec<Lit> = Vec::new();
    let mut k: usize = 0;
    while k < numbers.len()
        invariant
            k <= numbers@.len(),
            lits@.len() == k,
            numbers_in_range(numbers@),
            forall|i: int| 0 <= i < k ==> (#[trigger] lits@[i]) == lit_numbered(numbers@[i]) && lits@[i].v().dimacs() < VAR_LIMIT && lits@[i].dimacs() == numbers@[i],
            forall|i: int| 0 <= i < k ==> (#[trigger] lits@[i]).v().dimacs() == (if numbers@[i] > 0 { numbers@[i] as int } else { -(numbers@[i] as int) }),
        decreases numbers.len() - k,
    {
        let number = numbers[k];
        let lit = Lit::from_dimacs(number);
        proof {
            lemma_numbered(lit, number);
        }
        lits.push(lit);
        k += 1;
    }
    assert(lits@ =~= clause_of(numbers@));
    lits
}

/// A literal is found by its number.
pub proof fn lemma_numbered(lit: Lit, number: i32)
    requires
        lit.dimacs() == number,
        number != 0,
        -(VAR_LIMIT as int) < number < VAR_LIMIT,
    ensures
        lit == lit_numbered(number),
        lit.v().dimacs() == (if number > 0 { number as int } else { -(number as int) }),
        lit.v().dimacs() < VAR_LIMIT,
{
    let x = lit.v();
    crate::literal::lemma_var_of(x);
    let n = if number > 0 { number as int } else { -(number as int) };
    assert(x.dimacs() == n);
    crate::literal::lemma_var_index(n - 1);
    crate::literal::lemma_lit_of(x, number > 0);
    crate::literal::lemma_lit_ext(lit, lit_numbered(number));
}

/// What a number says of its literal.
pub proof fn lemma_lit_numbered(number: i32)
    requires
        number != 0,
        number > i32::MIN,
    ensures
        lit_numbered(number).v().dimacs() == (if number > 0 { number as int } else { -(number as int) }),
        lit_numbered(number).pos() == (number > 0),
{
    let n = if number > 0 { number as int } else { -(number as int) };
    crate::literal::lemma_var_index(n - 1);
    crate::literal::lemma_lit_of(crate::literal::var_of(n), number > 0);
}

/// The numbers are those of literals.
pub open spec fn proper_numbers(numbers: Seq<i32>) -> bool {
    forall|i: int| 0 <= i < numbers.len() ==> (#[trigger] numbers[i]) != 0 && numbers[i] > i32::MIN
}

/// The numbers of literals.
pub(crate) fn numbers_of(lits: &Vec<Lit>) -> (numbers: Vec<i32>)
    ensures
        crate::sat::same_clause(lits@, numbers@),
        proper_numbers(numbers@),
{
    let mut numbers: Vec<i32> = Vec::new();
    let mut k: usize = 0;
    while k < lits.len()
        invariant
            k <= lits@.len(),
            numbers@.len() == k,
            proper_numbers(numbers@),
            forall|i: int| 0 <= i < k ==> (#[trigger] lits@[i]).dimacs() == #[trigger] numbers@[i],
        decreases lits.len() - k,
    {
        numbers.push(lits[k].to_dimacs());
        k += 1;
    }
    numbers
}

/// The frame at a depth has one more clause; nothing else changes.
pub open spec fn grows_at(before: Seq<Frame>, after: Seq<Frame>, depth: int, c: Seq<Lit>) -> bool {
    &&& after.len() == before.len()
    &&& 0 <= depth < before.len()
    &&& after[depth].matrix() == before[depth].matrix().push(c)
    &&& forall|d: int| 0 <= d < before.len() ==> (#[trigger] after[d]).universals@ == before[d].universals@ && after[d].existentials@
        == before[d].existentials@
    &&& forall|d: int| 0 <= d < before.len() && d != depth ==> (#[trigger] after[d]).matrix() == before[d].matrix()
}

/// Frames with the same clauses stack to the same clauses.
pub proof fn lemma_same_clauses(before: Seq<Frame>, after: Seq<Frame>)
    requires
        after.len() == before.len(),
        forall|d: int| 0 <= d < before.len() ==> (#[trigger] after[d]).matrix() == before[d].matrix(),
    ensures
        stacked_clauses(after) == stacked_clauses(before),
    decreases before.len(),
{
    if before.len() > 0 {
        lemma_same_clauses(before.drop_last(), after.drop_last());
        assert(after[after.len() - 1].matrix() == before[before.len() - 1].matrix());
    }
}

/// Frames with the same declarations have the same blocks.
pub proof fn lemma_same_declarations(before: Seq<Frame>, after: Seq<Frame>)
    requires
        after.len() == before.len(),
        forall|d: int| 0 <= d < before.len() ==> (#[trigger] after[d]).universals@ == before[d].universals@ && after[d].existentials@
            == before[d].existentials@,
    ensures
        stack_blocks(after) == stack_blocks(before),
        stacked_universals(after) == stacked_universals(before),
        stacked_existentials(after) == stacked_existentials(before),
    decreases before.len(),
{
    if before.len() > 0 {
        lemma_same_declarations(before.drop_last(), after.drop_last());
        assert(after[after.len() - 1].universals@ == before[before.len() - 1].universals@);
    }
}

/// Carried clauses stay implied while the clauses stay.
proof fn lemma_learnt_kept(before: Seq<Frame>, after: Seq<Frame>, learnt: Seq<(usize, Vec<Lit>)>)
    requires
        after.len() == before.len(),
        forall|d: int| 0 <= d < before.len() ==> (#[trigger] after[d]).matrix() == before[d].matrix(),
        forall|i: int|
            0 <= i < learnt.len() ==> (#[trigger] learnt[i]).0 < before.len() && implied(
                stacked_clauses(before.take(learnt[i].0 + 1)),
                learnt[i].1@,
            ),
    ensures
        forall|i: int|
            0 <= i < learnt.len() ==> (#[trigger] learnt[i]).0 < after.len() && implied(
                stacked_clauses(after.take(learnt[i].0 + 1)),
                learnt[i].1@,
            ),
{
    assert forall|i: int| 0 <= i < learnt.len() implies (#[trigger] learnt[i]).0 < after.len() && implied(
        stacked_clauses(after.take(learnt[i].0 + 1)),
        learnt[i].1@,
    ) by {
        lemma_same_clauses(before.take(learnt[i].0 + 1), after.take(learnt[i].0 + 1));
    }
}

/// One more clause in some frame.
proof fn lemma_grown(before: Seq<Frame>, after: Seq<Frame>, depth: int, c: Seq<Lit>)
    requires
        grows_at(before, after, depth, c),
    ensures
        forall|a: Assignment| #[trigger]
            matrix_true(a, stacked_clauses(after)) <==> matrix_true(a, stacked_clauses(before)) && clause_true(a, c),
        forall|x: Var| #[trigger] mentions(stacked_clauses(after), x) ==> mentions(stacked_clauses(before), x) || clause_mentions(c, x),
    decreases before.len(),
{
    let n = before.len() - 1;
    let low_before = stacked_clauses(before.drop_last());
    let low_after = stacked_clauses(after.drop_last());
    let own_before = before[n].matrix();
    let own_after = after[n].matrix();
    if depth == n {
        lemma_same_clauses(before.drop_last(), after.drop_last());
        assert(stacked_clauses(after) =~= stacked_clauses(before).push(c));
        assert forall|a: Assignment| #[trigger] matrix_true(a, stacked_clauses(after)) <==> matrix_true(a, stacked_clauses(before))
            && clause_true(a, c) by {
            crate::simplify::lemma_push_true(a, stacked_clauses(before), c);
        }
        assert forall|x: Var| #[trigger] mentions(stacked_clauses(after), x) implies mentions(stacked_clauses(before), x) || clause_mentions(
            c,
            x,
        ) by {
            crate::qcnf::lemma_matrix_push(stacked_clauses(before), c, x);
        }
    } else {
        lemma_grown(before.drop_last(), after.drop_last(), depth, c);
        assert(own_after == own_before);
        assert forall|a: Assignment| #[trigger] matrix_true(a, stacked_clauses(after)) <==> matrix_true(a, stacked_clauses(before))
            && clause_true(a, c) by {
            lemma_concat_true(a, low_after, own_after);
            lemma_concat_true(a, low_before, own_before);
        }
        assert forall|x: Var| #[trigger] mentions(stacked_clauses(after), x) implies mentions(stacked_clauses(before), x) || clause_mentions(
            c,
            x,
        ) by {
            lemma_concat_mentions(low_after, own_after, x);
            lemma_concat_mentions(low_before, own_before, x);
        }
    }
}

/// Clauses hold together iff their parts do.
pub proof fn lemma_concat_true(a: Assignment, m: Matrix, n: Matrix)
    ensures
        matrix_true(a, m + n) <==> matrix_true(a, m) && matrix_true(a, n),
{
    let all = m + n;
    if matrix_true(a, all) {
        assert forall|i: int| 0 <= i < m.len() implies clause_true(a, #[trigger] m[i]) by {
            assert(all[i] == m[i]);
        }
        assert forall|i: int| 0 <= i < n.len() implies clause_true(a, #[trigger] n[i]) by {
            assert(all[m.len() + i] == n[i]);
        }
    }
    if matrix_true(a, m) && matrix_true(a, n) {
        assert forall|i: int| 0 <= i < all.len() implies clause_true(a, #[trigger] all[i]) by {
            if i < m.len() {
                assert(all[i] == m[i]);
            } else {
                assert(all[i] == n[i - m.len()]);
            }
        }
    }
}

/// Clauses mention what their parts mention.
pub proof fn lemma_concat_mentions(m: Matrix, n: Matrix, x: Var)
    ensures
        mentions(m + n, x) <==> mentions(m, x) || mentions(n, x),
{
    let all = m + n;
    if mentions(m, x) {
        let i = choose|i: int| 0 <= i < m.len() && clause_mentions(#[trigger] m[i], x);
        assert(all[i] == m[i]);
    }
    if mentions(n, x) {
        let i = choose|i: int| 0 <= i < n.len() && clause_mentions(#[trigger] n[i], x);
        assert(all[m.len() + i] == n[i]);
    }
    if mentions(all, x) {
        let i = choose|i: int| 0 <= i < all.len() && clause_mentions(#[trigger] all[i], x);
        if i < m.len() {
            assert(m[i] == all[i]);
        } else {
            assert(n[i - m.len()] == all[i]);
        }
    }
}

proof fn lemma_grown_lower(before: Seq<Frame>, after: Seq<Frame>, depth: int, c: Seq<Lit>, n: int, a: Assignment)
    requires
        grows_at(before, after, depth, c),
        0 <= n <= before.len(),
        matrix_true(a, stacked_clauses(after.take(n))),
    ensures
        matrix_true(a, stacked_clauses(before.take(n))),
{
    if depth < n {
        assert(grows_at(before.take(n), after.take(n), depth, c));
        lemma_grown(before.take(n), after.take(n), depth, c);
    } else {
        lemma_same_clauses(before.take(n), after.take(n));
    }
}

/// A clause in the top frame is the last clause of the stack.
pub proof fn lemma_top_clause(before: Seq<Frame>, after: Seq<Frame>, c: Seq<Lit>)
    requires
        grows_at(before, after, before.len() - 1, c),
    ensures
        stacked_clauses(after) == stacked_clauses(before).push(c),
{
    lemma_same_clauses(before.drop_last(), after.drop_last());
    assert(stacked_clauses(after) =~= stacked_clauses(before).push(c));
}

} // verus!
