//! The state of an incremental determinization run.
//!
//! Existential variables are given Skolem functions one after another: a
//! variable whose implication clauses determine it under every assignment
//! is assigned the function of its implications, and a decision assigns
//! one to a variable that they do not determine. Nothing here is taken on
//! trust by a result: the state proposes one, with the functions or the
//! universal move behind it, and the proposal is checked against the
//! clauses. What the state does guarantee is that every clause it holds
//! follows from the original ones.
use crate::clause::allocator::ClauseId;
use crate::clause::implied;
use crate::datastructure::heap::VarHeap;
use crate::datastructure::{LitSet, Rows, VarMap, VarSet};
use crate::incdet::activity::ClauseActivity;
use crate::incdet::conflict::check::{clauses_below, fires, grouped, lits_below, numbered, query, query_below, query_true, Answer, Group};
use crate::incdet::determinacy::{decide, lemma_model_assignment, model_assignment, satisfiable};
use crate::incdet::load::Core;
use crate::incdet::matrix::{lemma_implied_weaker, Clauses};
use crate::incdet::model::{Function, Region};
use crate::incdet::propagation::assignment::{constant_of, Assignment, Value};
use crate::incdet::propagation::trail::{DecLvl, Trail};
use crate::incdet::skolem::{kept, Impl, Skolem};
use crate::incdet::vsids::Vsids;
use crate::incdet::watch::{Watch, WatchList};
use crate::incdet::Options;
use crate::literal::{lemma_var_of, var_of, Lit, Var};
use crate::normal::{copy_lits, copy_vars};
use crate::qcnf::matrix_of;
use crate::quantifier::QuantTy;
use crate::semantics::{clause_true, cube_true, lit_true, matrix_true, Matrix};
use crate::simplify::sort_dedup;
use std::collections::VecDeque;
use vstd::prelude::*;
use vstd::set_lib::{lemma_int_range, lemma_len_subset, set_int_range};

verus! {

broadcast use crate::literal::group_literal;

/// A variable that implication clauses force both ways, and the literals
/// of an assignment under which they do.
#[derive(Debug)]
pub struct Conflict {
    pub var: Var,
    pub assignment: Vec<Lit>,
}

/// The number of variables in a set.
pub(crate) open spec fn counted(vars: Set<Var>) -> nat {
    set_int_range(0, u32::MAX + 1).filter(|i: int| vars.contains(var_of(i + 1))).len()
}

/// A set that lacks a variable of another is smaller.
pub(crate) proof fn lemma_fewer(many: Set<Var>, few: Set<Var>, x: Var)
    requires
        few.subset_of(many),
        many.contains(x),
        !few.contains(x),
    ensures
        counted(few) < counted(many),
{
    let range = set_int_range(0, u32::MAX + 1);
    let (f, m) = (range.filter(|i: int| few.contains(var_of(i + 1))), range.filter(|i: int| many.contains(var_of(i + 1))));
    lemma_int_range(0, u32::MAX + 1);
    lemma_var_of(x);
    lemma_len_subset(m, range);
    assert(var_of(x.id() + 1) == x);
    assert(m.contains(x.id()));
    assert(f.subset_of(m.remove(x.id()))) by {
        assert forall|i: int| #[trigger] f.contains(i) implies m.remove(x.id()).contains(i) by {}
    }
    lemma_len_subset(f, m.remove(x.id()));
}

/// The positive and the negative literal of a variable.
pub open spec fn sides(var: Var, p: Lit, n: Lit) -> bool {
    p.v() == var && p.pos() && n.v() == var && !n.pos()
}

/// Result of the determinacy check.
#[derive(Debug, Clone, Copy, PartialEq, Eq, Structural)]
pub enum Determinacy {
    /// An implication of the literal fires unconditionally: the variable
    /// has the constant Skolem function of the literal's polarity.
    Constant(Lit),
    /// The implications force a unique value under every assignment.
    Deterministic,
    /// The variable is not determined by its implications.
    Undetermined,
}

/// Result of one pure-literal propagation step.
#[derive(Debug)]
pub enum PureStep {
    /// No pure literal in the queue.
    Nothing,
    /// A pure literal was assigned.
    Progress,
    /// The pure candidate is conflicted.
    Conflict(Conflict),
}

/// Counters of a run.
#[derive(Debug, Clone, Copy)]
pub struct Statistics {
    pub decisions: u32,
    /// trail length at the first propagation fixpoint of the search
    pub initial_deterministic: usize,
    pub conflicts: u32,
    pub restarts: u32,
    pub added_clauses: u32,
    pub deleted_clauses: u32,
    pub pure_vars: u32,
    pub determinacy_checks: u32,
    pub conflict_checks: u32,
    pub cegar_rounds: u32,
    pub cases: u32,
}

impl Statistics {
    /// Nothing was counted.
    pub fn new() -> (stats: Statistics)
        ensures
            stats.decisions == 0,
            stats.initial_deterministic == 0,
            stats.conflicts == 0,
            stats.restarts == 0,
            stats.added_clauses == 0,
            stats.deleted_clauses == 0,
            stats.pure_vars == 0,
            stats.determinacy_checks == 0,
            stats.conflict_checks == 0,
            stats.cegar_rounds == 0,
            stats.cases == 0,
    {
        Statistics {
            decisions: 0,
            initial_deterministic: 0,
            conflicts: 0,
            restarts: 0,
            added_clauses: 0,
            deleted_clauses: 0,
            pure_vars: 0,
            determinacy_checks: 0,
            conflict_checks: 0,
            cegar_rounds: 0,
            cases: 0,
        }
    }
}

/// The state of the search.
#[derive(Debug)]
pub struct State {
    pub(crate) options: Options,
    pub(crate) universals: Vec<Var>,
    pub(crate) existentials: Vec<Var>,
    pub(crate) kinds: VarMap<QuantTy>,
    pub(crate) clauses: Clauses,
    pub(crate) skolem: Skolem,
    /// queue for next propagation tests
    pub(crate) propagation: VarHeap,
    pub(crate) constants: VecDeque<Lit>,
    pub(crate) assignment: Assignment,
    pub(crate) trail: Trail,
    pub(crate) watches: WatchList,
    pub(crate) activity: ClauseActivity,
    pub(crate) levels: VarMap<DecLvl>,
    pub(crate) vsids: Vsids,
    /// for every literal, the original clauses containing it
    pub(crate) occurrences: Rows<ClauseId>,
    /// variables whose clauses changed state, queued for a pure-literal
    /// check
    pub(crate) pure_queue: VecDeque<Var>,
    pub(crate) pure_queued: VarSet,
    /// pure literals assigned at the root level: choices with respect to
    /// the clauses of that time
    pub(crate) root_pure_lits: Vec<Lit>,
    /// the constant assumptions of the active query, assumed again after
    /// every backtrack below their level
    pub(crate) query_assumptions: Vec<Lit>,
    pub(crate) learnts: Vec<ClauseId>,
    /// handled universal regions, in the order they were excluded from the
    /// conflict search
    pub(crate) handled_cases: Vec<Region>,
    /// the active case assumptions with the decision level below each
    pub(crate) active: Vec<(Lit, DecLvl)>,
    /// the assumptions committed until their case closes
    pub(crate) committed: Vec<Lit>,
    /// moving average of the recorded cube sizes, in 1024ths
    pub(crate) cube_size_average: u64,
    pub(crate) rounds: u32,
    /// the most recently recorded response, used as the decision phase
    pub(crate) latest_response: VarMap<bool>,
    /// a clause without existential literals was added
    pub(crate) conflicted: bool,
    /// a move of the universal player, recorded when unsatisfiability is
    /// concluded
    pub(crate) unsat_witness: Option<Vec<Lit>>,
    pub(crate) stats: Statistics,
    /// the steps left before the search gives up
    pub(crate) fuel: u64,
}

/// The steps a search may take.
pub const SEARCH_STEPS: u64 = 16_777_216;

/// What is left of a number of registrations once the first listed clauses
/// have lost one each.
pub open spec fn registered_after(count: u32, cids: Seq<ClauseId>, cid: ClauseId, listed: int) -> u32
    decreases listed,
{
    if listed <= 0 {
        count
    } else {
        let before = registered_after(count, cids, cid, listed - 1);
        if cids[listed - 1] == cid && before > 0 {
            (before - 1) as u32
        } else {
            before
        }
    }
}

impl State {
    /// The original clauses.
    pub(crate) open spec fn matrix(&self) -> Matrix {
        self.clauses.matrix()
    }

    /// The parts are well-formed; in particular, every clause follows from
    /// the original ones.
    pub(crate) open spec fn wf(&self) -> bool {
        &&& self.clauses.wf()
        &&& self.propagation.wf()
        &&& self.trail.wf()
        &&& self.vsids.wf()
        &&& self.activity.wf()
    }

    /// The state is well-formed, has the variables and the original clauses
    /// it had before, and has gained no steps.
    pub(crate) open spec fn keeps(&self, before: &State) -> bool {
        &&& self.wf()
        &&& self.universals@ == before.universals@
        &&& self.existentials@ == before.existentials@
        &&& self.matrix() == before.matrix()
        &&& self.steps() <= before.steps()
    }

    /// At most the queues changed, and nothing left them.
    pub(crate) open spec fn requeued(&self, before: &State) -> bool {
        &&& *self == (State {
            pure_queue: self.pure_queue,
            pure_queued: self.pure_queued,
            propagation: self.propagation,
            ..*before
        })
        &&& before.pure_queued@.subset_of(self.pure_queued@)
        &&& before.propagation.vars().subset_of(self.propagation.vars())
    }

    /// At most implications, constants to propagate, watches and queued
    /// variables changed; of these only watches were lost, and no clause
    /// changed.
    pub(crate) open spec fn gained(&self, before: &State) -> bool {
        &&& *self == (State {
            pure_queue: self.pure_queue,
            pure_queued: self.pure_queued,
            propagation: self.propagation,
            constants: self.constants,
            skolem: self.skolem,
            clauses: self.clauses,
            watches: self.watches,
            ..*before
        })
        &&& before.pure_queued@.subset_of(self.pure_queued@)
        &&& before.propagation.vars().subset_of(self.propagation.vars())
        &&& before.constants@.is_prefix_of(self.constants@)
        &&& forall|l: Lit| before.skolem.of(l).is_prefix_of(#[trigger] self.skolem.of(l))
        &&& self.clauses.held() == before.clauses.held()
        &&& self.clauses.names() == before.clauses.names()
        &&& forall|cid: ClauseId| before.clauses.locked(cid) ==> #[trigger] self.clauses.locked(cid)
    }

    pub(crate) proof fn lemma_gained(&self, middle: &State, before: &State)
        requires
            self.gained(middle),
            middle.gained(before),
        ensures
            self.gained(before),
    {
        assert forall|l: Lit| before.skolem.of(l).is_prefix_of(#[trigger] self.skolem.of(l)) by {
            assert(middle.skolem.of(l).is_prefix_of(self.skolem.of(l)));
            assert(before.skolem.of(l).is_prefix_of(middle.skolem.of(l)));
        }
        assert forall|cid: ClauseId| before.clauses.locked(cid) implies #[trigger] self.clauses.locked(cid) by {
            assert(middle.clauses.locked(cid));
        }
    }

    /// The steps left.
    pub(crate) open spec fn steps(&self) -> u64 {
        self.fuel
    }

    /// The variable is bound by the quantifier.
    pub(crate) open spec fn quantified(&self, var: Var, quant: QuantTy) -> bool {
        self.kinds@.contains_key(var) && self.kinds@[var] == quant
    }

    /// The variable is existential and not assigned.
    pub(crate) open spec fn open(&self, lit: Lit) -> bool {
        self.quantified(lit.v(), QuantTy::Exists) && !self.assignment@.contains_key(lit.v())
    }

    /// The literal is constantly true, and on another variable than the
    /// given one.
    pub(crate) open spec fn constantly_true(&self, lit: Lit, besides: Option<Var>) -> bool {
        besides != Some(lit.v()) && constant_of(self.assignment@, lit) == Some(true)
    }

    /// Some literal is constantly true, besides those of a variable.
    pub(crate) open spec fn satisfied(&self, lits: Seq<Lit>, besides: Option<Var>) -> bool {
        exists|i: int| 0 <= i < lits.len() && self.constantly_true(#[trigger] lits[i], besides)
    }

    /// The clause is registered as an implication clause of the literal.
    pub(crate) open spec fn implies_by(&self, lit: Lit, cid: ClauseId) -> bool {
        exists|k: int| 0 <= k < self.skolem.of(lit).len() && (#[trigger] self.skolem.of(lit)[k]).clause == cid
    }

    /// A clause does not stop a literal from being pure.
    pub(crate) open spec fn harmless(&self, lit: Lit, cid: ClauseId) -> bool {
        self.implies_by(lit, cid) || match self.clauses.lits(cid) {
            Some(lits) => self.satisfied(lits, None),
            None => true,
        }
    }

    /// Every original clause containing the literal is either registered
    /// as an implication clause for it or satisfied by a constant.
    pub(crate) open spec fn pure_now(&self, lit: Lit) -> bool {
        forall|k: int| 0 <= k < self.occurrences.row(lit.id()).len() ==> self.harmless(lit, #[trigger] self.occurrences.row(lit.id())[k])
    }

    /// Whether a variable is existential.
    pub(crate) fn is_existential(&self, var: Var) -> (yes: bool)
        ensures
            yes == self.quantified(var, QuantTy::Exists),
    {
        match self.kinds.get(var) {
            Some(QuantTy::Exists) => true,
            _ => false,
        }
    }

    /// Whether a variable is universal.
    pub(crate) fn is_universal(&self, var: Var) -> (yes: bool)
        ensures
            yes == self.quantified(var, QuantTy::Forall),
    {
        match self.kinds.get(var) {
            Some(QuantTy::Forall) => true,
            _ => false,
        }
    }

    /// The level at which a variable was assigned.
    pub(crate) fn level(&self, var: Var) -> (lvl: DecLvl)
        ensures
            lvl == (if self.levels@.contains_key(var) { self.levels@[var] } else { DecLvl(0) }),
    {
        match self.levels.get(var) {
            Some(lvl) => lvl,
            None => DecLvl::root(),
        }
    }

    /// Whether a variable was assigned at the root.
    pub(crate) fn is_root_assigned(&self, var: Var) -> (yes: bool)
        ensures
            yes == (self.levels@.contains_key(var) && self.levels@[var].0 == 0),
    {
        match self.levels.get(var) {
            Some(lvl) => lvl.is_root(),
            None => false,
        }
    }

    /// Whether a literal is existential and not assigned.
    pub(crate) fn is_open_existential(&self, lit: Lit) -> (yes: bool)
        ensures
            yes == self.open(lit),
    {
        self.is_existential(lit.var()) && !self.assignment.is_assigned(lit.var())
    }

    /// Nothing is assigned, learnt or handled, and all steps are left.
    pub(crate) open spec fn unsearched(&self) -> bool {
        &&& self.trail.lits().len() == 0
        &&& self.trail.starts().len() == 0
        &&& self.learnts@.len() == 0
        &&& self.handled_cases@.len() == 0
        &&& self.active@.len() == 0
        &&& self.committed@.len() == 0
        &&& self.query_assumptions@.len() == 0
        &&& self.fuel == SEARCH_STEPS
    }

    /// A state for the core of a formula.
    pub(crate) fn load(options: Options, core: &Core) -> (state: State)
        ensures
            state.wf(),
            state.matrix() == core.clauses(),
            state.universals@ == core.universals@,
            state.existentials@ == core.existentials@,
            state.unsearched(),
    {
        let mut state = State {
            options,
            universals: copy_vars(&core.universals),
            existentials: copy_vars(&core.existentials),
            kinds: VarMap::new(),
            clauses: Clauses::new(),
            skolem: Skolem::new(),
            propagation: VarHeap::new(),
            constants: VecDeque::new(),
            assignment: Assignment::new(),
            trail: Trail::new(),
            watches: WatchList::new(),
            activity: ClauseActivity::new(),
            levels: VarMap::new(),
            vsids: Vsids::new(),
            occurrences: Rows::new(),
            pure_queue: VecDeque::new(),
            pure_queued: VarSet::new(),
            root_pure_lits: Vec::new(),
            query_assumptions: Vec::new(),
            learnts: Vec::new(),
            handled_cases: Vec::new(),
            active: Vec::new(),
            committed: Vec::new(),
            cube_size_average: 0,
            rounds: 0,
            latest_response: VarMap::new(),
            conflicted: false,
            unsat_witness: None,
            stats: Statistics::new(),
            fuel: SEARCH_STEPS,
        };
        let mut k: usize = 0;
        while k < core.universals.len()
            invariant
                k <= core.universals@.len(),
                state.wf(),
                state.universals@ == core.universals@,
                state.existentials@ == core.existentials@,
                state.unsearched(),
                state.matrix() == Matrix::empty(),
            decreases core.universals.len() - k,
        {
            state.kinds.insert(core.universals[k], QuantTy::Forall);
            k += 1;
        }
        let mut k: usize = 0;
        while k < core.existentials.len()
            invariant
                k <= core.existentials@.len(),
                state.wf(),
                state.universals@ == core.universals@,
                state.existentials@ == core.existentials@,
                state.unsearched(),
                state.matrix() == Matrix::empty(),
            decreases core.existentials.len() - k,
        {
            let var = core.existentials[k];
            state.kinds.insert(var, QuantTy::Exists);
            state.vsids.add(var);
            state.queue_pure_check(var);
            k += 1;
        }
        state.watches.set_enabled();
        let mut k: usize = 0;
        assert(core.clauses().take(0) =~= Matrix::empty());
        while k < core.originals.len()
            invariant
                k <= core.originals@.len(),
                state.wf(),
                state.universals@ == core.universals@,
                state.existentials@ == core.existentials@,
                state.unsearched(),
                state.matrix() == core.clauses().take(k as int),
            decreases core.originals.len() - k,
        {
            state.integrate_clause(&core.originals[k]);
            assert(core.clauses().take(k as int + 1) =~= core.clauses().take(k as int).push(core.originals@[k as int]@));
            k += 1;
        }
        assert(core.clauses().take(core.clauses().len() as int) =~= core.clauses());
        state
    }

    /// Queues a variable for a pure-literal check.
    pub(crate) fn queue_pure_check(&mut self, var: Var)
        requires
            old(self).wf(),
        ensures
            final(self).keeps(old(self)),
            final(self).requeued(old(self)),
            final(self).propagation == old(self).propagation,
            final(self).pure_queued@ == old(self).pure_queued@.insert(var),
            final(self).pure_queue@ == (if old(self).pure_queued@.contains(var) {
                old(self).pure_queue@
            } else {
                old(self).pure_queue@.push(var)
            }),
    {
        if self.pure_queued.insert(var) {
            self.pure_queue.push_back(var);
        }
    }

    /// Queues the determinacy check of a variable.
    pub(crate) fn queue_determinacy_check(&mut self, var: Var)
        requires
            old(self).wf(),
        ensures
            final(self).keeps(old(self)),
            final(self).requeued(old(self)),
            final(self).pure_queue == old(self).pure_queue,
            final(self).pure_queued == old(self).pure_queued,
            final(self).propagation.vars() == old(self).propagation.vars().insert(var),
    {
        let count = (self.skolem.count(var.positive()) as u64).saturating_add(self.skolem.count(var.negative()) as u64);
        self.propagation.add_and_set(var, count);
    }

    /// Queues the determinacy check of a variable that has implications.
    pub(crate) fn requeue_determinacy_check(&mut self, var: Var)
        requires
            old(self).wf(),
        ensures
            final(self).keeps(old(self)),
            final(self).requeued(old(self)),
            final(self).pure_queue == old(self).pure_queue,
            final(self).pure_queued == old(self).pure_queued,
            final(self).propagation.vars() == (if old(self).has_implications(var) {
                old(self).propagation.vars().insert(var)
            } else {
                old(self).propagation.vars()
            }),
    {
        let positive = var.positive();
        let negative = var.negative();
        proof {
            if self.has_implications(var) {
                let l = choose|l: Lit| l.v() == var && (#[trigger] self.skolem.of(l)).len() > 0;
                if l.pos() {
                    crate::literal::lemma_lit_ext(l, positive);
                } else {
                    crate::literal::lemma_lit_ext(l, negative);
                }
            }
        }
        if self.skolem.count(positive) > 0 || self.skolem.count(negative) > 0 {
            self.queue_determinacy_check(var);
        }
    }

    /// A literal of the variable has an implication clause.
    pub(crate) open spec fn has_implications(&self, var: Var) -> bool {
        exists|l: Lit| l.v() == var && (#[trigger] self.skolem.of(l)).len() > 0
    }

    /// The clause became an implication clause of the literal.
    pub(crate) open spec fn registered(&self, before: &State, lit: Lit, cid: ClauseId, lvl: DecLvl) -> bool {
        &&& self.skolem.of(lit) == before.skolem.of(lit).push((Impl { clause: cid, dec_lvl: lvl }))
        &&& forall|other: Lit| other != lit ==> #[trigger] self.skolem.of(other) == before.skolem.of(other)
        &&& self.pure_queued@.contains(lit.v())
        &&& self.propagation.vars().contains(lit.v())
        &&& cid.0 < self.clauses.held().len() ==> self.clauses.locked(cid)
    }

    /// Registers an implication clause of a literal.
    pub(crate) fn register(&mut self, lit: Lit, cid: ClauseId, lvl: DecLvl)
        requires
            old(self).wf(),
        ensures
            final(self).keeps(old(self)),
            final(self).gained(old(self)),
            final(self).registered(old(self), lit, cid, lvl),
            final(self).constants == old(self).constants,
            final(self).watches == old(self).watches,
    {
        self.skolem.add_implication(lit, cid, lvl);
        self.clauses.lock(cid);
        self.queue_pure_check(lit.var());
        self.queue_determinacy_check(lit.var());
    }

    /// Records that a clause has no existential literal: the universal
    /// player wins by falsifying it.
    pub(crate) fn conclude_from(&mut self, lits: &Vec<Lit>)
        requires
            old(self).wf(),
        ensures
            final(self).keeps(old(self)),
            *final(self) == (State { conflicted: true, unsat_witness: final(self).unsat_witness, ..*old(self) }),
            final(self).unsat_witness matches Some(witness) && witness@ == opposites(lits@),
    {
        self.conflicted = true;
        let witness = negate_all(lits);
        assert(witness@ =~= opposites(lits@));
        self.unsat_witness = Some(witness);
    }

    /// Integrates an original clause into the root-level state.
    pub(crate) fn integrate_clause(&mut self, lits: &Vec<Lit>)
        requires
            old(self).wf(),
        ensures
            final(self).wf(),
            final(self).matrix() == old(self).matrix().push(lits@),
            final(self).steps() <= old(self).steps(),
            *final(self) == (State {
                clauses: final(self).clauses,
                occurrences: final(self).occurrences,
                skolem: final(self).skolem,
                watches: final(self).watches,
                constants: final(self).constants,
                propagation: final(self).propagation,
                pure_queue: final(self).pure_queue,
                pure_queued: final(self).pure_queued,
                conflicted: final(self).conflicted,
                unsat_witness: final(self).unsat_witness,
                ..*old(self)
            }),
            final(self).clauses.names() == old(self).clauses.names().push(ClauseId(old(self).clauses.held().len() as usize)),
            final(self).clauses.held() == old(self).clauses.held().push(Some(lits@)),
            final(self).conflicted == (old(self).conflicted || !old(self).some_existential(lits@)),
            old(self).some_existential(lits@) ==> final(self).unsat_witness == old(self).unsat_witness,
            !old(self).some_existential(lits@) ==> (final(self).unsat_witness matches Some(witness) && witness@ == opposites(lits@)),
    {
        let cid = self.clauses.add_original(lits);
        let ghost after = *self;
        let mut k: usize = 0;
        while k < lits.len()
            invariant
                k <= lits@.len(),
                self.keeps(&after),
                *self == (State { occurrences: self.occurrences, ..after }),
            decreases lits.len() - k,
        {
            self.occurrences.push(lits[k].as_index(), cid);
            k += 1;
        }
        if !self.has_existential(lits) {
            self.conclude_from(lits);
            return;
        }
        if self.satisfied_by_constant(lits, None) {
            return;
        }
        let open = self.open_existentials(lits);
        if open.len() == 0 {
            // every existential literal has a permanent function: whether
            // they satisfy the clause is decided when the result is checked
            return;
        }
        if open.len() == 1 {
            let lit = open[0];
            if self.options.constant_propagation && self.others_constantly_false(lits, lit) {
                self.constants.push_back(lit);
            }
            self.register(lit, cid, DecLvl::root());
        } else {
            self.watches.add_watch(open[0], Watch { clause: cid });
            self.watches.add_watch(open[1], Watch { clause: cid });
        }
    }

    /// Some literal is existential.
    pub(crate) open spec fn some_existential(&self, lits: Seq<Lit>) -> bool {
        exists|i: int| 0 <= i < lits.len() && self.quantified((#[trigger] lits[i]).v(), QuantTy::Exists)
    }

    /// Whether a clause has an existential literal.
    pub(crate) fn has_existential(&self, lits: &Vec<Lit>) -> (found: bool)
        ensures
            found == self.some_existential(lits@),
    {
        let mut k: usize = 0;
        while k < lits.len()
            invariant
                k <= lits@.len(),
                forall|i: int| 0 <= i < k ==> !self.quantified((#[trigger] lits@[i]).v(), QuantTy::Exists),
            decreases lits.len() - k,
        {
            if self.is_existential(lits[k].var()) {
                return true;
            }
            k += 1;
        }
        false
    }

    /// Whether a literal of the clause is constantly true, besides those
    /// of a variable.
    pub(crate) fn satisfied_by_constant(&self, lits: &Vec<Lit>, besides: Option<Var>) -> (found: bool)
        ensures
            found == self.satisfied(lits@, besides),
    {
        let mut k: usize = 0;
        while k < lits.len()
            invariant
                k <= lits@.len(),
                forall|i: int| 0 <= i < k ==> !self.constantly_true(#[trigger] lits@[i], besides),
            decreases lits.len() - k,
        {
            let lit = lits[k];
            let skip = match besides {
                Some(var) => lit.var() == var,
                None => false,
            };
            if !skip {
                match self.assignment.constant_value(lit) {
                    Some(true) => {
                        assert(self.constantly_true(lits@[k as int], besides));
                        return true;
                    },
                    _ => {},
                }
            }
            k += 1;
        }
        false
    }

    /// Whether all other literals of the clause are constantly false.
    pub(crate) fn others_constantly_false(&self, lits: &Vec<Lit>, lit: Lit) -> (all: bool)
        ensures
            all == forall|i: int|
                0 <= i < lits@.len() && (#[trigger] lits@[i]) != lit ==> constant_of(self.assignment@, lits@[i]) == Some(false),
    {
        let mut k: usize = 0;
        while k < lits.len()
            invariant
                k <= lits@.len(),
                forall|i: int| 0 <= i < k && (#[trigger] lits@[i]) != lit ==> constant_of(self.assignment@, lits@[i]) == Some(false),
            decreases lits.len() - k,
        {
            if lits[k] != lit {
                match self.assignment.constant_value(lits[k]) {
                    Some(false) => {},
                    _ => {
                        return false;
                    },
                }
            }
            k += 1;
        }
        true
    }

    /// The existential literals of the clause that are not assigned.
    pub(crate) fn open_existentials(&self, lits: &Vec<Lit>) -> (open: Vec<Lit>)
        ensures
            forall|i: int| 0 <= i < open@.len() ==> lits@.contains(#[trigger] open@[i]) && self.open(open@[i]),
            forall|i: int| 0 <= i < lits@.len() && self.open(#[trigger] lits@[i]) ==> open@.contains(lits@[i]),
            lits@.no_duplicates() ==> open@.no_duplicates(),
    {
        let mut open: Vec<Lit> = Vec::new();
        let mut k: usize = 0;
        while k < lits.len()
            invariant
                k <= lits@.len(),
                forall|i: int| 0 <= i < open@.len() ==> lits@.contains(#[trigger] open@[i]) && self.open(open@[i]),
                forall|i: int| 0 <= i < k && self.open(#[trigger] lits@[i]) ==> open@.contains(lits@[i]),
                forall|i: int| 0 <= i < open@.len() ==> among(lits@, k as int, #[trigger] open@[i]),
                lits@.no_duplicates() ==> open@.no_duplicates(),
            decreases lits.len() - k,
        {
            let ghost before = open@;
            proof {
                assert forall|l: Lit| #[trigger] among(lits@, k as int, l) implies among(lits@, k as int + 1, l) by {
                    let j = choose|j: int| 0 <= j < k && #[trigger] lits@[j] == l;
                    assert(lits@[j] == l);
                }
            }
            if self.is_open_existential(lits[k]) {
                assert(lits@.contains(lits@[k as int]));
                open.push(lits[k]);
                proof {
                    assert(lits@[k as int] == open@[before.len() as int]);
                    assert forall|i: int| 0 <= i < open@.len() implies among(lits@, k as int + 1, #[trigger] open@[i]) by {
                        if i < before.len() {
                            assert(among(lits@, k as int, before[i]));
                        }
                    }
                    if lits@.no_duplicates() {
                        assert forall|i: int, j: int| 0 <= i < open@.len() && 0 <= j < open@.len() && i != j implies open@[i] != open@[j] by {
                            if i == before.len() {
                                assert(among(lits@, k as int, before[j]));
                            } else if j == before.len() {
                                assert(among(lits@, k as int, before[i]));
                            }
                        }
                    }
                    assert forall|i: int| 0 <= i < k + 1 && self.open(#[trigger] lits@[i]) implies open@.contains(lits@[i]) by {
                        crate::datastructure::lemma_push_contains(before, lits@[k as int], lits@[i]);
                    }
                }
            }
            k += 1;
        }
        open
    }

    /// A clause was learnt: it is allocated, and if a single existential
    /// literal of it is open, it is an implication clause of that literal.
    /// A clause without existential literals is a conflict, and falsifying
    /// it a move of the universal player.
    pub(crate) open spec fn learnt_clause(&self, before: &State, clause: Seq<Lit>) -> bool {
        if before.some_existential(clause) {
            let cid = ClauseId(before.clauses.held().len() as usize);
            &&& *self == (State {
                clauses: self.clauses,
                learnts: self.learnts,
                watches: self.watches,
                constants: self.constants,
                skolem: self.skolem,
                propagation: self.propagation,
                pure_queue: self.pure_queue,
                pure_queued: self.pure_queued,
                ..*before
            })
            &&& self.learnts@ == before.learnts@.push(cid)
            &&& exists|lits: Seq<Lit>| #[trigger]
                self.clauses.held() == before.clauses.held().push(Some(lits)) && crate::simplify::same_lits(lits, clause)
            &&& forall|l: Lit| #[trigger] before.only_open(clause, l) ==> self.skolem.of(l).len() == before.skolem.of(l).len() + 1
                && self.skolem.of(l).last().clause == cid
        } else {
            &&& *self == (State { conflicted: true, unsat_witness: self.unsat_witness, ..*before })
            &&& self.unsat_witness matches Some(witness) && crate::simplify::same_lits(witness@, opposites(clause))
        }
    }

    /// The literal is the only open existential one of the clause.
    pub(crate) open spec fn only_open(&self, clause: Seq<Lit>, l: Lit) -> bool {
        clause.contains(l) && self.open(l) && forall|i: int| 0 <= i < clause.len() && self.open(#[trigger] clause[i]) ==> clause[i] == l
    }

    proof fn lemma_some_existential(&self, left: Seq<Lit>, right: Seq<Lit>)
        requires
            crate::simplify::same_lits(left, right),
        ensures
            self.some_existential(left) == self.some_existential(right),
    {
        if self.some_existential(left) {
            let i = choose|i: int| 0 <= i < left.len() && self.quantified((#[trigger] left[i]).v(), QuantTy::Exists);
            assert(left.contains(left[i]));
            let j = choose|j: int| 0 <= j < right.len() && right[j] == left[i];
            assert(self.quantified(right[j].v(), QuantTy::Exists));
        }
        if self.some_existential(right) {
            let i = choose|i: int| 0 <= i < right.len() && self.quantified((#[trigger] right[i]).v(), QuantTy::Exists);
            assert(right.contains(right[i]));
            assert(left.contains(right[i]));
            let j = choose|j: int| 0 <= j < left.len() && left[j] == right[i];
            assert(self.quantified(left[j].v(), QuantTy::Exists));
        }
    }

    /// Adds a learnt clause: watched by two unassigned existential
    /// literals or, with a single one left, registered as an implication
    /// clause at the deepest level of the others.
    pub(crate) fn add_learnt_clause(&mut self, clause: &Vec<Lit>)
        requires
            old(self).wf(),
            implied(old(self).matrix(), clause@),
        ensures
            final(self).keeps(old(self)),
            final(self).learnt_clause(old(self), clause@),
    {
        let lits = sort_dedup(clause);
        proof {
            lemma_implied_weaker(self.matrix(), clause@, lits@);
            self.lemma_some_existential(lits@, clause@);
        }
        if !self.has_existential(&lits) {
            self.conclude_from(&lits);
            proof {
                lemma_same_opposites(lits@, clause@);
            }
            return;
        }
        let cid = self.clauses.add_learnt(&lits);
        self.learnts.push(cid);
        let ghost added = *self;
        let open = self.open_existentials(&lits);
        proof {
            assert(self.clauses.held() == old(self).clauses.held().push(Some(lits@)));
            assert forall|l: Lit| #[trigger] old(self).only_open(clause@, l) implies open@.len() == 1 && open@[0] == l by {
                assert(lits@.contains(l));
                let i = choose|i: int| 0 <= i < lits@.len() && lits@[i] == l;
                assert(self.open(lits@[i]));
                assert(open@.contains(l));
                assert forall|j: int| 0 <= j < open@.len() implies open@[j] == l by {
                    assert(lits@.contains(open@[j]));
                    assert(clause@.contains(open@[j]));
                    let n = choose|n: int| 0 <= n < clause@.len() && clause@[n] == open@[j];
                    assert(old(self).open(clause@[n]));
                }
                if open@.len() > 1 {
                    assert forall|i: int, j: int| 0 <= i < lits@.len() && 0 <= j < lits@.len() && i != j implies lits@[i] != lits@[j] by {
                        if i < j {
                            assert(lits@[i].dimacs() < lits@[j].dimacs());
                        } else {
                            assert(lits@[j].dimacs() < lits@[i].dimacs());
                        }
                    }
                    assert(open@[0] == l && open@[1] == l);
                    assert(open@.no_duplicates());
                }
            }
        }
        if open.len() == 0 {
            return;
        }
        let first = open[0];
        self.watches.add_watch(first, Watch { clause: cid });
        if open.len() >= 2 {
            self.watches.add_watch(open[1], Watch { clause: cid });
            return;
        }
        // select an existential literal from the largest decision level
        let mut deepest = DecLvl::root();
        let mut second: Option<Lit> = None;
        let mut constant = true;
        let mut k: usize = 0;
        while k < lits.len()
            invariant
                k <= lits@.len(),
                self.keeps(old(self)),
                *self == (State { watches: self.watches, ..added }),
            decreases lits.len() - k,
        {
            let lit = lits[k];
            if lit != first {
                if self.is_existential(lit.var()) {
                    let lvl = self.level(lit.var());
                    if second.is_none() || lvl.0 > deepest.0 {
                        deepest = lvl;
                        second = Some(lit);
                    }
                }
                match self.assignment.constant_value(lit) {
                    Some(false) => {},
                    _ => {
                        constant = false;
                    },
                }
            }
            k += 1;
        }
        match second {
            Some(lit) => {
                self.watches.add_watch(lit, Watch { clause: cid });
            },
            None => {},
        }
        if constant && deepest.is_root() && self.options.constant_propagation {
            self.constants.push_back(first);
        }
        self.register(first, cid, deepest);
    }

    /// Adds clauses that follow from the original ones.
    pub(crate) fn add_learnt_clauses(&mut self, clauses: &Vec<Vec<Lit>>)
        requires
            old(self).wf(),
            forall|i: int| 0 <= i < clauses@.len() ==> implied(old(self).matrix(), (#[trigger] clauses@[i])@),
        ensures
            final(self).keeps(old(self)),
            final(self).kinds == old(self).kinds,
            final(self).learnts@.len() == old(self).learnts@.len() + old(self).with_existentials(clauses@, clauses@.len() as int),
            final(self).conflicted == (old(self).conflicted || old(self).with_existentials(clauses@, clauses@.len() as int)
                < clauses@.len()),
    {
        let mut k: usize = 0;
        while k < clauses.len()
            invariant
                k <= clauses@.len(),
                self.kinds == old(self).kinds,
                self.learnts@.len() == old(self).learnts@.len() + old(self).with_existentials(clauses@, k as int),
                old(self).with_existentials(clauses@, k as int) <= k,
                self.conflicted == (old(self).conflicted || old(self).with_existentials(clauses@, k as int) < k),
                self.keeps(old(self)),
                forall|i: int| 0 <= i < clauses@.len() ==> implied(old(self).matrix(), (#[trigger] clauses@[i])@),
            decreases clauses.len() - k,
        {
            proof {
                let c = clauses@[k as int]@;
                assert forall|i: int| 0 <= i < c.len() implies self.quantified((#[trigger] c[i]).v(), QuantTy::Exists) == old(self).quantified(
                    c[i].v(),
                    QuantTy::Exists,
                ) by {}
                assert(self.some_existential(c) == old(self).some_existential(c));
            }
            self.add_learnt_clause(&clauses[k]);
            k += 1;
        }
    }

    /// The number of the first clauses that have an existential literal.
    pub(crate) open spec fn with_existentials(&self, clauses: Seq<Vec<Lit>>, count: int) -> nat
        decreases count,
    {
        if count <= 0 {
            0
        } else {
            self.with_existentials(clauses, count - 1) + if self.some_existential(clauses[count - 1]@) {
                1nat
            } else {
                0nat
            }
        }
    }

    /// The first learnt clauses that were not deleted.
    pub(crate) open spec fn learnt_matrix(&self, count: int) -> Matrix
        decreases count,
    {
        if count <= 0 {
            Seq::empty()
        } else {
            match self.clauses.lits(self.learnts@[count - 1]) {
                Some(lits) => self.learnt_matrix(count - 1).push(lits),
                None => self.learnt_matrix(count - 1),
            }
        }
    }

    /// The clauses learnt during solving.
    pub(crate) fn learnt_clauses(&self) -> (clauses: Vec<Vec<Lit>>)
        requires
            self.wf(),
        ensures
            matrix_of(clauses@) == self.learnt_matrix(self.learnts@.len() as int),
            forall|i: int| 0 <= i < clauses@.len() ==> implied(self.matrix(), (#[trigger] clauses@[i])@),
    {
        let mut clauses: Vec<Vec<Lit>> = Vec::new();
        let mut k: usize = 0;
        assert(matrix_of(clauses@) =~= self.learnt_matrix(0));
        while k < self.learnts.len()
            invariant
                k <= self.learnts@.len(),
                matrix_of(clauses@) == self.learnt_matrix(k as int),
                self.wf(),
                forall|i: int| 0 <= i < clauses@.len() ==> implied(self.matrix(), (#[trigger] clauses@[i])@),
            decreases self.learnts.len() - k,
        {
            match self.clauses.get(self.learnts[k]) {
                Some(lits) => {
                    let ghost before = matrix_of(clauses@);
                    clauses.push(copy_lits(lits));
                    assert(matrix_of(clauses@) =~= before.push(lits@));
                },
                None => {},
            }
            k += 1;
        }
        clauses
    }

    /// The determinacy check: whether the implication clauses of a variable
    /// force a unique value under every assignment of the remaining
    /// variables.
    pub(crate) fn has_unique_consequence(&mut self, var: Var) -> (determinacy: Determinacy)
        requires
            old(self).wf(),
        ensures
            final(self).keeps(old(self)),
            *final(self) == (State { stats: final(self).stats, ..*old(self) }),
            forall|p: Lit, n: Lit| #[trigger] sides(var, p, n) ==> old(self).determines(p, n, determinacy),
            determinacy matches Determinacy::Constant(lit) ==> lit.v() == var,
    {
        let positive = var.positive();
        let negative = var.negative();
        self.stats.determinacy_checks = self.stats.determinacy_checks.saturating_add(1);
        // collect the implication clauses without `var`, simplified by the
        // constant assignments
        let mut conditions: Vec<Vec<Lit>> = Vec::new();
        let mut side: usize = 0;
        proof {
            self.lemma_conditions(old(self), positive, self.skolem.of(positive).len() as int);
            self.lemma_conditions(old(self), negative, self.skolem.of(negative).len() as int);
            assert(matrix_of(conditions@) =~= Matrix::empty());
            assert forall|p: Lit, n: Lit| #[trigger] sides(var, p, n) implies p == positive && n == negative by {
                crate::literal::lemma_lit_ext(p, positive);
                crate::literal::lemma_lit_ext(n, negative);
            }
        }
        while side < 2
            invariant
                side <= 2,
                self.keeps(old(self)),
                *self == (State { stats: self.stats, ..*old(self) }),
                positive.v() == var && positive.pos() && negative.v() == var && !negative.pos(),
                forall|p: Lit, n: Lit| #[trigger] sides(var, p, n) ==> p == positive && n == negative,
                self.open_conditions(positive) == old(self).open_conditions(positive),
                self.open_conditions(negative) == old(self).open_conditions(negative),
                side >= 1 ==> !self.open_conditions(positive).contains(Seq::empty()),
                side >= 2 ==> !self.open_conditions(negative).contains(Seq::empty()),
                matrix_of(conditions@) == (if side == 0 {
                    Matrix::empty()
                } else if side == 1 {
                    self.open_conditions(positive)
                } else {
                    self.open_conditions(positive) + self.open_conditions(negative)
                }),
            decreases 2 - side,
        {
            let lit = if side == 0 {
                positive
            } else {
                negative
            };
            let count = self.skolem.count(lit);
            let ghost given = matrix_of(conditions@);
            let mut k: usize = 0;
            assert(given + self.conditions(lit, 0) =~= given);
            while k < count
                invariant
                    k <= count,
                    side < 2,
                    self.keeps(old(self)),
                    *self == (State { stats: self.stats, ..*old(self) }),
                    count == self.skolem.of(lit).len(),
                    lit == (if side == 0 { positive } else { negative }),
                    positive.v() == var && positive.pos() && negative.v() == var && !negative.pos(),
                    forall|p: Lit, n: Lit| #[trigger] sides(var, p, n) ==> p == positive && n == negative,
                    self.open_conditions(positive) == old(self).open_conditions(positive),
                    self.open_conditions(negative) == old(self).open_conditions(negative),
                    side >= 1 ==> !self.open_conditions(positive).contains(Seq::empty()),
                    matrix_of(conditions@) == given + self.conditions(lit, k as int),
                    !self.conditions(lit, k as int).contains(Seq::empty()),
                decreases count - k,
            {
                match self.clauses.get(self.skolem.at(lit, k).clause) {
                    Some(lits) => {
                        if !self.satisfied_by_constant(lits, Some(var)) {
                            let condition = self.open_condition(lits, var);
                            let ghost before = self.conditions(lit, k as int);
                            let ghost after = before.push(condition@);
                            assert(self.conditions(lit, k as int + 1) == after);
                            if condition.len() == 0 {
                                // the implication fires unconditionally
                                proof {
                                    assert(condition@ =~= Seq::<Lit>::empty());
                                    assert(after[before.len() as int] == condition@);
                                    self.lemma_conditions_grow(lit, k as int + 1, count as int);
                                    assert(self.conditions(lit, count as int)[before.len() as int] == condition@);
                                    assert(self.open_conditions(lit).contains(Seq::empty()));
                                }
                                return Determinacy::Constant(lit);
                            }
                            let ghost c = condition@;
                            let ghost held = matrix_of(conditions@);
                            conditions.push(condition);
                            proof {
                                assert(matrix_of(conditions@) =~= held.push(c));
                                assert(held.push(c) =~= given + after);
                                crate::datastructure::lemma_push_contains(before, c, Seq::empty());
                            }
                        }
                    },
                    None => {},
                }
                k += 1;
            }
            side += 1;
            assert(Matrix::empty() + self.open_conditions(positive) =~= self.open_conditions(positive));
        }
        if conditions.len() == 0 {
            return Determinacy::Undetermined;
        }
        match decide(&conditions) {
            Some(false) => Determinacy::Deterministic,
            _ => Determinacy::Undetermined,
        }
    }

    /// The first literals of a clause on other variables that are not
    /// constantly false.
    pub(crate) open spec fn condition(&self, lits: Seq<Lit>, count: int, var: Var) -> Seq<Lit>
        decreases count,
    {
        if count <= 0 {
            Seq::empty()
        } else {
            let before = self.condition(lits, count - 1, var);
            let l = lits[count - 1];
            if l.v() != var && constant_of(self.assignment@, l) != Some(false) {
                before.push(l)
            } else {
                before
            }
        }
    }

    /// The conditions of the first implications of a literal that no
    /// constant satisfies.
    pub(crate) open spec fn conditions(&self, lit: Lit, count: int) -> Matrix
        decreases count,
    {
        if count <= 0 {
            Seq::empty()
        } else {
            let before = self.conditions(lit, count - 1);
            match self.clauses.lits(self.skolem.of(lit)[count - 1].clause) {
                Some(lits) => if self.satisfied(lits, Some(lit.v())) {
                    before
                } else {
                    before.push(self.condition(lits, lits.len() as int, lit.v()))
                },
                None => before,
            }
        }
    }

    /// The conditions of the implications of a literal.
    pub(crate) open spec fn open_conditions(&self, lit: Lit) -> Matrix {
        self.conditions(lit, self.skolem.of(lit).len() as int)
    }

    /// What the implications of the two literals of a variable determine:
    /// a constant if one of them has no condition; a unique value if some
    /// condition is met wherever the variables are; and nothing otherwise,
    /// or where it cannot be told.
    pub(crate) open spec fn determines(&self, p: Lit, n: Lit, determinacy: Determinacy) -> bool {
        let (first, second) = (self.open_conditions(p), self.open_conditions(n));
        let none = Seq::<Lit>::empty();
        match determinacy {
            Determinacy::Constant(lit) => (lit == p && first.contains(none)) || (lit == n && second.contains(none) && !first.contains(none)),
            Determinacy::Deterministic => !first.contains(none) && !second.contains(none) && (first + second).len() > 0 && !satisfiable(
                first + second,
            ),
            Determinacy::Undetermined => !first.contains(none) && !second.contains(none) && ((first + second).len() == 0 || satisfiable(
                first + second,
            ) || !crate::sat::clauses_ok(first + second)),
        }
    }

    proof fn lemma_condition(&self, before: &State, lits: Seq<Lit>, count: int, var: Var)
        requires
            self.assignment == before.assignment,
        ensures
            self.condition(lits, count, var) == before.condition(lits, count, var),
        decreases count,
    {
        if count > 0 {
            self.lemma_condition(before, lits, count - 1, var);
        }
    }

    /// Conditions rest on the implications, clauses and constants.
    proof fn lemma_conditions(&self, before: &State, lit: Lit, count: int)
        requires
            *self == (State { stats: self.stats, ..*before }),
        ensures
            self.conditions(lit, count) == before.conditions(lit, count),
        decreases count,
    {
        if count > 0 {
            self.lemma_conditions(before, lit, count - 1);
            match self.clauses.lits(self.skolem.of(lit)[count - 1].clause) {
                Some(lits) => {
                    self.lemma_condition(before, lits, lits.len() as int, lit.v());
                    assert forall|i: int| 0 <= i < lits.len() implies self.constantly_true(#[trigger] lits[i], Some(lit.v()))
                        == before.constantly_true(lits[i], Some(lit.v())) by {}
                    assert(self.satisfied(lits, Some(lit.v())) == before.satisfied(lits, Some(lit.v())));
                },
                None => {},
            }
        }
    }

    proof fn lemma_conditions_grow(&self, lit: Lit, count: int, more: int)
        requires
            0 <= count <= more,
        ensures
            self.conditions(lit, count).is_prefix_of(self.conditions(lit, more)),
        decreases more - count,
    {
        if count < more {
            self.lemma_conditions_grow(lit, count, more - 1);
        }
    }

    /// The literals of a clause on other variables that are not constantly
    /// false.
    fn open_condition(&self, lits: &Vec<Lit>, var: Var) -> (condition: Vec<Lit>)
        ensures
            condition@ == self.condition(lits@, lits@.len() as int, var),
    {
        let mut condition: Vec<Lit> = Vec::new();
        let mut k: usize = 0;
        while k < lits.len()
            invariant
                k <= lits@.len(),
                condition@ == self.condition(lits@, k as int, var),
            decreases lits.len() - k,
        {
            if lits[k].var() != var {
                match self.assignment.constant_value(lits[k]) {
                    Some(false) => {},
                    _ => {
                        condition.push(lits[k]);
                    },
                }
            }
            k += 1;
        }
        condition
    }

    /// Implication clauses of the two literals of a variable do not clash,
    /// and neither is satisfied by a constant.
    pub(crate) open spec fn fire_together(&self, var: Var, l: Lit, m: Lit, p: int, n: int) -> bool {
        &&& l.v() == var && l.pos() && m.v() == var && !m.pos()
        &&& 0 <= p < self.skolem.of(l).len()
        &&& 0 <= n < self.skolem.of(m).len()
        &&& match (self.clauses.lits(self.skolem.of(l)[p].clause), self.clauses.lits(self.skolem.of(m)[n].clause)) {
            (Some(pos), Some(neg)) => {
                &&& !self.satisfied(pos, Some(var))
                &&& !self.satisfied(neg, Some(var))
                &&& forall|i: int| 0 <= i < neg.len() && (#[trigger] neg[i]).v() != var ==> !pos.contains(neg[i].neg())
            },
            _ => false,
        }
    }

    /// Syntactic over-approximation of the conflict check: ignoring all
    /// global constraints, both polarities can fire together only if some
    /// pair of implication clauses of opposite polarity has no clashing
    /// literals (and neither clause is satisfied by a constant).
    fn may_be_conflicted(&self, var: Var) -> (possible: bool)
        requires
            self.wf(),
        ensures
            possible == exists|l: Lit, m: Lit, p: int, n: int| #[trigger] self.fire_together(var, l, m, p, n),
    {
        let positive = var.positive();
        let negative = var.negative();
        let pos_count = self.skolem.count(positive);
        let neg_count = self.skolem.count(negative);
        let mut p: usize = 0;
        while p < pos_count
            invariant
                self.wf(),
                p <= pos_count,
                pos_count == self.skolem.of(positive).len(),
                neg_count == self.skolem.of(negative).len(),
                positive.v() == var && positive.pos() && negative.v() == var && !negative.pos(),
                forall|i: int, j: int| i < p ==> !#[trigger] self.fire_together(var, positive, negative, i, j),
            decreases pos_count - p,
        {
            match self.clauses.get(self.skolem.at(positive, p).clause) {
                Some(pos) => {
                    if !self.satisfied_by_constant(pos, Some(var)) {
                        let premise = LitSet::from_lits(pos);
                        let mut n: usize = 0;
                        while n < neg_count
                            invariant
                                self.wf(),
                                p < pos_count,
                                n <= neg_count,
                                pos_count == self.skolem.of(positive).len(),
                                neg_count == self.skolem.of(negative).len(),
                                positive.v() == var && positive.pos() && negative.v() == var && !negative.pos(),
                                self.clauses.lits(self.skolem.of(positive)[p as int].clause) == Some(pos@),
                                !self.satisfied(pos@, Some(var)),
                                forall|l: Lit| #[trigger] premise@.contains(l) <==> pos@.contains(l),
                                forall|j: int| j < n ==> !#[trigger] self.fire_together(var, positive, negative, p as int, j),
                            decreases neg_count - n,
                        {
                            match self.clauses.get(self.skolem.at(negative, n).clause) {
                                Some(neg) => {
                                    if !self.satisfied_by_constant(neg, Some(var)) && !clashes(neg, &premise, var) {
                                        assert(self.fire_together(var, positive, negative, p as int, n as int));
                                        return true;
                                    }
                                },
                                None => {},
                            }
                            n += 1;
                        }
                    }
                },
                None => {},
            }
            p += 1;
        }
        proof {
            assert forall|l: Lit, m: Lit, i: int, j: int| !#[trigger] self.fire_together(var, l, m, i, j) by {
                if self.fire_together(var, l, m, i, j) {
                    crate::literal::lemma_lit_ext(l, positive);
                    crate::literal::lemma_lit_ext(m, negative);
                }
            }
        }
        false
    }

    /// The first implication clauses of a literal.
    pub(crate) open spec fn implied_by(&self, lit: Lit, count: int) -> Matrix
        decreases count,
    {
        if count <= 0 {
            Seq::empty()
        } else {
            match self.clauses.lits(self.skolem.of(lit)[count - 1].clause) {
                Some(lits) => self.implied_by(lit, count - 1).push(lits),
                None => self.implied_by(lit, count - 1),
            }
        }
    }

    /// The implication clauses of a literal.
    pub(crate) open spec fn reasons(&self, lit: Lit) -> Matrix {
        self.implied_by(lit, self.skolem.of(lit).len() as int)
    }

    /// The implication clauses of a literal.
    pub(crate) fn implications(&self, lit: Lit) -> (clauses: Vec<Vec<Lit>>)
        requires
            self.wf(),
        ensures
            matrix_of(clauses@) == self.reasons(lit),
            forall|i: int| 0 <= i < clauses@.len() ==> implied(self.matrix(), (#[trigger] clauses@[i])@),
    {
        let mut clauses: Vec<Vec<Lit>> = Vec::new();
        let count = self.skolem.count(lit);
        let mut k: usize = 0;
        assert(matrix_of(clauses@) =~= self.implied_by(lit, 0));
        while k < count
            invariant
                self.wf(),
                k <= count,
                count == self.skolem.of(lit).len(),
                matrix_of(clauses@) == self.implied_by(lit, k as int),
                forall|i: int| 0 <= i < clauses@.len() ==> implied(self.matrix(), (#[trigger] clauses@[i])@),
            decreases count - k,
        {
            match self.clauses.get(self.skolem.at(lit, k).clause) {
                Some(lits) => {
                    let ghost before = matrix_of(clauses@);
                    clauses.push(copy_lits(lits));
                    assert(matrix_of(clauses@) =~= before.push(lits@));
                },
                None => {},
            }
            k += 1;
        }
        clauses
    }

    /// The exclusions of the handled cases.
    pub(crate) open spec fn exclusions(&self, count: int) -> Matrix {
        Seq::new(count as nat, |i: int| opposites(self.handled_cases@[i].spec_cube()))
    }

    /// What the first assigned literals contribute: constants as units, and
    /// the implication clauses of the existential ones.
    pub(crate) open spec fn assigned_clauses(&self, count: int) -> Matrix
        decreases count,
    {
        if count <= 0 {
            Seq::empty()
        } else {
            let lit = self.trail.lits()[count - 1];
            let before = self.assigned_clauses(count - 1);
            let unit = if constant_of(self.assignment@, lit) == Some(true) {
                before.push(seq![lit])
            } else {
                before
            };
            if self.quantified(lit.v(), QuantTy::Exists) {
                unit + self.reasons(lit) + self.reasons(lit.neg())
            } else {
                unit
            }
        }
    }

    /// The decided existential literals among the first assigned ones,
    /// besides assumptions.
    pub(crate) open spec fn decided(&self, count: int) -> Seq<Lit>
        decreases count,
    {
        if count <= 0 {
            Seq::empty()
        } else {
            let lit = self.trail.lits()[count - 1];
            let before = self.decided(count - 1);
            if self.quantified(lit.v(), QuantTy::Exists) && self.trail.decided(lit) && !self.query_assumptions@.contains(lit) {
                before.push(lit)
            } else {
                before
            }
        }
    }

    /// The group of a decided literal: it is false or one of its
    /// implications fires.
    pub(crate) open spec fn group_of(&self, group: Group, lit: Lit) -> bool {
        group.guards@ == seq![lit.neg()] && group.var == Some(lit.v()) && matrix_of(group.clauses@) == self.reasons(lit)
    }

    /// The constraints of the determined Skolem functions.
    pub(crate) open spec fn constraint_clauses(&self) -> Matrix {
        self.exclusions(self.handled_cases@.len() as int) + self.assigned_clauses(self.trail.lits().len() as int)
    }

    /// The constraints of the determined Skolem functions: constants as
    /// units, the exclusions of the handled cases, and the implication
    /// clauses of the assigned variables; and a group for every decided
    /// variable, which takes the decided value only if one of its
    /// implications fires.
    fn constraints(&self) -> (result: (Vec<Vec<Lit>>, Vec<Group>))
        requires
            self.wf(),
        ensures
            matrix_of(result.0@) == self.constraint_clauses(),
            result.1@.len() == self.decided(self.trail.lits().len() as int).len(),
            forall|i: int|
                0 <= i < result.1@.len() ==> self.group_of(#[trigger] result.1@[i], self.decided(self.trail.lits().len() as int)[i]),
    {
        let mut clauses: Vec<Vec<Lit>> = Vec::new();
        let mut groups: Vec<Group> = Vec::new();
        let mut k: usize = 0;
        assert(matrix_of(clauses@) =~= self.exclusions(0));
        while k < self.handled_cases.len()
            invariant
                k <= self.handled_cases@.len(),
                matrix_of(clauses@) == self.exclusions(k as int),
            decreases self.handled_cases.len() - k,
        {
            let exclusion = negate_all(self.handled_cases[k].cube());
            let ghost c = exclusion@;
            let ghost given = matrix_of(clauses@);
            clauses.push(exclusion);
            proof {
                assert(c =~= opposites(self.handled_cases@[k as int].spec_cube()));
                assert(matrix_of(clauses@) =~= given.push(c));
                assert(given.push(c) =~= self.exclusions(k as int + 1));
            }
            k += 1;
        }
        let ghost cases = matrix_of(clauses@);
        let mut k: usize = 0;
        assert(matrix_of(clauses@) =~= cases + self.assigned_clauses(0));
        while k < self.trail.len()
            invariant
                self.wf(),
                k <= self.trail.lits().len(),
                matrix_of(clauses@) == cases + self.assigned_clauses(k as int),
                groups@.len() == self.decided(k as int).len(),
                forall|i: int| 0 <= i < groups@.len() ==> self.group_of(#[trigger] groups@[i], self.decided(k as int)[i]),
            decreases self.trail.lits().len() - k,
        {
            let lit = self.trail.at(k);
            let ghost given = matrix_of(clauses@);
            let ghost so_far = self.assigned_clauses(k as int);
            match self.assignment.constant_value(lit) {
                Some(true) => {
                    clauses.push(unit_clause(lit));
                    assert(matrix_of(clauses@) =~= given.push(seq![lit]));
                },
                _ => {},
            }
            let ghost unit = matrix_of(clauses@);
            if self.is_existential(lit.var()) {
                let mut own = self.implications(lit);
                let mut other = self.implications(lit.negated());
                let ghost (first, second) = (matrix_of(own@), matrix_of(other@));
                clauses.append(&mut own);
                clauses.append(&mut other);
                assert(matrix_of(clauses@) =~= unit + first + second);
                if self.trail.is_decision(lit) && !contains(&self.query_assumptions, lit) {
                    let group = Group {
                        guards: unit_clause(lit.negated()),
                        var: Some(lit.var()),
                        clauses: self.implications(lit),
                    };
                    groups.push(group);
                }
            }
            k += 1;
            assert(matrix_of(clauses@) =~= cases + self.assigned_clauses(k as int));
        }
        (clauses, groups)
    }

    /// An implication of the literal fires.
    pub(crate) open spec fn fired(&self, a: crate::semantics::Assignment, lit: Lit) -> bool {
        exists|k: int| 0 <= k < self.reasons(lit).len() && fires(a, Some(lit.v()), #[trigger] self.reasons(lit)[k])
    }

    /// The decided literal is false or one of its implications fires.
    pub(crate) open spec fn backed(&self, a: crate::semantics::Assignment, lit: Lit) -> bool {
        !lit_true(a, lit) || self.fired(a, lit)
    }

    /// The assignment is consistent with the functions determined so far.
    pub(crate) open spec fn allowed(&self, a: crate::semantics::Assignment) -> bool {
        let decided = self.decided(self.trail.lits().len() as int);
        matrix_true(a, self.constraint_clauses()) && forall|i: int| 0 <= i < decided.len() ==> self.backed(a, #[trigger] decided[i])
    }

    /// Under a consistent assignment, implications of both literals of the
    /// variable fire.
    pub(crate) open spec fn conflicting(&self, a: crate::semantics::Assignment, var: Var) -> bool {
        self.allowed(a) && forall|p: Lit, n: Lit| #[trigger] sides(var, p, n) ==> self.fired(a, p) && self.fired(a, n)
    }

    /// Under a consistent assignment, an implication of the literal fires.
    pub(crate) open spec fn contradicting(&self, a: crate::semantics::Assignment, lit: Lit) -> bool {
        self.allowed(a) && self.fired(a, lit)
    }

    proof fn lemma_fired(&self, group: Group, lit: Lit, a: crate::semantics::Assignment)
        requires
            group.var == Some(lit.v()),
            matrix_of(group.clauses@) == self.reasons(lit),
        ensures
            group.guards@.len() == 0 ==> group.holds(a) == self.fired(a, lit),
            group.guards@ == seq![lit.neg()] ==> group.holds(a) == self.backed(a, lit),
    {
        let m = matrix_of(group.clauses@);
        assert forall|i: int| 0 <= i < group.clauses@.len() implies m[i] == (#[trigger] group.clauses@[i])@ by {}
        if self.fired(a, lit) {
            let k = choose|k: int| 0 <= k < self.reasons(lit).len() && fires(a, Some(lit.v()), #[trigger] self.reasons(lit)[k]);
            assert(fires(a, group.var, group.clauses@[k]@));
        }
        if exists|i: int| 0 <= i < group.clauses@.len() && fires(a, group.var, (#[trigger] group.clauses@[i])@) {
            let i = choose|i: int| 0 <= i < group.clauses@.len() && fires(a, group.var, (#[trigger] group.clauses@[i])@);
            assert(fires(a, Some(lit.v()), self.reasons(lit)[i]));
        }
        if group.guards@ == seq![lit.neg()] {
            assert(group.guards@[0] == lit.neg());
            assert(clause_true(a, group.guards@) == !lit_true(a, lit));
        }
    }

    /// The first groups are those of the decided literals.
    spec fn decided_groups(&self, groups: Seq<Group>) -> bool {
        let decided = self.decided(self.trail.lits().len() as int);
        groups.len() >= decided.len() && forall|i: int| 0 <= i < decided.len() ==> self.group_of(#[trigger] groups[i], decided[i])
    }

    proof fn lemma_allowed(&self, groups: Seq<Group>, a: crate::semantics::Assignment)
        requires
            self.decided_groups(groups),
        ensures
            self.allowed(a) == (matrix_true(a, self.constraint_clauses()) && forall|i: int|
                0 <= i < self.decided(self.trail.lits().len() as int).len() ==> (#[trigger] groups[i]).holds(a)),
    {
        let decided = self.decided(self.trail.lits().len() as int);
        assert forall|i: int| 0 <= i < decided.len() implies (#[trigger] groups[i]).holds(a) == self.backed(a, decided[i]) by {
            assert(self.group_of(groups[i], decided[i]));
            self.lemma_fired(groups[i], decided[i], a);
        }
        if forall|i: int| 0 <= i < decided.len() ==> (#[trigger] groups[i]).holds(a) {
            assert forall|i: int| 0 <= i < decided.len() implies self.backed(a, #[trigger] decided[i]) by {
                assert(groups[i].holds(a));
            }
        }
    }

    /// A question about the literals has all its variables below an index.
    pub(crate) open spec fn question_below(&self, lits: Seq<Lit>, base: int) -> bool {
        let decided = self.decided(self.trail.lits().len() as int);
        &&& clauses_below(self.constraint_clauses(), base)
        &&& lits_below(decided, base)
        &&& forall|i: int| 0 <= i < decided.len() ==> clauses_below(self.reasons(#[trigger] decided[i]), base)
        &&& forall|i: int| 0 <= i < lits.len() ==> clauses_below(self.reasons(#[trigger] lits[i]), base)
    }

    /// The number of implications of the literals.
    pub(crate) open spec fn reasons_of(&self, lits: Seq<Lit>) -> nat
        decreases lits.len(),
    {
        if lits.len() == 0 {
            0
        } else {
            self.reasons_of(lits.drop_last()) + self.reasons(lits.last()).len()
        }
    }

    /// The SAT solver has numbers for the variables of a question about the
    /// literals and for an arbiter of each implication in it.
    pub(crate) open spec fn askable(&self, lits: Seq<Lit>) -> bool {
        exists|base: int|
            0 <= base && #[trigger] self.question_below(lits, base) && base + self.reasons_of(
                self.decided(self.trail.lits().len() as int),
            ) + self.reasons_of(lits) <= crate::sat::MAX_NUMBER
    }

    /// It can be asked whether the variable is in conflict.
    pub(crate) open spec fn both_askable(&self, var: Var) -> bool {
        forall|p: Lit, n: Lit| #[trigger] sides(var, p, n) ==> self.askable(seq![p, n])
    }

    proof fn lemma_reasons_grouped(&self, groups: Seq<Group>, from: int, lits: Seq<Lit>)
        requires
            0 <= from,
            from + lits.len() <= groups.len(),
            forall|i: int| 0 <= i < lits.len() ==> matrix_of(groups[from + i].clauses@) == self.reasons(#[trigger] lits[i]),
        ensures
            grouped(groups, from + lits.len()) == grouped(groups, from) + self.reasons_of(lits),
        decreases lits.len(),
    {
        if lits.len() > 0 {
            let few = lits.drop_last();
            let last = lits.len() - 1;
            assert forall|i: int| 0 <= i < few.len() implies matrix_of(groups[from + i].clauses@) == self.reasons(#[trigger] few[i]) by {
                assert(few[i] == lits[i]);
            }
            self.lemma_reasons_grouped(groups, from, few);
            assert(matrix_of(groups[from + last].clauses@) == self.reasons(lits[last]));
            assert(from + lits.len() - 1 == from + last);
        }
    }

    proof fn lemma_askable(&self, groups: Seq<Group>, lits: Seq<Lit>)
        requires
            self.decided_groups(groups),
            groups.len() == self.decided(self.trail.lits().len() as int).len() + lits.len(),
            forall|i: int|
                0 <= i < lits.len() ==> ({
                    let group = groups[self.decided(self.trail.lits().len() as int).len() + i];
                    group.guards@.len() == 0 && matrix_of(group.clauses@) == self.reasons(#[trigger] lits[i])
                }),
            self.askable(lits),
        ensures
            numbered(self.constraint_clauses(), groups),
    {
        let decided = self.decided(self.trail.lits().len() as int);
        let n = decided.len() as int;
        let base = choose|base: int|
            0 <= base && #[trigger] self.question_below(lits, base) && base + self.reasons_of(decided) + self.reasons_of(lits)
                <= crate::sat::MAX_NUMBER;
        assert forall|i: int| 0 <= i < decided.len() implies matrix_of(groups[0 + i].clauses@) == self.reasons(#[trigger] decided[i]) by {
            assert(self.group_of(groups[i], decided[i]));
        }
        self.lemma_reasons_grouped(groups, 0, decided);
        self.lemma_reasons_grouped(groups, n, lits);
        assert forall|g: int| 0 <= g < groups.len() implies crate::incdet::conflict::check::group_below(#[trigger] groups[g], base) by {
            if g < n {
                assert(self.group_of(groups[g], decided[g]));
                assert(clauses_below(self.reasons(decided[g]), base));
                assert(decided[g].v().id() < base);
            } else {
                let i = g - n;
                assert(matrix_of(groups[n + i].clauses@) == self.reasons(lits[i]));
            }
        }
        assert(query_below(self.constraint_clauses(), groups, base));
    }

    /// Checks whether both polarities of a variable can fire under an
    /// assignment consistent with the functions determined so far; the
    /// literals of such an assignment on other variables.
    pub(crate) fn is_conflicted(&mut self, var: Var) -> (assignment: Option<Vec<Lit>>)
        requires
            old(self).wf(),
        ensures
            final(self).keeps(old(self)),
            final(self).checked(old(self)),
            match assignment {
                Some(rest) => {
                    &&& forall|i: int| 0 <= i < rest@.len() ==> (#[trigger] rest@[i]).v() != var
                    &&& exists|a: crate::semantics::Assignment| #[trigger] old(self).conflicting(a, var) && cube_true(a, rest@)
                },
                None => {
                    ||| final(self).fuel == 0 && !old(self).both_askable(var)
                    ||| forall|a: crate::semantics::Assignment| !#[trigger] old(self).conflicting(a, var)
                    ||| forall|l: Lit, m: Lit, p: int, n: int| !#[trigger] old(self).fire_together(var, l, m, p, n)
                },
            },
            final(self).fuel == old(self).fuel || assignment is None && !old(self).both_askable(var),
    {
        if !self.may_be_conflicted(var) {
            return None;
        }
        let (clauses, mut groups) = self.constraints();
        let ghost few = groups@;
        let positive = var.positive();
        let negative = var.negative();
        groups.push(Group { guards: Vec::new(), var: Some(var), clauses: self.implications(positive) });
        groups.push(Group { guards: Vec::new(), var: Some(var), clauses: self.implications(negative) });
        proof {
            let n = few.len() as int;
            assert forall|i: int| 0 <= i < n implies #[trigger] groups@[i] == few[i] by {}
            assert(self.decided_groups(groups@));
            assert forall|a: crate::semantics::Assignment| #[trigger] query_true(a, matrix_of(clauses@), groups@) == self.conflicting(a, var) by {
                self.lemma_allowed(groups@, a);
                self.lemma_fired(groups@[n], positive, a);
                self.lemma_fired(groups@[n + 1], negative, a);
                assert forall|p: Lit, q: Lit| #[trigger] sides(var, p, q) implies p == positive && q == negative by {
                    crate::literal::lemma_lit_ext(p, positive);
                    crate::literal::lemma_lit_ext(q, negative);
                }
                assert(sides(var, positive, negative));
                if self.conflicting(a, var) {
                    assert forall|g: int| 0 <= g < groups@.len() implies (#[trigger] groups@[g]).holds(a) by {
                        if g < n {
                        } else if g == n {
                        } else {
                            assert(g == n + 1);
                        }
                    }
                }
            }
            if self.askable(seq![positive, negative]) {
                let lits = seq![positive, negative];
                assert(lits[0] == positive && lits[1] == negative);
                self.lemma_askable(groups@, lits);
            }
        }
        let ghost asking = *self;
        self.stats.conflict_checks = self.stats.conflict_checks.saturating_add(1);
        let found = self.conflict_query(&clauses, &groups, var);
        proof {
            match &found {
                Some(rest) => {
                    let a = choose|a: crate::semantics::Assignment| #[trigger] query_true(a, matrix_of(clauses@), groups@) && cube_true(a, rest@);
                    assert(old(self).conflicting(a, var));
                },
                None => {
                    if forall|a: crate::semantics::Assignment| !#[trigger] query_true(a, matrix_of(clauses@), groups@) {
                        assert forall|a: crate::semantics::Assignment| !#[trigger] old(self).conflicting(a, var) by {
                            assert(!query_true(a, matrix_of(clauses@), groups@));
                        }
                    }
                    if !numbered(matrix_of(clauses@), groups@) {
                        assert(sides(var, positive, negative));
                        assert(!asking.askable(seq![positive, negative]));
                    }
                },
            }
        }
        found
    }

    /// At most counters and steps changed; the steps are spent where the
    /// question is beyond the numbering of the SAT solver.
    pub(crate) open spec fn checked(&self, before: &State) -> bool {
        &&& *self == (State { stats: self.stats, fuel: self.fuel, ..*before })
        &&& self.fuel == before.fuel || self.fuel == 0
    }

    /// Checks whether a constant assumption is violated: an implication
    /// clause of the opposite literal fires under some assignment.
    pub(crate) fn is_assumption_conflicted(&mut self, lit: Lit) -> (assignment: Option<Vec<Lit>>)
        requires
            old(self).wf(),
        ensures
            final(self).keeps(old(self)),
            final(self).checked(old(self)),
            match assignment {
                Some(rest) => {
                    &&& forall|i: int| 0 <= i < rest@.len() ==> (#[trigger] rest@[i]).v() != lit.v()
                    &&& exists|a: crate::semantics::Assignment| #[trigger] old(self).contradicting(a, lit.neg()) && cube_true(a, rest@)
                },
                None => {
                    ||| final(self).fuel == 0 && !old(self).askable(seq![lit.neg()])
                    ||| forall|a: crate::semantics::Assignment| !#[trigger] old(self).contradicting(a, lit.neg())
                },
            },
            final(self).fuel == old(self).fuel || assignment is None && !old(self).askable(seq![lit.neg()]),
    {
        let opposite = lit.negated();
        if self.skolem.count(opposite) == 0 {
            proof {
                assert(self.reasons(opposite).len() == 0);
                assert forall|a: crate::semantics::Assignment| !#[trigger] self.contradicting(a, opposite) by {}
            }
            return None;
        }
        let (clauses, mut groups) = self.constraints();
        let ghost few = groups@;
        groups.push(Group { guards: Vec::new(), var: Some(lit.var()), clauses: self.implications(opposite) });
        proof {
            let n = few.len() as int;
            assert forall|i: int| 0 <= i < n implies #[trigger] groups@[i] == few[i] by {}
            assert(self.decided_groups(groups@));
            assert forall|a: crate::semantics::Assignment| #[trigger] query_true(a, matrix_of(clauses@), groups@) == self.contradicting(
                a,
                opposite,
            ) by {
                self.lemma_allowed(groups@, a);
                self.lemma_fired(groups@[n], opposite, a);
                if self.contradicting(a, opposite) {
                    assert forall|g: int| 0 <= g < groups@.len() implies (#[trigger] groups@[g]).holds(a) by {
                        if g < n {
                        } else {
                            assert(g == n);
                        }
                    }
                }
            }
            if self.askable(seq![opposite]) {
                let lits = seq![opposite];
                assert(lits[0] == opposite);
                self.lemma_askable(groups@, lits);
            }
        }
        self.stats.conflict_checks = self.stats.conflict_checks.saturating_add(1);
        let found = self.conflict_query(&clauses, &groups, lit.var());
        proof {
            match &found {
                Some(rest) => {
                    let a = choose|a: crate::semantics::Assignment| #[trigger] query_true(a, matrix_of(clauses@), groups@) && cube_true(a, rest@);
                    assert(old(self).contradicting(a, opposite));
                },
                None => {
                    if forall|a: crate::semantics::Assignment| !#[trigger] query_true(a, matrix_of(clauses@), groups@) {
                        assert forall|a: crate::semantics::Assignment| !#[trigger] old(self).contradicting(a, opposite) by {
                            assert(!query_true(a, matrix_of(clauses@), groups@));
                        }
                    }
                },
            }
        }
        found
    }

    fn conflict_query(&mut self, clauses: &Vec<Vec<Lit>>, groups: &Vec<Group>, var: Var) -> (assignment: Option<Vec<Lit>>)
        requires
            old(self).wf(),
        ensures
            final(self).keeps(old(self)),
            final(self).checked(old(self)),
            match assignment {
                Some(rest) => {
                    &&& forall|i: int| 0 <= i < rest@.len() ==> (#[trigger] rest@[i]).v() != var
                    &&& exists|a: crate::semantics::Assignment| #[trigger] query_true(a, matrix_of(clauses@), groups@) && cube_true(a, rest@)
                },
                None => {
                    ||| forall|a: crate::semantics::Assignment| !#[trigger] query_true(a, matrix_of(clauses@), groups@)
                    ||| final(self).fuel == 0 && !numbered(matrix_of(clauses@), groups@)
                },
            },
            final(self).fuel == old(self).fuel || assignment is None && !numbered(matrix_of(clauses@), groups@),
    {
        match query(clauses, groups) {
            Answer::Possible(model) => {
                self.stats.conflicts = self.stats.conflicts.saturating_add(1);
                // the model contains no meaningful value for the variable
                let rest = without_var(&model, var);
                proof {
                    let a = model_assignment(model@);
                    lemma_model_assignment(model@);
                    assert(query_true(a, matrix_of(clauses@), groups@));
                    assert forall|i: int| 0 <= i < rest@.len() implies lit_true(a, #[trigger] rest@[i]) by {
                        assert(model@.contains(rest@[i]));
                    }
                }
                Some(rest)
            },
            Answer::Impossible => None,
            Answer::OutOfRange => {
                self.fuel = 0;
                None
            },
        }
    }

    /// Literals were assigned at the current level, and implications found;
    /// what was assigned is as it was.
    pub(crate) open spec fn progressed(&self, before: &State) -> bool {
        &&& *self == (State {
            pure_queue: self.pure_queue,
            pure_queued: self.pure_queued,
            propagation: self.propagation,
            constants: self.constants,
            skolem: self.skolem,
            clauses: self.clauses,
            watches: self.watches,
            trail: self.trail,
            assignment: self.assignment,
            levels: self.levels,
            vsids: self.vsids,
            stats: self.stats,
            fuel: self.fuel,
            ..*before
        })
        &&& self.fuel <= before.fuel
        &&& before.trail.lits().is_prefix_of(self.trail.lits())
        &&& self.trail.starts() == before.trail.starts()
        &&& forall|x: Var| #[trigger]
            before.assignment@.contains_key(x) ==> self.assignment@.contains_key(x) && self.assignment@[x] == before.assignment@[x]
        &&& forall|i: int|
            before.trail.lits().len() <= i < self.trail.lits().len() ==> self.assignment@.contains_key((#[trigger] self.trail.lits()[i]).v())
        &&& self.clauses.held() == before.clauses.held()
        &&& self.clauses.names() == before.clauses.names()
        &&& forall|l: Lit| before.skolem.of(l).is_prefix_of(#[trigger] self.skolem.of(l))
    }

    pub(crate) proof fn lemma_progressed(&self, middle: &State, before: &State)
        requires
            self.progressed(middle),
            middle.progressed(before),
        ensures
            self.progressed(before),
    {
        assert forall|l: Lit| before.skolem.of(l).is_prefix_of(#[trigger] self.skolem.of(l)) by {
            assert(middle.skolem.of(l).is_prefix_of(self.skolem.of(l)));
            assert(before.skolem.of(l).is_prefix_of(middle.skolem.of(l)));
        }
        assert(before.trail.lits().is_prefix_of(self.trail.lits()));
        assert forall|x: Var| #[trigger] before.assignment@.contains_key(x) implies self.assignment@.contains_key(x) && self.assignment@[x]
            == before.assignment@[x] by {
            assert(middle.assignment@.contains_key(x) && before.assignment@[x] == middle.assignment@[x]);
        }
        assert forall|i: int| before.trail.lits().len() <= i < self.trail.lits().len() implies self.assignment@.contains_key(
            (#[trigger] self.trail.lits()[i]).v(),
        ) by {
            if i < middle.trail.lits().len() {
                assert(self.trail.lits()[i] == middle.trail.lits()[i]);
                assert(middle.assignment@.contains_key(middle.trail.lits()[i].v()));
            }
        }
    }

    /// An assignment at the current level is progress.
    pub(crate) proof fn lemma_assigned_progress(&self, before: &State, lit: Lit, is_constant: bool)
        requires
            self.assigned(before, lit, false, is_constant),
            !before.assignment@.contains_key(lit.v()),
        ensures
            self.progressed(before),
    {
        let lvl = DecLvl(self.trail.starts().len() as usize);
        assert forall|l: Lit| before.skolem.of(l).is_prefix_of(#[trigger] self.skolem.of(l)) by {
            assert(self.grown_at(before, lvl, l));
        }
    }

    /// A conflict of a propagation: an open variable of which both literals
    /// fire under a consistent assignment, or one that is constant while a
    /// clause forces its opposite.
    pub(crate) open spec fn in_conflict(&self, conflict: Conflict) -> bool {
        if self.assignment@.contains_key(conflict.var) {
            &&& conflict.assignment@.len() == 0
            &&& self.assignment@[conflict.var] == Value::True || self.assignment@[conflict.var] == Value::False
        } else {
            &&& forall|i: int| 0 <= i < conflict.assignment@.len() ==> (#[trigger] conflict.assignment@[i]).v() != conflict.var
            &&& exists|a: crate::semantics::Assignment| #[trigger]
                self.conflicting(a, conflict.var) && cube_true(a, conflict.assignment@)
        }
    }

    /// At most counters, steps and the queue of the pure-literal rule
    /// changed.
    pub(crate) open spec fn alike(&self, before: &State) -> bool {
        *self == (State {
            stats: self.stats,
            fuel: self.fuel,
            pure_queue: self.pure_queue,
            pure_queued: self.pure_queued,
            root_pure_lits: self.root_pure_lits,
            ..*before
        })
    }

    proof fn lemma_same_count(&self, before: &State, lits: Seq<Lit>)
        requires
            self.alike(before),
        ensures
            self.reasons_of(lits) == before.reasons_of(lits),
        decreases lits.len(),
    {
        if lits.len() > 0 {
            self.lemma_same_count(before, lits.drop_last());
            self.lemma_same_reasons(before, lits.last(), self.skolem.of(lits.last()).len() as int);
        }
    }

    /// The same questions can be asked.
    pub(crate) proof fn lemma_same_askable(&self, before: &State, var: Var)
        requires
            self.alike(before),
            before.both_askable(var),
        ensures
            self.both_askable(var),
    {
        let n = self.trail.lits().len() as int;
        self.lemma_same_constraints(before, n);
        assert(self.constraint_clauses() =~= before.constraint_clauses()) by {
            self.lemma_same_exclusions(before, self.handled_cases@.len() as int);
        }
        assert forall|l: Lit| self.reasons(l) == before.reasons(l) by {
            self.lemma_same_reasons(before, l, self.skolem.of(l).len() as int);
        }
        let decided = self.decided(n);
        self.lemma_same_count(before, decided);
        assert forall|p: Lit, q: Lit| #[trigger] sides(var, p, q) implies self.askable(seq![p, q]) by {
            let lits = seq![p, q];
            assert(before.askable(lits));
            let base = choose|base: int|
                0 <= base && #[trigger] before.question_below(lits, base) && base + before.reasons_of(decided) + before.reasons_of(lits)
                    <= crate::sat::MAX_NUMBER;
            self.lemma_same_count(before, lits);
            assert forall|i: int| 0 <= i < decided.len() implies clauses_below(self.reasons(#[trigger] decided[i]), base) by {
                assert(self.reasons(decided[i]) == before.reasons(decided[i]));
            }
            assert forall|i: int| 0 <= i < lits.len() implies clauses_below(self.reasons(#[trigger] lits[i]), base) by {
                assert(self.reasons(lits[i]) == before.reasons(lits[i]));
            }
            assert(self.question_below(lits, base));
        }
    }

    proof fn lemma_same_exclusions(&self, before: &State, count: int)
        requires
            self.alike(before),
        ensures
            self.exclusions(count) == before.exclusions(count),
        decreases count,
    {
        if count > 0 {
            self.lemma_same_exclusions(before, count - 1);
        }
    }

    /// Counters and steps do not matter for a conflict.
    pub(crate) proof fn lemma_same_conflict(&self, before: &State, a: crate::semantics::Assignment, var: Var)
        requires
            self.alike(before),
        ensures
            self.conflicting(a, var) == before.conflicting(a, var),
    {
        let n = self.trail.lits().len() as int;
        self.lemma_same_constraints(before, n);
        assert(self.constraint_clauses() =~= before.constraint_clauses());
        assert forall|l: Lit| self.reasons(l) == before.reasons(l) by {
            self.lemma_same_reasons(before, l, self.skolem.of(l).len() as int);
        }
        assert forall|l: Lit| #[trigger] self.fired(a, l) == before.fired(a, l) by {
            assert(self.reasons(l) == before.reasons(l));
        }
        let decided = self.decided(n);
        assert forall|i: int| 0 <= i < decided.len() implies self.backed(a, #[trigger] decided[i]) == before.backed(a, decided[i]) by {
            assert(self.fired(a, decided[i]) == before.fired(a, decided[i]));
        }
        assert(self.allowed(a) == before.allowed(a));
        assert forall|p: Lit, q: Lit| #[trigger] sides(var, p, q) implies (self.fired(a, p) && self.fired(a, q)) == (before.fired(a, p)
            && before.fired(a, q)) by {}
    }

    proof fn lemma_same_reasons(&self, before: &State, lit: Lit, count: int)
        requires
            self.alike(before),
        ensures
            self.implied_by(lit, count) == before.implied_by(lit, count),
        decreases count,
    {
        if count > 0 {
            self.lemma_same_reasons(before, lit, count - 1);
        }
    }

    proof fn lemma_same_constraints(&self, before: &State, count: int)
        requires
            self.alike(before),
        ensures
            self.assigned_clauses(count) == before.assigned_clauses(count),
            self.decided(count) == before.decided(count),
        decreases count,
    {
        if count > 0 {
            self.lemma_same_constraints(before, count - 1);
            let lit = self.trail.lits()[count - 1];
            self.lemma_same_reasons(before, lit, self.skolem.of(lit).len() as int);
            self.lemma_same_reasons(before, lit.neg(), self.skolem.of(lit.neg()).len() as int);
        }
    }

    /// No conflict of the variable was found: no consistent assignment fires
    /// both ways, no two implications go together, or it cannot be asked.
    pub(crate) open spec fn unconflicted(&self, var: Var) -> bool {
        ||| !self.both_askable(var)
        ||| forall|a: crate::semantics::Assignment| !#[trigger] self.conflicting(a, var)
        ||| forall|l: Lit, m: Lit, p: int, n: int| !#[trigger] self.fire_together(var, l, m, p, n)
    }

    proof fn lemma_same_unconflicted(&self, before: &State, var: Var)
        requires
            self.alike(before),
            self.unconflicted(var),
        ensures
            before.unconflicted(var),
    {
        assert(before.alike(self));
        if before.both_askable(var) {
            self.lemma_same_askable(before, var);
            if forall|a: crate::semantics::Assignment| !#[trigger] self.conflicting(a, var) {
                assert forall|a: crate::semantics::Assignment| !#[trigger] before.conflicting(a, var) by {
                    self.lemma_same_conflict(before, a, var);
                }
            } else {
                assert forall|l: Lit, m: Lit, p: int, n: int| !#[trigger] before.fire_together(var, l, m, p, n) by {
                    assert(!self.fire_together(var, l, m, p, n));
                    assert(self.skolem == before.skolem && self.clauses == before.clauses && self.assignment == before.assignment);
                    match (self.clauses.lits(self.skolem.of(l)[p].clause), self.clauses.lits(self.skolem.of(m)[n].clause)) {
                        (Some(pos), Some(neg)) => {
                            self.lemma_same_satisfied(before, pos, Some(var));
                            self.lemma_same_satisfied(before, neg, Some(var));
                        },
                        _ => {},
                    }
                }
            }
        }
    }

    proof fn lemma_same_satisfied(&self, before: &State, lits: Seq<Lit>, besides: Option<Var>)
        requires
            self.assignment == before.assignment,
        ensures
            self.satisfied(lits, besides) == before.satisfied(lits, besides),
    {
        assert forall|i: int| 0 <= i < lits.len() implies self.constantly_true(#[trigger] lits[i], besides) == before.constantly_true(
            lits[i],
            besides,
        ) by {}
    }

    /// The literal was taken from the front of the constants to propagate.
    pub(crate) open spec fn took_constant(&self, before: &State, lit: Lit) -> bool {
        &&& before.constants@.len() > 0
        &&& before.constants@[0] == lit
        &&& *self == (State { constants: self.constants, ..*before })
        &&& self.constants@ == before.constants@.skip(1)
    }

    /// The implications make the literal constant, or determine its
    /// variable and are not more than those of the other one.
    pub(crate) open spec fn determined_lit(&self, lit: Lit) -> bool {
        forall|p: Lit, n: Lit| #[trigger]
            sides(lit.v(), p, n) ==> self.determines(p, n, Determinacy::Constant(lit)) || (self.determines(p, n, Determinacy::Deterministic)
                && lit == (if self.skolem.of(p).len() <= self.skolem.of(n).len() { p } else { n }))
    }

    /// The literal was assigned in a state of the propagation, as a constant
    /// that was queued or because it was determined there, and without a
    /// conflict of its variable.
    pub(crate) open spec fn assigned_in(&self, middle: &State, before: &State, i: int) -> bool {
        let lit = self.trail.lits()[i];
        &&& middle.progressed(before)
        &&& self.progressed(middle)
        &&& middle.trail.lits().len() == i
        &&& middle.unconflicted(lit.v())
        &&& middle.determined_lit(lit) || exists|earlier: State| #[trigger] middle.took_constant(&earlier, lit)
    }

    /// Every literal that the propagation assigned was to be assigned.
    pub(crate) open spec fn grounded(&self, before: &State) -> bool {
        forall|i: int|
            before.trail.lits().len() <= i < self.trail.lits().len() ==> self.grounded_at(before, i)
    }

    pub(crate) open spec fn grounded_at(&self, before: &State, i: int) -> bool {
        exists|middle: State| #[trigger] self.assigned_in(&middle, before, i)
    }

    proof fn lemma_grounded(&self, middle: &State, before: &State)
        requires
            middle.progressed(before),
            middle.grounded(before),
            self.progressed(middle),
            self.trail.lits().len() <= middle.trail.lits().len() + 1,
            self.trail.lits().len() > middle.trail.lits().len() ==> {
                let lit = self.trail.lits()[middle.trail.lits().len() as int];
                &&& middle.unconflicted(lit.v())
                &&& middle.determined_lit(lit) || exists|earlier: State| #[trigger] middle.took_constant(&earlier, lit)
            },
        ensures
            self.grounded(before),
    {
        assert forall|i: int| before.trail.lits().len() <= i < self.trail.lits().len() implies #[trigger] self.grounded_at(before, i) by {
            if i < middle.trail.lits().len() {
                assert(middle.grounded_at(before, i));
                let s = choose|s: State| #[trigger] middle.assigned_in(&s, before, i);
                self.lemma_progressed(middle, &s);
                assert(self.trail.lits()[i] == middle.trail.lits()[i]);
                assert(self.assigned_in(&s, before, i));
            } else {
                assert(self.assigned_in(middle, before, i));
            }
        }
    }

    /// After a state of the propagation and before or at this one, it could
    /// not be asked whether the variable is in conflict.
    pub(crate) open spec fn outran(&self, middle: &State, before: &State, var: Var) -> bool {
        middle.progressed(before) && self.progressed(middle) && !middle.both_askable(var)
    }

    /// A question of the propagation was beyond the numbering of the SAT
    /// solver.
    pub(crate) open spec fn beyond(&self, before: &State) -> bool {
        exists|middle: State, var: Var| #[trigger] self.outran(&middle, before, var)
    }

    proof fn lemma_beyond(&self, middle: &State, before: &State, var: Var)
        requires
            middle.progressed(before),
            self.progressed(middle),
            middle.fuel == before.fuel || middle.beyond(before),
            self.fuel == middle.fuel || !middle.both_askable(var),
        ensures
            self.fuel == before.fuel || self.beyond(before),
    {
        if self.fuel != before.fuel {
            if !middle.both_askable(var) {
                assert(self.outran(middle, before, var));
            } else {
                let (s, x) = choose|s: State, x: Var| #[trigger] middle.outran(&s, before, x);
                self.lemma_progressed(middle, &s);
                assert(self.outran(&s, before, x));
            }
        }
    }

    /// Propagates until nothing is queued or a conflict is found. It stops
    /// earlier only where no steps are left, or where a conflict cannot be
    /// asked about, which takes what is left of them.
    pub(crate) fn propagate(&mut self) -> (conflict: Option<Conflict>)
        requires
            old(self).wf(),
        ensures
            final(self).keeps(old(self)),
            final(self).progressed(old(self)),
            match conflict {
                Some(conflict) => final(self).in_conflict(conflict),
                None => {
                    ||| final(self).fuel == 0 && (old(self).fuel == 0 || final(self).beyond(old(self)))
                    ||| final(self).constants@.len() == 0 && final(self).propagation.vars() == Set::<Var>::empty()
                },
            },
            final(self).fuel == old(self).fuel || final(self).beyond(old(self)),
            final(self).grounded(old(self)),
    {
        while self.fuel > 0
            invariant
                self.grounded(old(self)),
                self.keeps(old(self)),
                self.progressed(old(self)),
                self.fuel == old(self).fuel || self.beyond(old(self)),
            decreases counted(self.assignment@.dom().complement()), self.constants@.len(), counted(self.propagation.vars()),
        {
            let ghost start = *self;
            // constants are the cheapest propagation, handle them first
            match self.constants.pop_front() {
                Some(lit) => {
                    let ghost middle = *self;
                    proof {
                        middle.lemma_beyond(&start, old(self), lit.v());
                        middle.lemma_grounded(&start, old(self));
                        assert(middle.took_constant(&start, lit));
                    }
                    let found = self.propagate_constant(lit);
                    proof {
                        self.lemma_progressed(&middle, old(self));
                        self.lemma_beyond(&middle, old(self), lit.v());
                        self.lemma_grounded(&middle, old(self));
                        if found is None && !start.assignment@.contains_key(lit.v()) {
                            lemma_fewer(start.assignment@.dom().complement(), self.assignment@.dom().complement(), lit.v());
                        }
                    }
                    match found {
                        Some(conflict) => {
                            return Some(conflict);
                        },
                        None => {},
                    }
                },
                None => {
                    let var = match self.propagation.pop() {
                        Some(var) => var,
                        None => {
                            proof {
                                self.lemma_beyond(&start, old(self), var_of(1));
                                self.lemma_grounded(&start, old(self));
                            }
                            return None;
                        },
                    };
                    proof {
                        lemma_fewer(start.propagation.vars(), self.propagation.vars(), var);
                        self.lemma_beyond(&start, old(self), var);
                        self.lemma_grounded(&start, old(self));
                    }
                    let ghost popped = *self;
                    if !self.assignment.is_assigned(var) {
                        match self.has_unique_consequence(var) {
                            Determinacy::Undetermined => {
                                proof {
                                    self.lemma_beyond(&popped, old(self), var);
                                    self.lemma_grounded(&popped, old(self));
                                }
                            },
                            Determinacy::Constant(lit) => {
                                let ghost middle = *self;
                                proof {
                                    middle.lemma_beyond(&popped, old(self), var);
                                }
                                let found = self.propagate_constant(lit);
                                proof {
                                    self.lemma_progressed(&middle, old(self));
                                    self.lemma_beyond(&middle, old(self), lit.v());
                                    self.lemma_progressed(&middle, &popped);
                                    if found is None {
                                        middle.lemma_same_unconflicted(&popped, lit.v());
                                        assert(popped.determined_lit(lit));
                                    }
                                    self.lemma_grounded(&popped, old(self));
                                    if found is None && !start.assignment@.contains_key(lit.v()) {
                                        lemma_fewer(start.assignment@.dom().complement(), self.assignment@.dom().complement(), lit.v());
                                    }
                                }
                                match found {
                                    Some(conflict) => {
                                        return Some(conflict);
                                    },
                                    None => {},
                                }
                            },
                            Determinacy::Deterministic => {
                                let ghost middle = *self;
                                proof {
                                    middle.lemma_beyond(&popped, old(self), var);
                                }
                                match self.is_conflicted(var) {
                                    Some(assignment) => {
                                        let conflict = Conflict { var, assignment };
                                        proof {
                                            self.lemma_beyond(&middle, old(self), var);
                                            self.lemma_progressed(&middle, &popped);
                                            self.lemma_grounded(&popped, old(self));
                                            let a = choose|a: crate::semantics::Assignment| #[trigger]
                                                middle.conflicting(a, var) && cube_true(a, conflict.assignment@);
                                            self.lemma_same_conflict(&middle, a, var);
                                            assert(self.in_conflict(conflict));
                                        }
                                        return Some(conflict);
                                    },
                                    None => {},
                                }
                                proof {
                                    self.lemma_beyond(&middle, old(self), var);
                                    assert(middle.unconflicted(var));
                                    middle.lemma_same_unconflicted(&popped, var);
                                }
                                let lit = if self.skolem.count(var.positive()) <= self.skolem.count(var.negative()) {
                                    var.positive()
                                } else {
                                    var.negative()
                                };
                                let ghost middle = *self;
                                self.assign_and_propagate(lit, false, false);
                                proof {
                                    self.lemma_assigned_progress(&middle, lit, false);
                                    self.lemma_progressed(&middle, old(self));
                                    self.lemma_beyond(&middle, old(self), var);
                                    assert(middle.progressed(&popped));
                                    self.lemma_progressed(&middle, &popped);
                                    assert forall|p: Lit, n: Lit| #[trigger] sides(var, p, n) implies popped.determines(
                                        p,
                                        n,
                                        Determinacy::Deterministic,
                                    ) && lit == (if popped.skolem.of(p).len() <= popped.skolem.of(n).len() { p } else { n }) by {
                                        if middle.skolem.of(p).len() <= middle.skolem.of(n).len() {
                                            crate::literal::lemma_lit_ext(lit, p);
                                        } else {
                                            crate::literal::lemma_lit_ext(lit, n);
                                        }
                                    }
                                    assert(popped.determined_lit(lit));
                                    self.lemma_grounded(&popped, old(self));
                                    lemma_fewer(start.assignment@.dom().complement(), self.assignment@.dom().complement(), var);
                                }
                            },
                        }
                    }
                },
            }
        }
        None
    }

    /// Handles a literal that is forced to be constantly true.
    pub(crate) fn propagate_constant(&mut self, lit: Lit) -> (conflict: Option<Conflict>)
        requires
            old(self).wf(),
        ensures
            final(self).keeps(old(self)),
            final(self).progressed(old(self)),
            conflict matches Some(conflict) ==> conflict.var == lit.v() && final(self).in_conflict(conflict) && final(self).trail
                == old(self).trail,
            if old(self).assignment@.contains_key(lit.v()) {
                &&& *final(self) == *old(self)
                &&& conflict is Some <==> constant_of(old(self).assignment@, lit) == Some(false)
            } else {
                conflict is None ==> constant_of(final(self).assignment@, lit) == Some(true) && final(self).trail.lits()
                    == old(self).trail.lits().push(lit)
            },
            final(self).fuel == old(self).fuel || !old(self).both_askable(lit.v()),
            conflict is None && !old(self).assignment@.contains_key(lit.v()) ==> old(self).unconflicted(lit.v()),
    {
        let var = lit.var();
        if self.assignment.is_assigned(var) {
            return match self.assignment.constant_value(lit) {
                // two contradicting constants: the conflict does not depend
                // on any universal assignment
                Some(false) => Some(Conflict { var, assignment: Vec::new() }),
                _ => None,
            };
        }
        match self.is_conflicted(var) {
            Some(assignment) => {
                let conflict = Conflict { var, assignment };
                proof {
                    let a = choose|a: crate::semantics::Assignment| #[trigger]
                        old(self).conflicting(a, var) && cube_true(a, conflict.assignment@);
                    self.lemma_same_conflict(old(self), a, var);
                    assert(self.in_conflict(conflict));
                }
                return Some(conflict);
            },
            None => {},
        }
        let ghost middle = *self;
        self.assign_and_propagate(lit, false, true);
        let ghost after = *self;
        self.queue_satisfied(lit);
        proof {
            after.lemma_assigned_progress(&middle, lit, true);
            self.lemma_progressed(&after, &middle);
            self.lemma_progressed(&middle, old(self));
        }
        None
    }

    /// Queues the variables of the clauses that a constant satisfies: they
    /// no longer block purity.
    pub(crate) fn queue_satisfied(&mut self, lit: Lit)
        requires
            old(self).wf(),
        ensures
            final(self).keeps(old(self)),
            final(self).requeued(old(self)),
            final(self).propagation == old(self).propagation,
            forall|x: Var| #[trigger]
                final(self).pure_queued@.contains(x) <==> old(self).pure_queued@.contains(x) || old(self).freed(
                    lit,
                    x,
                    old(self).occurrences.row(lit.id()).len() as int,
                ),
    {
        let cids = self.occurrences.copy(lit.as_index());
        let mut k: usize = 0;
        while k < cids.len()
            invariant
                k <= cids@.len(),
                cids@ == old(self).occurrences.row(lit.id()),
                self.keeps(old(self)),
                self.requeued(old(self)),
                self.propagation == old(self).propagation,
                forall|x: Var| #[trigger]
                    self.pure_queued@.contains(x) <==> old(self).pure_queued@.contains(x) || old(self).freed(lit, x, k as int),
            decreases cids.len() - k,
        {
            let ghost so_far = self.pure_queued@;
            let lits = match self.clauses.get(cids[k]) {
                Some(lits) => copy_lits(lits),
                None => Vec::new(),
            };
            let mut j: usize = 0;
            assert(lits@.take(0) =~= Seq::<Lit>::empty());
            while j < lits.len()
                invariant
                    j <= lits@.len(),
                    self.keeps(old(self)),
                    self.requeued(old(self)),
                    self.propagation == old(self).propagation,
                    forall|x: Var| #[trigger]
                        self.pure_queued@.contains(x) <==> so_far.contains(x) || old(self).open_in(lits@.take(j as int), x),
                decreases lits.len() - j,
            {
                let ghost queued = self.pure_queued@;
                let ghost part = lits@.take(j as int);
                if self.is_open_existential(lits[j]) {
                    self.queue_pure_check(lits[j].var());
                }
                proof {
                    let l = lits@[j as int];
                    let more = lits@.take(j as int + 1);
                    assert(more =~= part.push(l));
                    assert forall|x: Var| #[trigger] self.pure_queued@.contains(x) <==> so_far.contains(x) || old(self).open_in(more, x) by {
                        assert(queued.contains(x) <==> so_far.contains(x) || old(self).open_in(part, x));
                        if old(self).open_in(part, x) {
                            let i = choose|i: int| 0 <= i < part.len() && (#[trigger] part[i]).v() == x && old(self).open(part[i]);
                            assert(more[i] == part[i]);
                        }
                        if old(self).open_in(more, x) {
                            let i = choose|i: int| 0 <= i < more.len() && (#[trigger] more[i]).v() == x && old(self).open(more[i]);
                            if i < part.len() {
                                assert(part[i] == more[i]);
                            }
                        }
                        assert(more[j as int] == l);
                    }
                }
                j += 1;
            }
            proof {
                assert(lits@.take(lits@.len() as int) =~= lits@);
                assert forall|x: Var| !#[trigger] old(self).open_in(Seq::<Lit>::empty(), x) by {}
            }
            k += 1;
        }
    }

    /// The clause has an open existential literal of the variable.
    pub(crate) open spec fn open_in(&self, lits: Seq<Lit>, x: Var) -> bool {
        exists|i: int| 0 <= i < lits.len() && (#[trigger] lits[i]).v() == x && self.open(lits[i])
    }

    /// One of the first clauses of a literal has an open existential
    /// literal of the variable.
    pub(crate) open spec fn freed(&self, lit: Lit, x: Var, count: int) -> bool
        decreases count,
    {
        if count <= 0 {
            false
        } else {
            self.freed(lit, x, count - 1) || match self.clauses.lits(self.occurrences.row(lit.id())[count - 1]) {
                Some(lits) => self.open_in(lits, x),
                None => false,
            }
        }
    }

    /// The literal was assigned: as a decision at a level of its own or
    /// at the current level, as a constant or by its implications.
    /// Implications were found at that level.
    pub(crate) open spec fn assigned(&self, before: &State, lit: Lit, is_decision: bool, is_constant: bool) -> bool {
        &&& *self == (State {
            pure_queue: self.pure_queue,
            pure_queued: self.pure_queued,
            propagation: self.propagation,
            constants: self.constants,
            skolem: self.skolem,
            clauses: self.clauses,
            watches: self.watches,
            trail: self.trail,
            assignment: self.assignment,
            levels: self.levels,
            vsids: self.vsids,
            ..*before
        })
        &&& self.trail.lits() == before.trail.lits().push(lit)
        &&& self.trail.starts() == (if is_decision {
            before.trail.starts().push(before.trail.lits().len() as usize)
        } else {
            before.trail.starts()
        })
        &&& self.assignment@ == before.assignment@.insert(
            lit.v(),
            match (is_constant, lit.pos()) {
                (true, true) => Value::True,
                (true, false) => Value::False,
                (false, true) => Value::PositiveImplications,
                (false, false) => Value::NegativeImplications,
            },
        )
        &&& self.levels@ == before.levels@.insert(lit.v(), DecLvl(self.trail.starts().len() as usize))
        &&& self.vsids.vars() == before.vsids.vars().remove(lit.v())
        &&& before.constants@.is_prefix_of(self.constants@)
        &&& self.clauses.held() == before.clauses.held()
        &&& self.clauses.names() == before.clauses.names()
        &&& self.found_at(before, DecLvl(self.trail.starts().len() as usize))
    }

    /// What implications are new belong to a level.
    pub(crate) open spec fn found_at(&self, before: &State, lvl: DecLvl) -> bool {
        forall|l: Lit| self.grown_at(before, lvl, l)
    }

    pub(crate) open spec fn grown_at(&self, before: &State, lvl: DecLvl, l: Lit) -> bool {
        &&& before.skolem.of(l).is_prefix_of(self.skolem.of(l))
        &&& forall|i: int| before.skolem.of(l).len() <= i < self.skolem.of(l).len() ==> (#[trigger] self.skolem.of(l)[i]).dec_lvl == lvl
    }

    /// Updates the state to reflect that a literal is assigned.
    pub(crate) fn assign_and_propagate(&mut self, lit: Lit, is_decision: bool, is_constant: bool)
        requires
            old(self).wf(),
        ensures
            final(self).keeps(old(self)),
            final(self).assigned(old(self), lit, is_decision, is_constant),
    {
        let ghost begun = *self;
        if is_decision {
            self.trail.add_decision(lit);
        } else {
            self.trail.push(lit);
        }
        if is_constant {
            self.assignment.assign_constant(lit);
        } else {
            self.assignment.assign_function(lit);
        }
        self.vsids.remove(lit.var());
        let ghost middle = *self;
        self.propagate_function(lit.var());
        proof {
            let lvl = DecLvl(self.trail.starts().len() as usize);
            assert forall|l: Lit| self.grown_at(&begun, lvl, l) by {
                assert(self.grown_at(&middle, lvl, l));
            }
        }
    }

    /// Uses the watches to find more implications.
    pub(crate) fn propagate_function(&mut self, var: Var)
        requires
            old(self).wf(),
        ensures
            final(self).keeps(old(self)),
            final(self).levels@ == old(self).levels@.insert(var, DecLvl(old(self).trail.starts().len() as usize)),
            final(self).gained(&(State { levels: final(self).levels, ..*old(self) })),
            final(self).found_at(old(self), DecLvl(old(self).trail.starts().len() as usize)),
    {
        let lvl = self.trail.decision_level();
        self.levels.insert(var, lvl);
        let ghost begun = *self;
        let mut side: usize = 0;
        while side < 2
            invariant
                self.keeps(old(self)),
                begun == (State { levels: begun.levels, ..*old(self) }),
                lvl == DecLvl(old(self).trail.starts().len() as usize),
                self.gained(&begun),
                self.found_at(&begun, lvl),
            decreases 2 - side,
        {
            let lit = if side == 0 {
                var.positive()
            } else {
                var.negative()
            };
            let mut kept: Vec<Watch> = Vec::new();
            let count = self.watches.count(lit);
            let mut k: usize = 0;
            while k < count && k < self.watches.count(lit)
                invariant
                    self.keeps(old(self)),
                    self.gained(&begun),
                    self.found_at(&begun, lvl),
                decreases count - k,
            {
                let watch = self.watches.at(lit, k);
                let ghost before = *self;
                if self.visit_watch(watch, var, lvl) {
                    kept.push(watch);
                }
                proof {
                    self.lemma_gained(&before, &begun);
                    self.lemma_found(&before, &begun, lvl);
                }
                k += 1;
            }
            let ghost before = *self;
            self.watches.set(lit, kept);
            proof {
                self.lemma_gained(&before, &begun);
                assert forall|l: Lit| self.grown_at(&before, lvl, l) by {}
                self.lemma_found(&before, &begun, lvl);
            }
            side += 1;
        }
        proof {
            assert forall|l: Lit| self.grown_at(old(self), lvl, l) by {
                assert(self.grown_at(&begun, lvl, l));
            }
        }
    }

    pub(crate) proof fn lemma_found(&self, middle: &State, before: &State, lvl: DecLvl)
        requires
            self.found_at(middle, lvl),
            middle.found_at(before, lvl),
        ensures
            self.found_at(before, lvl),
    {
        assert forall|l: Lit| self.grown_at(before, lvl, l) by {
            assert(self.grown_at(middle, lvl, l));
            assert(middle.grown_at(before, lvl, l));
            assert forall|i: int| before.skolem.of(l).len() <= i < self.skolem.of(l).len() implies (#[trigger] self.skolem.of(l)[i]).dec_lvl
                == lvl by {
                if i < middle.skolem.of(l).len() {
                    assert(self.skolem.of(l)[i] == middle.skolem.of(l)[i]);
                }
            }
        }
    }

    /// The literal is on another variable, existential and not assigned.
    pub(crate) open spec fn watchable(&self, lits: Seq<Lit>, l: Lit, var: Var) -> bool {
        lits.contains(l) && l.v() != var && self.open(l)
    }

    /// What becomes of a watched clause, of which a variable was just
    /// assigned. A clause that is gone is not watched any more; one that a
    /// constant satisfies stays as it is. Else another open existential
    /// literal takes over the watch, if one does not watch the clause yet;
    /// and if none is left but one that watches it, the clause becomes an
    /// implication clause of it.
    pub(crate) open spec fn visited(&self, before: &State, watch: Watch, var: Var, lvl: DecLvl, stays: bool) -> bool {
        match before.clauses.lits(watch.clause) {
            None => !stays && *self == *before,
            Some(lits) => if before.satisfied(lits, None) {
                stays && *self == *before
            } else if stays {
                &&& forall|l: Lit| #[trigger] before.watchable(lits, l, var) ==> before.watches.watched(l, watch.clause)
                &&& (*self == *before && forall|l: Lit| !#[trigger] before.watchable(lits, l, var)) || exists|l: Lit| #[trigger]
                    before.watchable(lits, l, var) && self.registered(before, l, watch.clause, lvl)
            } else {
                exists|l: Lit| #[trigger]
                    before.watchable(lits, l, var) && !before.watches.watched(l, watch.clause) && self.watches.of(l) == before.watches.of(
                        l,
                    ).push(watch)
            },
        }
    }

    /// Handles a watched clause of a variable that was just assigned;
    /// whether the watch stays.
    fn visit_watch(&mut self, watch: Watch, var: Var, lvl: DecLvl) -> (stays: bool)
        requires
            old(self).wf(),
        ensures
            final(self).keeps(old(self)),
            final(self).gained(old(self)),
            final(self).found_at(old(self), lvl),
            final(self).visited(old(self), watch, var, lvl, stays),
    {
        proof {
            assert forall|l: Lit| self.grown_at(old(self), lvl, l) by {}
        }
        let lits = match self.clauses.get(watch.clause) {
            Some(lits) => copy_lits(lits),
            None => {
                return false;
            },
        };
        if self.satisfied_by_constant(&lits, None) {
            // no implications can be derived from the clause
            return true;
        }
        let mut remaining: Option<Lit> = None;
        let mut k: usize = 0;
        while k < lits.len()
            invariant
                k <= lits@.len(),
                self.keeps(old(self)),
                *self == *old(self),
                old(self).clauses.lits(watch.clause) == Some(lits@),
                !old(self).satisfied(lits@, None),
                match remaining {
                    Some(l) => old(self).watchable(lits@, l, var),
                    None => forall|i: int| 0 <= i < k ==> !old(self).watchable(lits@, #[trigger] lits@[i], var),
                },
                forall|i: int|
                    0 <= i < k && old(self).watchable(lits@, #[trigger] lits@[i], var) ==> old(self).watches.watched(lits@[i], watch.clause),
            decreases lits.len() - k,
        {
            let l = lits[k];
            assert(lits@.contains(lits@[k as int]));
            if l.var() != var && self.is_open_existential(l) {
                if self.watches.is_watched(l, watch.clause) {
                    remaining = Some(l);
                } else {
                    // new watched literal
                    assert(old(self).watchable(lits@, l, var));
                    self.watches.add_watch(l, watch);
                    assert forall|l: Lit| self.grown_at(old(self), lvl, l) by {}
                    return false;
                }
            }
            k += 1;
        }
        proof {
            assert forall|l: Lit| #[trigger] old(self).watchable(lits@, l, var) implies old(self).watches.watched(l, watch.clause)
                && remaining is Some by {
                let i = choose|i: int| 0 <= i < lits@.len() && lits@[i] == l;
                assert(old(self).watchable(lits@, lits@[i], var));
            }
        }
        match remaining {
            Some(l) => {
                // there is no other literal to watch: this is an implication
                // clause for the remaining one
                if self.options.constant_propagation && lvl.is_root() && self.others_constantly_false(&lits, l) {
                    self.constants.push_back(l);
                }
                let ghost before = *self;
                self.register(l, watch.clause, lvl);
                proof {
                    self.lemma_gained(&before, old(self));
                    assert forall|l: Lit| self.grown_at(old(self), lvl, l) by {}
                }
            },
            None => {},
        }
        true
    }

    /// The number of literals assigned up to a level.
    pub(crate) open spec fn assigned_by(&self, lvl: DecLvl) -> int {
        if lvl.0 < self.trail.starts().len() {
            self.trail.starts()[lvl.0 as int] as int
        } else {
            self.trail.lits().len() as int
        }
    }

    /// The variable was assigned above a level.
    pub(crate) open spec fn assigned_above(&self, lvl: DecLvl, x: Var) -> bool {
        exists|i: int| self.assigned_by(lvl) <= i < self.trail.lits().len() && (#[trigger] self.trail.lits()[i]).v() == x
    }

    /// Everything above a level is undone: assignments, case assumptions
    /// and implications. Variables that lost their function are open again.
    pub(crate) open spec fn undone(&self, before: &State, lvl: DecLvl) -> bool {
        &&& *self == (State {
            trail: self.trail,
            assignment: self.assignment,
            levels: self.levels,
            vsids: self.vsids,
            active: self.active,
            skolem: self.skolem,
            clauses: self.clauses,
            propagation: self.propagation,
            pure_queue: self.pure_queue,
            pure_queued: self.pure_queued,
            ..*before
        })
        &&& self.trail.lits() == before.trail.lits().take(before.assigned_by(lvl))
        &&& self.trail.starts() == (if lvl.0 < before.trail.starts().len() {
            before.trail.starts().take(lvl.0 as int)
        } else {
            before.trail.starts()
        })
        &&& self.unassigned(before, lvl)
        &&& self.active@.is_prefix_of(before.active@)
        &&& self.active@.len() > 0 ==> self.active@.last().1.0 < lvl.0
        &&& self.active@.len() < before.active@.len() ==> before.active@[self.active@.len() as int].1.0 >= lvl.0
        &&& forall|l: Lit| #[trigger] self.skolem.of(l) == kept(before.skolem.of(l), lvl)
        &&& self.clauses.held() == before.clauses.held()
        &&& self.clauses.names() == before.clauses.names()
        &&& self.released(before, before.skolem.all_dropped(lvl, before.skolem.width() as int))
    }

    /// Every clause lost one registration for each time it is listed.
    pub(crate) open spec fn released(&self, before: &State, cids: Seq<ClauseId>) -> bool {
        forall|cid: ClauseId| #[trigger]
            self.clauses.registrations(cid) == registered_after(before.clauses.registrations(cid), cids, cid, cids.len() as int)
    }

    /// The variables assigned above a level have no value and no level any
    /// more; of them, the existential ones can be decided.
    pub(crate) open spec fn unassigned(&self, before: &State, lvl: DecLvl) -> bool {
        &&& forall|x: Var| #[trigger]
            self.assignment@.contains_key(x) <==> before.assignment@.contains_key(x) && !before.assigned_above(lvl, x)
        &&& forall|x: Var| #[trigger] self.assignment@.contains_key(x) ==> self.assignment@[x] == before.assignment@[x]
        &&& forall|x: Var| #[trigger] self.levels@.contains_key(x) <==> before.levels@.contains_key(x) && !before.assigned_above(lvl, x)
        &&& forall|x: Var| #[trigger] self.levels@.contains_key(x) ==> self.levels@[x] == before.levels@[x]
        &&& forall|x: Var| #[trigger]
            self.vsids.vars().contains(x) <==> before.vsids.vars().contains(x) || before.assigned_above(lvl, x) && before.quantified(
                x,
                QuantTy::Exists,
            )
    }

    /// Undoes everything above a level.
    pub(crate) fn backtrack_to(&mut self, lvl: DecLvl)
        requires
            old(self).wf(),
        ensures
            final(self).keeps(old(self)),
            final(self).undone(old(self), lvl),
    {
        let removed = self.trail.backtrack_to(lvl);
        proof {
            assert(old(self).trail.lits().take(old(self).trail.lits().len() as int) =~= old(self).trail.lits());
            assert forall|x: Var| #[trigger] old(self).assigned_above(lvl, x) <==> listed_var(removed@, removed@.len() as int, x) by {
                let lits = old(self).trail.lits();
                let n = lits.len() as int;
                if old(self).assigned_above(lvl, x) {
                    let i = choose|i: int| old(self).assigned_by(lvl) <= i < n && (#[trigger] lits[i]).v() == x;
                    assert(removed@[n - 1 - i] == lits[i]);
                }
                if listed_var(removed@, removed@.len() as int, x) {
                    let j = choose|j: int| 0 <= j < removed@.len() && (#[trigger] removed@[j]).v() == x;
                    assert(lits[n - 1 - j] == removed@[j]);
                }
            }
        }
        let ghost cut = *self;
        let mut k: usize = 0;
        while k < removed.len()
            invariant
                k <= removed@.len(),
                self.keeps(old(self)),
                *self == (State { assignment: self.assignment, levels: self.levels, vsids: self.vsids, ..cut }),
                cut == (State { trail: cut.trail, ..*old(self) }),
                forall|x: Var| #[trigger]
                    self.assignment@.contains_key(x) <==> old(self).assignment@.contains_key(x) && !listed_var(removed@, k as int, x),
                forall|x: Var| #[trigger] self.assignment@.contains_key(x) ==> self.assignment@[x] == old(self).assignment@[x],
                forall|x: Var| #[trigger]
                    self.levels@.contains_key(x) <==> old(self).levels@.contains_key(x) && !listed_var(removed@, k as int, x),
                forall|x: Var| #[trigger] self.levels@.contains_key(x) ==> self.levels@[x] == old(self).levels@[x],
                forall|x: Var| #[trigger]
                    self.vsids.vars().contains(x) <==> old(self).vsids.vars().contains(x) || listed_var(removed@, k as int, x)
                        && old(self).quantified(x, QuantTy::Exists),
            decreases removed.len() - k,
        {
            let var = removed[k].var();
            proof {
                assert forall|x: Var| #[trigger] listed_var(removed@, k as int + 1, x) <==> listed_var(removed@, k as int, x) || x == var by {
                    if x == var {
                        assert(removed@[k as int].v() == x);
                    }
                    if listed_var(removed@, k as int, x) {
                        let j = choose|j: int| 0 <= j < k && (#[trigger] removed@[j]).v() == x;
                        assert(removed@[j].v() == x);
                    }
                }
            }
            self.assignment.unassign(var);
            self.levels.remove(var);
            if self.is_existential(var) {
                self.vsids.add(var);
            }
            k += 1;
        }
        let ghost bare = *self;
        // an assumption made above a level survives iff the next level is
        // kept
        while self.active.len() > 0 && self.active[self.active.len() - 1].1.0 >= lvl.0
            invariant
                self.keeps(old(self)),
                *self == (State { active: self.active, ..bare }),
                bare.active == old(self).active,
                self.active@.is_prefix_of(old(self).active@),
                self.active@.len() < old(self).active@.len() ==> old(self).active@[self.active@.len() as int].1.0 >= lvl.0,
            decreases self.active.len(),
        {
            let dropped = self.active.pop();
        }
        let unlocked = self.skolem.backtrack_to(lvl);
        let ghost cleared = *self;
        let mut k: usize = 0;
        while k < unlocked.len()
            invariant
                self.keeps(old(self)),
                *self == (State { clauses: self.clauses, ..cleared }),
                self.clauses.held() == cleared.clauses.held(),
                self.clauses.names() == cleared.clauses.names(),
                k <= unlocked@.len(),
                forall|cid: ClauseId| #[trigger]
                    self.clauses.registrations(cid) == registered_after(cleared.clauses.registrations(cid), unlocked@, cid, k as int),
            decreases unlocked.len() - k,
        {
            let ghost middle = *self;
            self.clauses.unlock(unlocked[k]);
            proof {
                assert forall|cid: ClauseId| #[trigger] self.clauses.registrations(cid) == registered_after(
                    cleared.clauses.registrations(cid),
                    unlocked@,
                    cid,
                    k as int + 1,
                ) by {
                    assert(middle.clauses.registrations(cid) == registered_after(
                        cleared.clauses.registrations(cid),
                        unlocked@,
                        cid,
                        k as int,
                    ));
                }
            }
            k += 1;
        }
        let ghost unlocked_all = *self;
        // variables that still have implications may still be determined,
        // and they are candidates for the pure-literal rule again
        let mut k: usize = 0;
        while k < removed.len()
            invariant
                self.keeps(old(self)),
                self.requeued(&unlocked_all),
            decreases removed.len() - k,
        {
            let var = removed[k].var();
            self.requeue_determinacy_check(var);
            if self.is_existential(var) {
                self.queue_pure_check(var);
            }
            k += 1;
        }
        proof {
            assert(self.unassigned(old(self), lvl)) by {
                assert forall|x: Var| old(self).assigned_above(lvl, x) == #[trigger] listed_var(removed@, removed@.len() as int, x) by {}
            }
        }
    }

    /// The pure-literal rule: a literal is pure if every original clause
    /// containing it is either registered as an implication clause for it
    /// or satisfied by a constant.
    fn pure_literal(&self, var: Var) -> (lit: Option<Lit>)
        requires
            self.wf(),
        ensures
            match lit {
                Some(lit) => lit.v() == var && self.pure_first(lit),
                None => forall|l: Lit| l.v() == var ==> !#[trigger] self.pure_now(l),
            },
    {
        let positive = var.positive();
        let negative = var.negative();
        if self.is_pure(positive) {
            Some(positive)
        } else if self.is_pure(negative) {
            proof {
                assert forall|l: Lit| l.v() == var && l.pos() implies !#[trigger] self.pure_now(l) by {
                    crate::literal::lemma_lit_ext(l, positive);
                }
            }
            Some(negative)
        } else {
            proof {
                assert forall|l: Lit| l.v() == var implies !#[trigger] self.pure_now(l) by {
                    if l.pos() {
                        crate::literal::lemma_lit_ext(l, positive);
                    } else {
                        crate::literal::lemma_lit_ext(l, negative);
                    }
                }
            }
            None
        }
    }

    fn is_pure(&self, lit: Lit) -> (pure: bool)
        requires
            self.wf(),
        ensures
            pure == self.pure_now(lit),
    {
        let count = self.occurrences.count(lit.as_index());
        let mut k: usize = 0;
        while k < count
            invariant
                self.wf(),
                k <= count,
                count == self.occurrences.row(lit.id()).len(),
                forall|i: int| 0 <= i < k ==> self.harmless(lit, #[trigger] self.occurrences.row(lit.id())[i]),
            decreases count - k,
        {
            let cid = self.occurrences.at(lit.as_index(), k);
            if !self.is_implication(lit, cid) {
                let satisfied = match self.clauses.get(cid) {
                    Some(lits) => self.satisfied_by_constant(lits, None),
                    None => true,
                };
                if !satisfied {
                    assert(!self.harmless(lit, self.occurrences.row(lit.id())[k as int]));
                    return false;
                }
            }
            k += 1;
        }
        true
    }

    fn is_implication(&self, lit: Lit, cid: ClauseId) -> (found: bool)
        ensures
            found == self.implies_by(lit, cid),
    {
        let count = self.skolem.count(lit);
        let mut k: usize = 0;
        while k < count
            invariant
                k <= count,
                count == self.skolem.of(lit).len(),
                forall|i: int| 0 <= i < k ==> (#[trigger] self.skolem.of(lit)[i]).clause != cid,
            decreases count - k,
        {
            if self.skolem.at(lit, k).clause == cid {
                return true;
            }
            k += 1;
        }
        false
    }

    /// The literal is pure; of two pure literals of a variable the positive
    /// one is taken.
    pub(crate) open spec fn pure_first(&self, lit: Lit) -> bool {
        self.pure_now(lit) && (!lit.pos() ==> forall|l: Lit| l.v() == lit.v() && l.pos() ==> !#[trigger] self.pure_now(l))
    }

    /// The variable is an open existential one.
    pub(crate) open spec fn undecided(&self, x: Var) -> bool {
        !self.assignment@.contains_key(x) && self.quantified(x, QuantTy::Exists)
    }

    /// The pure-literal rule has nothing to say of the variable.
    pub(crate) open spec fn passed_over(&self, x: Var) -> bool {
        self.undecided(x) ==> forall|l: Lit| l.v() == x ==> !#[trigger] self.pure_now(l)
    }

    /// The literal is that of the first queued variable that the
    /// pure-literal rule applies to.
    pub(crate) open spec fn next_pure(&self, k: int, lit: Lit) -> bool {
        &&& 0 <= k < self.pure_queue@.len()
        &&& self.pure_queue@[k] == lit.v()
        &&& forall|i: int| 0 <= i < k ==> self.passed_over(#[trigger] self.pure_queue@[i])
        &&& self.undecided(lit.v())
        &&& self.pure_first(lit)
    }

    /// The variable of a pure literal has its function: without implications
    /// of the literal the opposite constant, and else a decision for the
    /// literal.
    pub(crate) open spec fn made_pure(&self, before: &State, lit: Lit) -> bool {
        if before.skolem.of(lit).len() == 0 {
            &&& self.trail.lits() == before.trail.lits().push(lit.neg())
            &&& self.trail.starts() == before.trail.starts()
            &&& constant_of(self.assignment@, lit) == Some(false)
        } else {
            &&& self.trail.lits() == before.trail.lits().push(lit)
            &&& self.trail.starts() == before.trail.starts().push(before.trail.lits().len() as usize)
            &&& self.assignment@ == before.assignment@.insert(
                lit.v(),
                if lit.pos() { Value::PositiveImplications } else { Value::NegativeImplications },
            )
        }
    }

    /// What a pure-literal step did: the rule applies to none of the queued
    /// variables; the first that it applies to is assigned; or that one is
    /// in conflict. Steps are lost only where the conflict cannot be asked
    /// about.
    pub(crate) open spec fn pure_stepped(&self, before: &State, step: PureStep) -> bool {
        match step {
            PureStep::Nothing => {
                &&& *self == (State { pure_queue: self.pure_queue, pure_queued: self.pure_queued, ..*before })
                &&& self.pure_queue@.len() == 0
                &&& forall|i: int| 0 <= i < before.pure_queue@.len() ==> before.passed_over(#[trigger] before.pure_queue@[i])
            },
            PureStep::Progress => exists|k: int, lit: Lit| #[trigger]
                before.next_pure(k, lit) && self.made_pure(before, lit) && (self.fuel == before.fuel || !before.both_askable(lit.v())),
            PureStep::Conflict(conflict) => {
                &&& self.trail.lits() == before.trail.lits()
                &&& self.in_conflict(conflict)
                &&& exists|k: int, lit: Lit| #[trigger]
                    before.next_pure(k, lit) && conflict.var == lit.v() && (self.fuel == before.fuel || !before.both_askable(lit.v()))
            },
        }
    }

    /// Assigns the next pure literal from the queue, if any.
    pub(crate) fn pure_literal_step(&mut self) -> (step: PureStep)
        requires
            old(self).wf(),
        ensures
            final(self).keeps(old(self)),
            final(self).pure_stepped(old(self), step),
    {
        let ghost queue = self.pure_queue@;
        let ghost mut passed: int = 0;
        while self.pure_queue.len() > 0
            invariant
                self.keeps(old(self)),
                *self == (State { pure_queue: self.pure_queue, pure_queued: self.pure_queued, ..*old(self) }),
                queue == old(self).pure_queue@,
                0 <= passed <= queue.len(),
                self.pure_queue@ == queue.skip(passed),
                forall|i: int| 0 <= i < passed ==> old(self).passed_over(#[trigger] queue[i]),
            decreases self.pure_queue@.len(),
        {
            let var = match self.pure_queue.pop_front() {
                Some(var) => var,
                None => {
                    return PureStep::Nothing;
                },
            };
            assert(queue.skip(passed)[0] == queue[passed]);
            assert(queue.skip(passed).skip(1) =~= queue.skip(passed + 1));
            self.pure_queued.remove(var);
            if !self.assignment.is_assigned(var) && self.is_existential(var) {
                match self.pure_literal(var) {
                    Some(lit) => {
                        let ghost found = *self;
                        let step = self.assign_pure(lit);
                        proof {
                            assert(found.alike(old(self)));
                            assert(old(self).pure_first(lit)) by {
                                found.lemma_same_pure(old(self), lit);
                            }
                            assert(old(self).next_pure(passed, lit));
                            if old(self).both_askable(lit.v()) {
                                found.lemma_same_askable(old(self), lit.v());
                            }
                        }
                        return step;
                    },
                    None => {
                        assert(old(self).passed_over(var)) by {
                            assert forall|l: Lit| l.v() == var implies !#[trigger] old(self).pure_now(l) by {
                                self.lemma_same_purity(old(self), l);
                            }
                        }
                    },
                }
            }
            proof {
                passed = passed + 1;
            }
        }
        PureStep::Nothing
    }

    proof fn lemma_same_purity(&self, before: &State, l: Lit)
        requires
            self.alike(before),
        ensures
            self.pure_now(l) == before.pure_now(l),
    {
        let row = self.occurrences.row(l.id());
        assert(self.skolem == before.skolem && self.clauses == before.clauses && self.assignment == before.assignment);
        assert forall|k: int| 0 <= k < row.len() implies self.harmless(l, #[trigger] row[k]) == before.harmless(l, row[k]) by {
            assert(self.implies_by(l, row[k]) == before.implies_by(l, row[k]));
            match self.clauses.lits(row[k]) {
                Some(lits) => {
                    assert forall|i: int| 0 <= i < lits.len() implies self.constantly_true(#[trigger] lits[i], None)
                        == before.constantly_true(lits[i], None) by {}
                    assert(self.satisfied(lits, None) == before.satisfied(lits, None));
                },
                None => {},
            }
        }
        if self.pure_now(l) {
            assert forall|k: int| 0 <= k < row.len() implies before.harmless(l, #[trigger] row[k]) by {
                assert(self.harmless(l, row[k]));
            }
        }
        if before.pure_now(l) {
            assert forall|k: int| 0 <= k < row.len() implies self.harmless(l, #[trigger] row[k]) by {
                assert(before.harmless(l, before.occurrences.row(l.id())[k]));
            }
        }
    }

    proof fn lemma_same_pure(&self, before: &State, lit: Lit)
        requires
            self.alike(before),
            self.pure_first(lit),
        ensures
            before.pure_first(lit),
    {
        self.lemma_same_purity(before, lit);
        if !lit.pos() {
            assert forall|l: Lit| l.v() == lit.v() && l.pos() implies !#[trigger] before.pure_now(l) by {
                self.lemma_same_purity(before, l);
            }
        }
    }

    fn assign_pure(&mut self, lit: Lit) -> (step: PureStep)
        requires
            old(self).wf(),
            !old(self).assignment@.contains_key(lit.v()),
        ensures
            final(self).keeps(old(self)),
            !(step is Nothing),
            step is Progress ==> final(self).made_pure(old(self), lit),
            final(self).fuel == old(self).fuel || !old(self).both_askable(lit.v()),
            step matches PureStep::Conflict(conflict) ==> conflict.var == lit.v() && final(self).in_conflict(conflict)
                && final(self).trail.lits() == old(self).trail.lits(),
    {
        let var = lit.var();
        self.stats.pure_vars = self.stats.pure_vars.saturating_add(1);
        if self.skolem.count(lit) == 0 {
            // no implications at all: the function is the constant
            if self.trail.decision_level().is_root() {
                self.root_pure_lits.push(lit);
            }
            proof {
                assert(self.alike(old(self)));
                if old(self).both_askable(var) {
                    self.lemma_same_askable(old(self), var);
                }
            }
            return match self.propagate_constant(lit.negated()) {
                Some(conflict) => PureStep::Conflict(conflict),
                None => PureStep::Progress,
            };
        }
        let ghost middle = *self;
        proof {
            assert(self.alike(old(self)));
            if old(self).both_askable(var) {
                self.lemma_same_askable(old(self), var);
            }
        }
        match self.is_conflicted(var) {
            Some(assignment) => {
                let conflict = Conflict { var, assignment };
                proof {
                    let a = choose|a: crate::semantics::Assignment| #[trigger]
                        middle.conflicting(a, var) && cube_true(a, conflict.assignment@);
                    self.lemma_same_conflict(&middle, a, var);
                    assert(self.in_conflict(conflict));
                }
                PureStep::Conflict(conflict)
            },
            None => {
                // assigned as a decision, so the choice is undone by
                // backtracking
                self.assign_and_propagate(lit, true, false);
                PureStep::Progress
            },
        }
    }

    /// Deletes the less active half of the learnt clauses that are neither
    /// registered as implication clauses nor binary (activity ties are
    /// broken towards deleting longer clauses).
    pub(crate) fn reduce_learnts(&mut self)
        requires
            old(self).wf(),
        ensures
            final(self).keeps(old(self)),
            *final(self) == (State {
                clauses: final(self).clauses,
                activity: final(self).activity,
                stats: final(self).stats,
                learnts: final(self).learnts,
                ..*old(self)
            }),
            final(self).thinned(old(self)),
            final(self).learnts@ == final(self).alive(old(self).learnts@, old(self).learnts@.len() as int),
            final(self).stats == (Statistics {
                deleted_clauses: added_to(
                    old(self).stats.deleted_clauses,
                    old(self).spare(old(self).learnts@, old(self).learnts@.len() as int) / 2,
                ),
                ..old(self).stats
            }),
    {
        let mut candidates: Vec<(u64, usize, ClauseId)> = Vec::new();
        let mut k: usize = 0;
        while k < self.learnts.len()
            invariant
                k <= self.learnts@.len(),
                self.keeps(old(self)),
                *self == *old(self),
                candidates@.len() == old(self).spare(old(self).learnts@, k as int),
                forall|i: int| 0 <= i < candidates@.len() ==> old(self).is_spare((#[trigger] candidates@[i]).2),
            decreases self.learnts.len() - k,
        {
            let cid = self.learnts[k];
            match self.clauses.get(cid) {
                Some(lits) => {
                    if lits.len() > 2 && !self.clauses.is_locked(cid) {
                        candidates.push((self.activity.get(cid), lits.len(), cid));
                    }
                },
                None => {},
            }
            k += 1;
        }
        let target = candidates.len() / 2;
        let mut removed: usize = 0;
        while removed < target
            invariant
                removed <= target,
                candidates@.len() >= target - removed,
                self.keeps(old(self)),
                *self == (State { clauses: self.clauses, activity: self.activity, stats: self.stats, ..*old(self) }),
                self.thinned(old(self)),
                self.stats == (Statistics {
                    deleted_clauses: added_to(old(self).stats.deleted_clauses, removed as nat),
                    ..old(self).stats
                }),
                forall|i: int| 0 <= i < candidates@.len() ==> old(self).is_spare((#[trigger] candidates@[i]).2),
            decreases target - removed,
        {
            // the least active candidate, the longest of those
            let mut best: Option<usize> = None;
            let mut k: usize = 0;
            while k < candidates.len()
                invariant
                    best matches Some(b) ==> b < candidates@.len(),
                    k > 0 ==> best is Some,
                    k <= candidates@.len(),
                decreases candidates.len() - k,
            {
                match best {
                    None => {
                        best = Some(k);
                    },
                    Some(b) => {
                        if candidates[k].0 < candidates[b].0 || (candidates[k].0 == candidates[b].0 && candidates[k].1
                            > candidates[b].1) {
                            best = Some(k);
                        }
                    },
                }
                k += 1;
            }
            match best {
                Some(b) => {
                    let ghost held = candidates@;
                    let cid = candidates.swap_remove(b).2;
                    proof {
                        assert(cid == held[b as int].2);
                        assert(old(self).is_spare(cid));
                        assert forall|i: int| 0 <= i < candidates@.len() implies old(self).is_spare((#[trigger] candidates@[i]).2) by {
                            if i == b {
                                assert(candidates@[i] == held[held.len() - 1]);
                            } else {
                                assert(candidates@[i] == held[i]);
                            }
                        }
                    }
                    let ghost middle = *self;
                    self.clauses.delete(cid);
                    proof {
                        assert forall|other: ClauseId| #[trigger] self.clauses.lits(other) == old(self).clauses.lits(other) || old(
                            self,
                        ).is_spare(other) && self.clauses.lits(other) is None by {
                            assert(middle.clauses.lits(other) == old(self).clauses.lits(other) || old(self).is_spare(other)
                                && middle.clauses.lits(other) is None);
                            if other.0 == cid.0 {
                                assert(other == cid);
                            }
                        }
                    }
                    self.activity.remove(cid);
                    self.stats.deleted_clauses = self.stats.deleted_clauses.saturating_add(1);
                },
                None => {},
            }
            removed += 1;
        }
        let mut rest: Vec<ClauseId> = Vec::new();
        let mut k: usize = 0;
        let ghost reduced = *self;
        while k < self.learnts.len()
            invariant
                k <= self.learnts@.len(),
                self.keeps(old(self)),
                *self == reduced,
                rest@ == self.alive(self.learnts@, k as int),
            decreases self.learnts.len() - k,
        {
            if self.clauses.get(self.learnts[k]).is_some() {
                rest.push(self.learnts[k]);
            }
            k += 1;
        }
        self.learnts = rest;
        proof {
            self.lemma_alive(&reduced, old(self).learnts@, old(self).learnts@.len() as int);
        }
    }

    /// A learnt clause that can be deleted: it has more than two literals
    /// and is no implication clause.
    pub(crate) open spec fn is_spare(&self, cid: ClauseId) -> bool {
        match self.clauses.lits(cid) {
            Some(lits) => lits.len() > 2 && !self.clauses.locked(cid),
            None => false,
        }
    }

    /// The number of the first clauses that can be deleted.
    pub(crate) open spec fn spare(&self, ids: Seq<ClauseId>, count: int) -> nat
        decreases count,
    {
        if count <= 0 {
            0
        } else {
            self.spare(ids, count - 1) + if self.is_spare(ids[count - 1]) {
                1nat
            } else {
                0nat
            }
        }
    }

    /// The first clauses that are there.
    pub(crate) open spec fn alive(&self, ids: Seq<ClauseId>, count: int) -> Seq<ClauseId>
        decreases count,
    {
        if count <= 0 {
            Seq::empty()
        } else if self.clauses.lits(ids[count - 1]) is Some {
            self.alive(ids, count - 1).push(ids[count - 1])
        } else {
            self.alive(ids, count - 1)
        }
    }

    proof fn lemma_alive(&self, before: &State, ids: Seq<ClauseId>, count: int)
        requires
            self.clauses == before.clauses,
        ensures
            self.alive(ids, count) == before.alive(ids, count),
        decreases count,
    {
        if count > 0 {
            self.lemma_alive(before, ids, count - 1);
        }
    }

    /// Only clauses that can be deleted were.
    pub(crate) open spec fn thinned(&self, before: &State) -> bool {
        &&& self.clauses.names() == before.clauses.names()
        &&& self.clauses.held().len() == before.clauses.held().len()
        &&& forall|cid: ClauseId| #[trigger] self.clauses.lits(cid) == before.clauses.lits(cid) || before.is_spare(cid)
            && self.clauses.lits(cid) is None
        &&& forall|cid: ClauseId| #[trigger] self.clauses.registrations(cid) == before.clauses.registrations(cid)
    }

    /// The function is that of a literal: one of its implications where it
    /// was assigned by them, and constant otherwise.
    pub(crate) open spec fn has_function(&self, lit: Lit, function: Function) -> bool {
        let by_implications = self.assignment@.contains_key(lit.v()) && (self.assignment@[lit.v()] == Value::PositiveImplications
            || self.assignment@[lit.v()] == Value::NegativeImplications);
        match function {
            Function::Constant => !by_implications,
            Function::Implications(clauses) => by_implications && forall|i: int|
                0 <= i < clauses@.len() ==> implied(self.matrix(), (#[trigger] clauses@[i])@),
        }
    }

    /// The Skolem functions of the assigned existential variables in trail
    /// order (case assumptions are skipped; they form the cube).
    pub(crate) fn snapshot_functions(&self) -> (functions: Vec<(Lit, Function)>)
        requires
            self.wf(),
        ensures
            Seq::new(functions@.len(), |i: int| functions@[i].0) == self.existential_trail(self.trail.lits().len() as int),
            forall|i: int| 0 <= i < functions@.len() ==> self.has_function((#[trigger] functions@[i]).0, functions@[i].1),
    {
        let mut functions: Vec<(Lit, Function)> = Vec::new();
        let mut k: usize = 0;
        assert(Seq::new(0, |i: int| functions@[i].0) =~= self.existential_trail(0));
        while k < self.trail.len()
            invariant
                self.wf(),
                k <= self.trail.lits().len(),
                Seq::new(functions@.len(), |i: int| functions@[i].0) == self.existential_trail(k as int),
                forall|i: int| 0 <= i < functions@.len() ==> self.has_function((#[trigger] functions@[i]).0, functions@[i].1),
            decreases self.trail.lits().len() - k,
        {
            let lit = self.trail.at(k);
            if self.is_existential(lit.var()) {
                functions.push((lit, self.function_of(lit)));
            }
            k += 1;
            assert(Seq::new(functions@.len(), |i: int| functions@[i].0) =~= self.existential_trail(k as int));
        }
        functions
    }

    /// The existential literals among the first of the trail.
    pub(crate) open spec fn existential_trail(&self, count: int) -> Seq<Lit>
        decreases count,
    {
        if count <= 0 {
            Seq::empty()
        } else if self.quantified(self.trail.lits()[count - 1].v(), QuantTy::Exists) {
            self.existential_trail(count - 1).push(self.trail.lits()[count - 1])
        } else {
            self.existential_trail(count - 1)
        }
    }

    /// The function of an assigned literal.
    fn function_of(&self, lit: Lit) -> (function: Function)
        requires
            self.wf(),
        ensures
            self.has_function(lit, function),
    {
        match self.assignment.get(lit.var()) {
            Some(Value::PositiveImplications) | Some(Value::NegativeImplications) => Function::Implications(self.implications(lit)),
            _ => Function::Constant,
        }
    }
}

/// Whether a clause contains the negation of a literal of the set, besides
/// those of a variable.
fn clashes(lits: &Vec<Lit>, set: &LitSet, besides: Var) -> (found: bool)
    ensures
        found == exists|i: int| 0 <= i < lits@.len() && (#[trigger] lits@[i]).v() != besides && set@.contains(lits@[i].neg()),
{
    let mut k: usize = 0;
    while k < lits.len()
        invariant
            k <= lits@.len(),
            forall|i: int| 0 <= i < k ==> (#[trigger] lits@[i]).v() == besides || !set@.contains(lits@[i].neg()),
        decreases lits.len() - k,
    {
        if lits[k].var() != besides && set.contains(lits[k].negated()) {
            return true;
        }
        k += 1;
    }
    false
}

/// The literal is one of the first.
spec fn among(lits: Seq<Lit>, count: int, l: Lit) -> bool {
    exists|j: int| 0 <= j < count && #[trigger] lits[j] == l
}

/// One of the first literals is of the variable.
spec fn listed_var(lits: Seq<Lit>, count: int, x: Var) -> bool {
    exists|j: int| 0 <= j < count && (#[trigger] lits[j]).v() == x
}

/// A counter after some more events.
pub open spec fn added_to(counter: u32, events: nat) -> u32 {
    if counter + events > u32::MAX {
        u32::MAX
    } else {
        (counter + events) as u32
    }
}

/// Clauses with the same literals have the same negations.
proof fn lemma_same_opposites(left: Seq<Lit>, right: Seq<Lit>)
    requires
        crate::simplify::same_lits(left, right),
    ensures
        crate::simplify::same_lits(opposites(left), opposites(right)),
{
    assert forall|l: Lit| #[trigger] opposites(left).contains(l) <==> opposites(right).contains(l) by {
        lemma_opposite(left, l);
        lemma_opposite(right, l);
        assert(left.contains(l.neg()) <==> right.contains(l.neg()));
    }
}

proof fn lemma_opposite(lits: Seq<Lit>, l: Lit)
    ensures
        opposites(lits).contains(l) <==> lits.contains(l.neg()),
{
    let all = opposites(lits);
    if all.contains(l) {
        let i = choose|i: int| 0 <= i < all.len() && all[i] == l;
        assert(lits[i] == l.neg());
    }
    if lits.contains(l.neg()) {
        let i = choose|i: int| 0 <= i < lits.len() && lits[i] == l.neg();
        assert(all[i] == l);
    }
}

/// The negations of the literals.
pub open spec fn opposites(lits: Seq<Lit>) -> Seq<Lit> {
    Seq::new(lits.len(), |i: int| lits[i].neg())
}

/// The negations of the literals.
pub(crate) fn negate_all(lits: &Vec<Lit>) -> (negated: Vec<Lit>)
    ensures
        negated@.len() == lits@.len(),
        forall|i: int| 0 <= i < lits@.len() ==> #[trigger] negated@[i] == lits@[i].neg(),
{
    let mut negated: Vec<Lit> = Vec::new();
    let mut k: usize = 0;
    while k < lits.len()
        invariant
            k <= lits@.len(),
            negated@.len() == k,
            forall|i: int| 0 <= i < k ==> #[trigger] negated@[i] == lits@[i].neg(),
        decreases lits.len() - k,
    {
        negated.push(lits[k].negated());
        k += 1;
    }
    negated
}

/// A clause of one literal.
pub(crate) fn unit_clause(lit: Lit) -> (clause: Vec<Lit>)
    ensures
        clause@ == seq![lit],
{
    let mut clause: Vec<Lit> = Vec::new();
    clause.push(lit);
    assert(clause@ =~= seq![lit]);
    clause
}

/// Whether a list contains a literal.
pub(crate) fn contains(lits: &Vec<Lit>, lit: Lit) -> (found: bool)
    ensures
        found == lits@.contains(lit),
{
    crate::simplify::contains_lit(lits, lit)
}

/// The literals on other variables.
fn without_var(lits: &Vec<Lit>, var: Var) -> (rest: Vec<Lit>)
    ensures
        forall|i: int| 0 <= i < rest@.len() ==> (#[trigger] rest@[i]).v() != var && lits@.contains(rest@[i]),
        forall|i: int| 0 <= i < lits@.len() && (#[trigger] lits@[i]).v() != var ==> rest@.contains(lits@[i]),
{
    let mut rest: Vec<Lit> = Vec::new();
    let mut k: usize = 0;
    while k < lits.len()
        invariant
            k <= lits@.len(),
            forall|i: int| 0 <= i < rest@.len() ==> (#[trigger] rest@[i]).v() != var && lits@.contains(rest@[i]),
            forall|i: int| 0 <= i < k && (#[trigger] lits@[i]).v() != var ==> rest@.contains(lits@[i]),
        decreases lits.len() - k,
    {
        let ghost before = rest@;
        if lits[k].var() != var {
            assert(lits@.contains(lits@[k as int]));
            rest.push(lits[k]);
            assert forall|i: int| 0 <= i < k + 1 && (#[trigger] lits@[i]).v() != var implies rest@.contains(lits@[i]) by {
                crate::datastructure::lemma_push_contains(before, lits@[k as int], lits@[i]);
            }
        }
        k += 1;
    }
    rest
}

} // verus!
