//! Any number of quantifier alternations, by recursion over the core for
//! one alternation.
//!
//! The outermost existential block is solved by proposing candidates from
//! a propositional abstraction: the remainder of the prefix is solved under
//! the candidate, and refutations refine the abstraction. An outermost
//! universal block runs the dual loop: it searches for a refuting
//! assignment and blocks the answered candidates. Every level first
//! simplifies its instance, and a small innermost universal block may be
//! enumerated away before the loops run.
//!
//! Satisfiable answers come with a winning [`Strategy`].
use crate::compose::{
    case_ok, lemma_bound_by, lemma_bound_some, lemma_plays_choose, lemma_plays_done, lemma_plays_fixed, lemma_plays_leaf,
    lemma_plays_limit, lemma_plays_normalized, lemma_plays_split, lemma_plays_unfixed, lemma_plays_wins, lemma_rest_facts, plays, universal_set,
    restricts, some_case, unlimited,
};
use crate::datastructure::{LitSet, VarMap, VarSet};
use crate::incdet::cegar::{lemma_cube_consistent, lits_under, negate, values_of_lits};
use crate::incdet::load::universal_first;
use crate::incdet::{in_range, refutes, IncDet, Options};
use crate::literal::{Lit, Var, MAX_INDEX};
use crate::effort::{
    answers, arranged, entered, enumerable, exhaustible, exhausted, fits, gave_up, held, lemma_distinct_len, lemma_exhausted, lemma_fits_held, lemma_fits_normal,
    lemma_fits_rest, lemma_fits_sub, lemma_loses, lemma_rounds, lemma_step, learnt, loses, normal_of, overrun, possible, reached, settles, shortened, signs, step,
    three_blocks, tried_out, Bounds,
};
use crate::expand::{behind, expand_universal_block, lemma_plays_expanded, lemma_two_to_mono, two_to};
use crate::normal::{alternating, copy_lits, free_list, has_free, lemma_shape_len, merged, quants, shape};
use crate::qcnf::{assignment_of, matrix_of, prefix_of, QCNF};
use crate::quantifier::QuantTy;
use crate::reduction::bound_only_by;
use crate::sat::{consistent, SatOutcome, SatSolver};
use crate::semantics::{
    agree_off, bound, bound_by, clause_mentions, clause_true, cube_true, formula_true, lemma_bound_first, lemma_closed_truth,
    lemma_has_model, lemma_mono, lemma_reach_step, lit_true, matrix_true, mentions, overlay, prefix_distinct, qbf, reach, with_block,
    Assignment, Matrix, Prefix,
};
use crate::shared::share;
use crate::simplify::{
    applied, apply_forced, closed_formula, copy_prefix, derived, filtered, hit, kept, lemma_push_true,
    lemma_subclause, simplifies, simplify, size_of,
};
use crate::strategy::winning;
use crate::SolverResult;
use std::rc::Rc;
use vstd::prelude::*;

pub use crate::effort::{MAX_LITERALS, MAX_ROUNDS};
pub use crate::strategy::{Copies, Strategy};

verus! {

broadcast use crate::literal::group_literal;

/// Clause budget for enumerating a universal block: the block is
/// enumerated away when the expanded matrix stays below this size.
pub const EXPANSION_BUDGET: usize = 2_000_000;

/// Largest universal block that is enumerated rather than reasoned about.
pub const MAX_EXPANDED_BLOCK: usize = 8;

/// Strategy nodes the memo may hold before it stops growing.
pub const MEMO_BUDGET: usize = 32_000_000;

/// Probes to take before judging the hit rate of the memo.
pub const MEMO_WARMUP: usize = 256;

/// The reciprocal of the hit rate below which the memo switches itself
/// off.
pub const MEMO_MIN_RATE: usize = 8;

/// The result of an internal solve: the verdict, a move of the universal
/// player for the loop one level up, and a winning strategy.
struct Outcome {
    verdict: SolverResult,
    witness: Option<Vec<Lit>>,
    strategy: Option<Rc<Strategy>>,
}

/// A refutation of the formula comes with a move: it has at most two
/// blocks, the outermost of them universal.
spec fn offers(p: Prefix, m: Matrix) -> bool {
    0 < p.len() <= 2 && p[0].0 == QuantTy::Forall && universal_first(p, m)
}

impl Outcome {
    /// The verdict is the truth, a witness is a universal move, and
    /// exactly a satisfiable verdict comes with a strategy, which wins.
    spec fn ok(self, p: Prefix, m: Matrix) -> bool {
        &&& self.verdict == SolverResult::Satisfiable ==> formula_true(p, m)
        &&& self.verdict == SolverResult::Unsatisfiable ==> !formula_true(p, m)
        &&& self.witness matches Some(witness) ==> consistent(witness@) && forall|i: int|
            0 <= i < witness@.len() ==> bound_by(p, QuantTy::Forall, (#[trigger] witness@[i]).v())
        &&& self.strategy is Some <==> self.verdict == SolverResult::Satisfiable
        &&& self.strategy matches Some(strategy) ==> plays(*strategy, p, m, unlimited())
        &&& self.verdict == SolverResult::Unknown ==> forall|b: Bounds| !#[trigger] fits(p, m, b)
        &&& self.verdict == SolverResult::Unknown ==> gave_up(p, m)
        &&& self.verdict == SolverResult::Unsatisfiable && offers(p, m) ==> self.witness is Some && refutes(p, m, (self.witness->0)@)
    }

    fn verdict(verdict: SolverResult) -> (outcome: Outcome)
        ensures
            outcome.verdict == verdict,
            outcome.witness is None,
            outcome.strategy is None,
    {
        Outcome { verdict, witness: None, strategy: None }
    }

    fn sat(strategy: Rc<Strategy>) -> (outcome: Outcome)
        ensures
            outcome.verdict == SolverResult::Satisfiable,
            outcome.witness is None,
            outcome.strategy == Some(strategy),
    {
        Outcome { verdict: SolverResult::Satisfiable, witness: None, strategy: Some(strategy) }
    }

    fn duplicate(&self) -> (copy: Outcome)
        ensures
            copy.verdict == self.verdict,
            copy.strategy == self.strategy,
            match copy.witness {
                Some(witness) => self.witness matches Some(other) && other@ == witness@,
                None => self.witness is None,
            },
    {
        let witness = match &self.witness {
            Some(witness) => Some(copy_lits(witness)),
            None => None,
        };
        let strategy = match &self.strategy {
            Some(strategy) => Some(share(strategy)),
            None => None,
        };
        Outcome { verdict: self.verdict, witness, strategy }
    }
}

/// Memo of the recursion's sub-solves. Different candidates of an outer
/// loop routinely restrict to the same inner instance, so every level looks
/// up its simplified instance before dispatching. The table stops growing
/// once the strategies it holds reach a budget, and a recursion whose
/// sub-solves do not repeat switches the memo off.
struct Cache {
    entries: Vec<(QCNF, Outcome)>,
    stored: usize,
    probes: usize,
    hits: usize,
}

impl Cache {
    /// Every entry answers its instance.
    spec fn wf(self) -> bool {
        forall|i: int| 0 <= i < self.entries@.len() ==> (#[trigger] self.entries@[i]).1.ok(
            self.entries@[i].0.blocks(),
            self.entries@[i].0.clauses(),
        )
    }

    /// The memo is within its budget and its lookups succeed often enough.
    spec fn is_used(self) -> bool {
        &&& self.stored < MEMO_BUDGET
        &&& self.probes > MEMO_WARMUP ==> self.hits >= self.probes / MEMO_MIN_RATE
    }

    /// An entry is about the formula.
    spec fn holds(self, p: Prefix, m: Matrix) -> bool {
        exists|i: int| 0 <= i < self.entries@.len() && (#[trigger] self.entries@[i]).0.blocks() == p && self.entries@[i].0.clauses() == m
    }

    fn new() -> (cache: Cache)
        ensures
            cache.wf(),
            cache.entries@.len() == 0,
            cache.is_used(),
    {
        Cache { entries: Vec::new(), stored: 0, probes: 0, hits: 0 }
    }

    /// Looks the instance up; also tells whether the caller should insert
    /// the result afterwards.
    fn probe(&mut self, qcnf: &QCNF) -> (result: (Option<Outcome>, bool))
        requires
            old(self).wf(),
        ensures
            final(self).wf(),
            result.0 matches Some(outcome) ==> outcome.ok(qcnf.blocks(), qcnf.clauses()),
            result.0 is Some <==> old(self).is_used() && old(self).holds(qcnf.blocks(), qcnf.clauses()),
            result.1 <==> old(self).is_used() && !old(self).holds(qcnf.blocks(), qcnf.clauses()),
            final(self).entries@ == old(self).entries@,
            final(self).stored == old(self).stored,
            final(self).probes == if old(self).is_used() && old(self).probes < usize::MAX {
                old(self).probes + 1
            } else {
                old(self).probes as int
            },
            final(self).hits == if result.0 is Some && old(self).hits < usize::MAX {
                old(self).hits + 1
            } else {
                old(self).hits as int
            },
    {
        let cold = self.probes > MEMO_WARMUP && self.hits < self.probes / MEMO_MIN_RATE;
        if self.stored >= MEMO_BUDGET || cold {
            return (None, false);
        }
        self.probes = self.probes.saturating_add(1);
        let mut k: usize = 0;
        while k < self.entries.len()
            invariant
                k <= self.entries@.len(),
                self.wf(),
                old(self).is_used(),
                self.entries@ == old(self).entries@,
                self.stored == old(self).stored,
                self.hits == old(self).hits,
                self.probes == if old(self).probes < usize::MAX {
                    old(self).probes + 1
                } else {
                    old(self).probes as int
                },
                forall|i: int|
                    0 <= i < k ==> !((#[trigger] self.entries@[i]).0.blocks() == qcnf.blocks() && self.entries@[i].0.clauses() == qcnf.clauses()),
            decreases self.entries.len() - k,
        {
            if same_instance(&self.entries[k].0, qcnf) {
                self.hits = self.hits.saturating_add(1);
                let outcome = self.entries[k].1.duplicate();
                assert(old(self).entries@[k as int].0.blocks() == qcnf.blocks());
                assert(self.entries@[k as int].1.ok(qcnf.blocks(), qcnf.clauses()));
                return (Some(outcome), false);
            }
            k += 1;
        }
        (None, true)
    }

    fn insert(&mut self, qcnf: &QCNF, outcome: &Outcome)
        requires
            old(self).wf(),
            outcome.ok(qcnf.blocks(), qcnf.clauses()),
        ensures
            final(self).wf(),
            final(self).entries@.len() == old(self).entries@.len() + 1,
            final(self).entries@.drop_last() == old(self).entries@,
            final(self).entries@.last().0.blocks() == qcnf.blocks(),
            final(self).entries@.last().0.clauses() == qcnf.clauses(),
            final(self).entries@.last().1.verdict == outcome.verdict,
            final(self).entries@.last().1.strategy == outcome.strategy,
            final(self).entries@.last().1.witness is Some == outcome.witness is Some,
            final(self).stored >= old(self).stored,
            outcome.strategy is None ==> final(self).stored == old(self).stored,
            final(self).probes == old(self).probes,
            final(self).hits == old(self).hits,
    {
        let size = match &outcome.strategy {
            Some(strategy) => strategy.size(),
            None => 0,
        };
        self.stored = self.stored.saturating_add(size);
        let key = QCNF {
            prefix: copy_prefix(&qcnf.prefix),
            matrix: crate::normal::copy_clauses(&qcnf.matrix),
        };
        let copy = outcome.duplicate();
        assert(copy.ok(key.blocks(), key.clauses()));
        let ghost before = self.entries@;
        self.entries.push((key, copy));
        assert(self.entries@.drop_last() =~= before);
        assert forall|i: int| 0 <= i < self.entries@.len() implies (#[trigger] self.entries@[i]).1.ok(
            self.entries@[i].0.blocks(),
            self.entries@[i].0.clauses(),
        ) by {
            if i < before.len() {
                assert(self.entries@[i] == before[i]);
            }
        }
    }
}

/// Whether two instances have the same blocks and clauses.
fn same_instance(left: &QCNF, right: &QCNF) -> (same: bool)
    ensures
        same == (left.blocks() == right.blocks() && left.clauses() == right.clauses()),
{
    assert(left.blocks().len() == left.prefix@.len() && right.blocks().len() == right.prefix@.len());
    assert(left.clauses().len() == left.matrix@.len() && right.clauses().len() == right.matrix@.len());
    if left.prefix.len() != right.prefix.len() || left.matrix.len() != right.matrix.len() {
        return false;
    }
    let mut i: usize = 0;
    while i < left.prefix.len()
        invariant
            i <= left.prefix@.len(),
            left.prefix@.len() == right.prefix@.len(),
            forall|k: int| 0 <= k < i ==> (#[trigger] left.prefix@[k]).0 == right.prefix@[k].0 && left.prefix@[k].1@
                == right.prefix@[k].1@,
        decreases left.prefix.len() - i,
    {
        assert(left.blocks()[i as int] == (left.prefix@[i as int].0, left.prefix@[i as int].1@));
        assert(right.blocks()[i as int] == (right.prefix@[i as int].0, right.prefix@[i as int].1@));
        if left.prefix[i].0 != right.prefix[i].0 || !same_vars(&left.prefix[i].1, &right.prefix[i].1) {
            return false;
        }
        i += 1;
    }
    let mut i: usize = 0;
    while i < left.matrix.len()
        invariant
            i <= left.matrix@.len(),
            left.matrix@.len() == right.matrix@.len(),
            forall|k: int| 0 <= k < i ==> (#[trigger] left.matrix@[k])@ == right.matrix@[k]@,
        decreases left.matrix.len() - i,
    {
        assert(left.clauses()[i as int] == left.matrix@[i as int]@);
        assert(right.clauses()[i as int] == right.matrix@[i as int]@);
        if !same_lits(&left.matrix[i], &right.matrix[i]) {
            return false;
        }
        i += 1;
    }
    assert(left.blocks() =~= right.blocks());
    assert(left.clauses() =~= right.clauses());
    true
}

fn same_vars(left: &Vec<Var>, right: &Vec<Var>) -> (same: bool)
    ensures
        same == (left@ == right@),
{
    if left.len() != right.len() {
        return false;
    }
    let mut i: usize = 0;
    while i < left.len()
        invariant
            i <= left@.len(),
            left@.len() == right@.len(),
            forall|k: int| 0 <= k < i ==> left@[k] == right@[k],
        decreases left.len() - i,
    {
        if left[i] != right[i] {
            return false;
        }
        i += 1;
    }
    assert(left@ =~= right@);
    true
}

fn same_lits(left: &Vec<Lit>, right: &Vec<Lit>) -> (same: bool)
    ensures
        same == (left@ == right@),
{
    if left.len() != right.len() {
        return false;
    }
    let mut i: usize = 0;
    while i < left.len()
        invariant
            i <= left@.len(),
            left@.len() == right@.len(),
            forall|k: int| 0 <= k < i ==> left@[k] == right@[k],
        decreases left.len() - i,
    {
        if left[i] != right[i] {
            return false;
        }
        i += 1;
    }
    assert(left@ =~= right@);
    true
}

/// Where the cube holds, the restricted matrix implies the matrix.
proof fn lemma_applied_up(m: Matrix, n: Matrix, f: Set<Lit>, b: Assignment)
    requires
        forall|l: Lit| #[trigger] f.contains(l) ==> lit_true(b, l),
        applied(m, n, f),
        matrix_true(b, n),
    ensures
        matrix_true(b, m),
{
    assert forall|i: int| 0 <= i < m.len() implies clause_true(b, #[trigger] m[i]) by {
        if hit(m[i], f) {
            let j = choose|j: int| 0 <= j < m[i].len() && f.contains(#[trigger] m[i][j]);
            assert(lit_true(b, m[i][j]));
        } else {
            assert(kept(m[i], n, f));
            let j = choose|j: int| 0 <= j < n.len() && filtered(m[i], #[trigger] n[j], f);
            assert(clause_true(b, n[j]));
            lemma_subclause(b, n[j], m[i]);
        }
    }
}

/// Where the cube holds, the matrix implies the restricted matrix.
proof fn lemma_applied_down(m: Matrix, n: Matrix, f: Set<Lit>, b: Assignment)
    requires
        forall|l: Lit| #[trigger] f.contains(l) ==> lit_true(b, l),
        applied(m, n, f),
        matrix_true(b, m),
    ensures
        matrix_true(b, n),
{
    assert forall|j: int| 0 <= j < n.len() implies clause_true(b, #[trigger] n[j]) by {
        assert(derived(m, n[j], f));
        let i = choose|i: int| 0 <= i < m.len() && !hit(#[trigger] m[i], f) && filtered(m[i], n[j], f);
        assert(clause_true(b, m[i]));
        let k = choose|k: int| 0 <= k < m[i].len() && lit_true(b, #[trigger] m[i][k]);
        if f.contains(m[i][k].neg()) {
            assert(lit_true(b, m[i][k].neg()));
        }
        assert(n[j].contains(m[i][k]));
        let h = choose|h: int| 0 <= h < n[j].len() && n[j][h] == m[i][k];
        assert(lit_true(b, n[j][h]));
    }
}

/// The restricted matrix mentions no variable of the cube.
proof fn lemma_applied_vars(m: Matrix, n: Matrix, cube: Seq<Lit>, f: Set<Lit>, x: Var)
    requires
        forall|l: Lit| #[trigger] f.contains(l) <==> cube.contains(l),
        applied(m, n, f),
        mentions(n, x),
    ensures
        mentions(m, x),
        !clause_mentions(cube, x),
{
    let j = choose|j: int| 0 <= j < n.len() && clause_mentions(#[trigger] n[j], x);
    let k = choose|k: int| 0 <= k < n[j].len() && (#[trigger] n[j][k]).v() == x;
    let l = n[j][k];
    assert(derived(m, n[j], f));
    let i = choose|i: int| 0 <= i < m.len() && !hit(#[trigger] m[i], f) && filtered(m[i], n[j], f);
    assert(m[i].contains(l));
    let h = choose|h: int| 0 <= h < m[i].len() && m[i][h] == l;
    assert(m[i][h].v() == x);
    assert(clause_mentions(m[i], x));
    assert(!f.contains(m[i][h]));
    assert(!f.contains(l.neg()));
    if clause_mentions(cube, x) {
        let g = choose|g: int| 0 <= g < cube.len() && (#[trigger] cube[g]).v() == x;
        assert(cube.contains(cube[g]));
        if cube[g].pos() == l.pos() {
            crate::literal::lemma_lit_ext(cube[g], l);
        } else {
            crate::literal::lemma_lit_ext(cube[g], l.neg());
        }
    }
}

/// Making the literals of a cube true restricts a matrix by the cube.
pub(crate) proof fn lemma_applied_restricts(m: Matrix, n: Matrix, cube: Seq<Lit>, f: Set<Lit>)
    requires
        forall|l: Lit| #[trigger] f.contains(l) <==> cube.contains(l),
        applied(m, n, f),
    ensures
        restricts(m, n, cube),
{
    assert forall|b: Assignment| #[trigger] cube_true(b, cube) implies matrix_true(b, m) == matrix_true(b, n) by {
        assert forall|l: Lit| #[trigger] f.contains(l) implies lit_true(b, l) by {
            let k = choose|k: int| 0 <= k < cube.len() && cube[k] == l;
            assert(lit_true(b, cube[k]));
        }
        if matrix_true(b, n) {
            lemma_applied_up(m, n, f, b);
        }
        if matrix_true(b, m) {
            lemma_applied_down(m, n, f, b);
        }
    }
    assert forall|x: Var| #[trigger] mentions(n, x) implies mentions(m, x) && !clause_mentions(cube, x) by {
        lemma_applied_vars(m, n, cube, f, x);
    }
}

/// The instance restricted by an assignment of the outermost block:
/// satisfied clauses dropped, falsified literals deleted, and the block
/// removed.
fn restrict(qcnf: &QCNF, assignment: &Vec<Lit>) -> (result: QCNF)
    requires
        qcnf.prefix@.len() > 0,
    ensures
        result.blocks() == qcnf.blocks().drop_first(),
        restricts(qcnf.clauses(), result.clauses(), assignment@),
        size_of(result.clauses()) <= size_of(qcnf.clauses()),
{
    let set = LitSet::from_lits(assignment);
    let (matrix, empty) = apply_forced(&qcnf.matrix, &set);
    proof {
        lemma_applied_restricts(qcnf.clauses(), matrix_of(matrix@), assignment@, set@);
    }
    let mut prefix: Vec<(QuantTy, Vec<Var>)> = Vec::new();
    let mut k: usize = 1;
    while k < qcnf.prefix.len()
        invariant
            1 <= k <= qcnf.prefix@.len(),
            prefix@.len() == k - 1,
            forall|i: int| 0 <= i < k - 1 ==> (#[trigger] prefix@[i]).0 == qcnf.prefix@[i + 1].0 && prefix@[i].1@
                == qcnf.prefix@[i + 1].1@,
        decreases qcnf.prefix.len() - k,
    {
        prefix.push((qcnf.prefix[k].0, crate::normal::copy_vars(&qcnf.prefix[k].1)));
        k += 1;
    }
    assert(prefix_of(prefix@) =~= qcnf.blocks().drop_first());
    QCNF { prefix, matrix }
}

/// Where the cube holds, the restricted formula has the value of the
/// formula.
proof fn lemma_restrict_qbf(r: Prefix, m: Matrix, n: Matrix, cube: Seq<Lit>, b: Assignment)
    requires
        restricts(m, n, cube),
        cube_true(b, cube),
        forall|x: Var| #[trigger] clause_mentions(cube, x) ==> !bound(r, x),
    ensures
        qbf(r, m, b) == qbf(r, n, b),
{
    assert forall|c: Assignment| #[trigger] reach(r, b, c) implies matrix_true(c, m) == matrix_true(c, n) by {
        assert forall|i: int| 0 <= i < cube.len() implies lit_true(c, #[trigger] cube[i]) by {
            assert(clause_mentions(cube, cube[i].v()));
            assert(lit_true(b, cube[i]));
            assert(b(cube[i].v()) == c(cube[i].v()));
        }
        assert(cube_true(c, cube));
    }
    if qbf(r, m, b) {
        lemma_mono(r, m, n, b);
    }
    if qbf(r, n, b) {
        lemma_mono(r, n, m, b);
    }
}

/// A restriction by a full assignment of the outermost block has no free
/// variable, and its truth is the value of the formula behind the block.
proof fn lemma_restricted(p: Prefix, m: Matrix, n: Matrix, cube: Seq<Lit>, b: Assignment)
    requires
        p.len() > 0,
        prefix_distinct(p),
        closed_formula(p, m),
        restricts(m, n, cube),
        cube_true(b, cube),
        forall|x: Var| #[trigger] clause_mentions(cube, x) <==> p[0].1.contains(x),
    ensures
        closed_formula(p.drop_first(), n),
        !has_free(p.drop_first(), n),
        prefix_distinct(p.drop_first()),
        formula_true(p.drop_first(), n) == qbf(p.drop_first(), m, b),
{
    let r = p.drop_first();
    lemma_rest_facts(p);
    assert forall|x: Var| #[trigger] mentions(n, x) implies bound(r, x) by {
        assert(mentions(m, x));
        lemma_bound_first(p, x);
    }
    assert forall|x: Var| #[trigger] clause_mentions(cube, x) implies !bound(r, x) by {
        assert(p[0].1.contains(x));
    }
    lemma_restrict_qbf(r, m, n, cube, b);
    lemma_closed_truth(r, n, b);
}

/// The literals of a full candidate are over the block.
proof fn lemma_candidate(vars: Seq<Var>, lits: Seq<Lit>)
    requires
        lits.len() == vars.len(),
        forall|i: int| 0 <= i < vars.len() ==> (#[trigger] lits[i]).v() == vars[i],
    ensures
        forall|x: Var| #[trigger] clause_mentions(lits, x) <==> vars.contains(x),
{
    assert forall|x: Var| #[trigger] clause_mentions(lits, x) <==> vars.contains(x) by {
        if clause_mentions(lits, x) {
            let i = choose|i: int| 0 <= i < lits.len() && (#[trigger] lits[i]).v() == x;
            assert(vars[i] == x);
        }
        if vars.contains(x) {
            let i = choose|i: int| 0 <= i < vars.len() && vars[i] == x;
            assert(lits[i].v() == x);
        }
    }
}

/// Solves an instance without free variables: the verdict, and on an
/// unsatisfiable verdict the refuting assignment of an outermost universal
/// block where one is known.
fn solve_normalized(qcnf: &QCNF, options: Options, cache: &mut Cache) -> (outcome: Outcome)
    requires
        qcnf.wf(),
        closed_formula(qcnf.blocks(), qcnf.clauses()),
        old(cache).wf(),
    ensures
        final(cache).wf(),
        outcome.ok(qcnf.blocks(), qcnf.clauses()),
        qcnf.prefix@.len() <= 2 && in_range(qcnf.blocks(), qcnf.clauses()) ==> outcome.verdict != SolverResult::Unknown,
    decreases qcnf.prefix@.len(), 1nat,
{
    let ghost p = qcnf.blocks();
    let ghost m = qcnf.clauses();
    if qcnf.prefix.len() <= 2 {
        return solve_leaf(qcnf, options);
    }
    let (reduced, fixed) = match simplify(qcnf) {
        None => {
            return Outcome::verdict(SolverResult::Unsatisfiable);
        },
        Some(pair) => pair,
    };
    if reduced.matrix.len() == 0 {
        let done = Rc::new(Strategy::Done);
        proof {
            let zero = |x: Var| false;
            assert(matrix_true(zero, reduced.clauses()));
            lemma_empty_matrix(reduced.blocks(), reduced.clauses(), zero);
            lemma_plays_done(reduced.blocks(), reduced.clauses(), unlimited());
        }
        let strategy = wrap(
            fixed,
            done,
            Ghost(p),
            Ghost(m),
            Ghost(reduced.blocks()),
            Ghost(reduced.clauses()),
            Ghost(unlimited()),
        );
        return Outcome::sat(strategy);
    }
    let simplified = reduced.normalized();
    proof {
        assert(!has_free(reduced.blocks(), reduced.clauses()));
        lemma_simplified_len(p, m, reduced.blocks(), reduced.clauses(), fixed@);
    }
    let inner = if simplified.prefix.len() <= 2 {
        solve_leaf(&simplified, options)
    } else {
        let (known, insert) = cache.probe(&simplified);
        match known {
            Some(known) => known,
            None => {
                let inner = match simplified.prefix[0].0 {
                    QuantTy::Exists => expansion_loop(&simplified, options, cache),
                    QuantTy::Forall => forall_loop(&simplified, options, cache),
                };
                if insert {
                    cache.insert(&simplified, &inner);
                }
                inner
            },
        }
    };
    proof {
        assert forall|b: Bounds| #[trigger] fits(p, m, b) implies fits(simplified.blocks(), simplified.clauses(), b) by {
            lemma_fits_sub(p, m, reduced.blocks(), reduced.clauses(), b);
            let free = choose|free: Seq<Var>| #[trigger]
                free_list(reduced.blocks(), reduced.clauses(), free) && simplified.blocks() == merged(
                    with_block(QuantTy::Exists, free, reduced.blocks()),
                );
            lemma_fits_normal(reduced.blocks(), simplified.blocks(), reduced.clauses(), free, b);
        }
        assert(normal_of(reduced.blocks(), reduced.clauses(), simplified.blocks()));
        assert(shortened(p, m, simplified.blocks(), simplified.clauses()));
    }
    lift(inner, fixed, Ghost(p), Ghost(m), Ghost(reduced.blocks()), Ghost(reduced.clauses()), Ghost(simplified.blocks()))
}

/// A formula with nothing to satisfy is true.
proof fn lemma_empty_matrix(p: Prefix, m: Matrix, a: Assignment)
    requires
        m.len() == 0,
    ensures
        qbf(p, m, a),
        formula_true(p, m),
    decreases p.len(),
{
    if p.len() > 0 {
        let r = p.drop_first();
        assert forall|b: Assignment| #[trigger] agree_off(a, b, p[0].1) implies qbf(r, m, b) by {
            lemma_empty_matrix(r, m, b);
        }
        assert(agree_off(a, a, p[0].1));
    }
    assert(qbf(p, m, a));
}

/// Simplification adds no block.
proof fn lemma_simplified_len(p: Prefix, m: Matrix, r: Prefix, n: Matrix, fixed: Seq<Lit>)
    requires
        simplifies(p, m, r, n, fixed),
    ensures
        r.len() == p.len(),
{
}

/// Prefixes a strategy with the literals a simplification pass forced.
fn wrap(
    fixed: Vec<Lit>,
    strategy: Rc<Strategy>,
    Ghost(p): Ghost<Prefix>,
    Ghost(m): Ghost<Matrix>,
    Ghost(r): Ghost<Prefix>,
    Ghost(n): Ghost<Matrix>,
    Ghost(limit): Ghost<int>,
) -> (result: Rc<Strategy>)
    requires
        simplifies(p, m, r, n, fixed@),
        plays(*strategy, r, n, limit),
        forall|x: Var| #[trigger] bound(p, x) ==> x.id() < limit,
    ensures
        plays(*result, p, m, limit),
{
    if fixed.len() == 0 {
        proof {
            lemma_plays_unfixed(&strategy, p, m, r, n, fixed@, limit);
        }
        strategy
    } else {
        proof {
            lemma_plays_fixed(fixed, strategy, p, m, r, n, limit);
        }
        Rc::new(Strategy::Fixed { assignments: fixed, rest: strategy })
    }
}

/// Carries the outcome of a simplified instance in normal form over to the
/// instance.
fn lift(
    inner: Outcome,
    fixed: Vec<Lit>,
    Ghost(p): Ghost<Prefix>,
    Ghost(m): Ghost<Matrix>,
    Ghost(r): Ghost<Prefix>,
    Ghost(n): Ghost<Matrix>,
    Ghost(s): Ghost<Prefix>,
) -> (outcome: Outcome)
    requires
        inner.ok(s, n),
        p.len() > 2,
        simplifies(p, m, r, n, fixed@),
        formula_true(s, n) == formula_true(r, n),
        formula_true(r, n) == formula_true(p, m),
        forall|x: Var| #[trigger] bound(s, x) <==> bound(r, x) || mentions(n, x),
        forall|q: QuantTy, x: Var| #[trigger] bound_by(s, q, x) ==> bound_by(r, q, x) || (q == QuantTy::Exists && !bound(r, x)),
        forall|b: Bounds| #[trigger] fits(p, m, b) ==> fits(s, n, b),
        step(p, m, s, n),
    ensures
        outcome.ok(p, m),
        outcome.verdict == inner.verdict,
{
    proof {
        if inner.verdict == SolverResult::Unknown {
            lemma_step(p, m, s, n);
        }
        if inner.witness is Some {
            let witness = inner.witness->0@;
            assert forall|i: int| 0 <= i < witness.len() implies bound_by(p, QuantTy::Forall, (#[trigger] witness[i]).v()) by {
                let x = witness[i].v();
                assert(bound_by(s, QuantTy::Forall, x));
                assert(bound_by(r, QuantTy::Forall, x));
            }
        }
    }
    let strategy = match inner.strategy {
        Some(rest) => {
            proof {
                lemma_plays_normalized(&rest, r, s, n, unlimited());
            }
            Some(wrap(fixed, rest, Ghost(p), Ghost(m), Ghost(r), Ghost(n), Ghost(unlimited())))
        },
        None => None,
    };
    Outcome { verdict: inner.verdict, witness: inner.witness, strategy }
}

/// Solves an instance with at most two blocks by the core.
fn solve_leaf(qcnf: &QCNF, options: Options) -> (outcome: Outcome)
    requires
        qcnf.wf(),
        closed_formula(qcnf.blocks(), qcnf.clauses()),
        qcnf.prefix@.len() <= 2,
    ensures
        outcome.ok(qcnf.blocks(), qcnf.clauses()),
        in_range(qcnf.blocks(), qcnf.clauses()) ==> outcome.verdict != SolverResult::Unknown,
{
    let ghost p = qcnf.blocks();
    let ghost m = qcnf.clauses();
    let mut solver = IncDet::from_qcnf_with_options(qcnf, options);
    let verdict = solver.solve();
    proof {
        assert(!has_free(p, m));
        assert forall|b: Bounds| #[trigger] fits(p, m, b) implies in_range(p, m) by {
            lemma_fits_range(p, m, b);
        }
        lemma_shape_len(Seq::empty(), p);
        if verdict == SolverResult::Unknown {
            assert(exhausted(p, m));
            lemma_exhausted(p, m);
        }
    }
    proof {
        if verdict == SolverResult::Unsatisfiable && offers(p, m) {
            solver.lemma_refuting();
        }
    }
    let witness = if verdict == SolverResult::Unsatisfiable && qcnf.prefix.len() > 0 && qcnf.prefix[0].0 == QuantTy::Forall {
        solver.unsat_witness_candidate()
    } else {
        None
    };
    let strategy = if verdict == SolverResult::Satisfiable {
        let model = solver.skolem_model();
        proof {
            lemma_plays_leaf(model, p, m, unlimited());
        }
        Some(Rc::new(Strategy::Leaf(model)))
    } else {
        None
    };
    Outcome { verdict, witness, strategy }
}

/// The cases of a split cover what the clauses of the abstraction exclude.
spec fn excluded(cases: Seq<(Vec<Lit>, Rc<Strategy>)>, domain: Matrix) -> bool {
    forall|a: Assignment| #[trigger] matrix_true(a, domain) == !some_case(cases, a)
}

proof fn lemma_excluded_push(
    cases: Seq<(Vec<Lit>, Rc<Strategy>)>,
    case: (Vec<Lit>, Rc<Strategy>),
    domain: Matrix,
    clause: Seq<Lit>,
)
    requires
        excluded(cases, domain),
        forall|a: Assignment| #[trigger] clause_true(a, clause) == !cube_true(a, case.0@),
    ensures
        excluded(cases.push(case), domain.push(clause)),
{
    let all = cases.push(case);
    assert forall|a: Assignment| #[trigger] matrix_true(a, domain.push(clause)) == !some_case(all, a) by {
        lemma_push_true(a, domain, clause);
        assert(matrix_true(a, domain) == !some_case(cases, a));
        if some_case(cases, a) {
            let i = choose|i: int| 0 <= i < cases.len() && cube_true(a, (#[trigger] cases[i]).0@);
            assert(all[i] == cases[i]);
        }
        if cube_true(a, case.0@) {
            assert(all[cases.len() as int] == case);
        }
        if some_case(all, a) {
            let i = choose|i: int| 0 <= i < all.len() && cube_true(a, (#[trigger] all[i]).0@);
            if i < cases.len() {
                assert(cases[i] == all[i]);
            }
        }
    }
}

/// The loop at an outermost universal block: search for a refuting
/// assignment; every answered candidate is blocked.
#[verifier::loop_isolation(false)]
fn forall_loop(qcnf: &QCNF, options: Options, cache: &mut Cache) -> (outcome: Outcome)
    requires
        qcnf.wf(),
        closed_formula(qcnf.blocks(), qcnf.clauses()),
        qcnf.prefix@.len() > 2,
        qcnf.prefix@[0].0 == QuantTy::Forall,
        old(cache).wf(),
    ensures
        final(cache).wf(),
        outcome.ok(qcnf.blocks(), qcnf.clauses()),
    decreases qcnf.prefix@.len(), 0nat,
{
    let ghost p = qcnf.blocks();
    let ghost m = qcnf.clauses();
    let ghost r = p.drop_first();
    let outer = &qcnf.prefix[0].1;
    let mut alpha = SatSolver::new();
    let mut cases: Vec<(Vec<Lit>, Rc<Strategy>)> = Vec::new();
    let ghost mut restrictions: Seq<Matrix> = Seq::empty();
    let ghost mut tried: Seq<Seq<bool>> = Seq::empty();
    let mut rounds: u32 = 0;
    proof {
        lemma_rest_facts(p);
        assert forall|a: Assignment| #[trigger] matrix_true(a, alpha.clauses()) == !some_case(cases@, a) by {}
    }
    while rounds < MAX_ROUNDS
        invariant
            rounds <= MAX_ROUNDS,
            cache.wf(),
            alpha.wf(),
            tried.len() == rounds,
            tried.no_duplicates(),
            forall|i: int| 0 <= i < tried.len() ==> (#[trigger] tried[i]).len() == outer@.len(),
            untried(alpha.clauses(), outer@, tried),
            forall|i: int| 0 <= i < tried.len() ==> loses(p, m, #[trigger] tried[i]),
            forall|x: Var| #[trigger] mentions(alpha.clauses(), x) ==> outer@.contains(x),
            excluded(cases@, alpha.clauses()),
            restrictions.len() == cases@.len(),
            forall|i: int| 0 <= i < cases@.len() ==> case_ok(#[trigger] cases@[i], restrictions[i], p, m, unlimited()),
            forall|i: int, b: Assignment|
                0 <= i < cases@.len() && #[trigger] cube_true(b, cases@[i].0@) ==> qbf(r, m, b),
        decreases MAX_ROUNDS - rounds,
    {
        rounds += 1;
        let point = match alpha.solve() {
            SatOutcome::OutOfRange => {
                proof {
                    assert forall|b: Bounds| !#[trigger] fits(p, m, b) by {
                        if fits(p, m, b) {
                            assert forall|x: Var| #[trigger] mentions(alpha.clauses(), x) implies x.id() < b.top by {
                                assert(p[0].1.contains(x));
                                assert(bound(p, x));
                            }
                            lemma_below_ok(alpha.clauses(), b.top);
                        }
                    }
                    assert forall|b: Bounds| #[trigger] held(p, m, b) implies b.top > crate::sat::MAX_NUMBER by {
                        if b.top <= crate::sat::MAX_NUMBER {
                            assert forall|x: Var| #[trigger] mentions(alpha.clauses(), x) implies x.id() < b.top by {
                                assert(p[0].1.contains(x));
                                assert(bound(p, x));
                            }
                            lemma_below_ok(alpha.clauses(), b.top);
                        }
                    }
                    assert forall|b: Bounds| #[trigger] held(p, m, b) implies b.top + (tried.len() + 1) * b.vars.len()
                        > crate::sat::MAX_NUMBER by {
                        assert((tried.len() + 1) * b.vars.len() >= 0) by (nonlinear_arith);
                    }
                    lemma_gave_up(p, m, tried, Seq::empty());
                }
                return Outcome::verdict(SolverResult::Unknown);
            },
            SatOutcome::Unsat => {
                // every universal choice is answered
                proof {
                    assert forall|a: Assignment| #[trigger] some_case(cases@, a) by {
                        assert(cube_true(a, Seq::<Lit>::empty()));
                        assert(!matrix_true(a, alpha.clauses()));
                    }
                    lemma_plays_split(cases, restrictions, p, m, unlimited());
                    let zero = |x: Var| false;
                    assert forall|b: Assignment| #[trigger] agree_off(zero, b, p[0].1) implies qbf(r, m, b) by {
                        assert(some_case(cases@, b));
                        let i = choose|i: int| 0 <= i < cases@.len() && cube_true(b, (#[trigger] cases@[i]).0@);
                        assert(cube_true(b, cases@[i].0@));
                    }
                    assert(p[0].0 == QuantTy::Forall);
                    assert(qbf(p, m, zero));
                }
                return Outcome::sat(Rc::new(Strategy::Split { cases }));
            },
            SatOutcome::Sat(lits) => values_of_lits(&lits),
        };
        let candidate = lits_under(outer, &point);
        let ghost here = assignment_of(point@);
        let restricted = restrict(qcnf, &candidate);
        let ghost n = restricted.clauses();
        proof {
            lemma_candidate(outer@, candidate@);
            lemma_restricted(p, m, n, candidate@, here);
            lemma_cube_consistent(here, candidate@);
        }
        let normal = restricted.normalized();
        let outcome = solve_normalized(&normal, options, cache);
        match outcome.verdict {
            SolverResult::Unsatisfiable => {
                // the candidate is a winning universal move, and the
                // expansion witness for the loop above
                proof {
                    let zero = |x: Var| false;
                    let b = overlay(zero, here, p[0].1);
                    assert(agree_off(zero, b, p[0].1));
                    assert forall|i: int| 0 <= i < candidate@.len() implies lit_true(b, #[trigger] candidate@[i]) by {
                        assert(clause_mentions(candidate@, candidate@[i].v()));
                        assert(lit_true(here, candidate@[i]));
                    }
                    lemma_restricted(p, m, n, candidate@, b);
                    assert(!qbf(r, m, b));
                    assert(p[0].0 == QuantTy::Forall);
                    assert(!qbf(p, m, zero));
                    lemma_closed_truth(p, m, zero);
                    assert forall|i: int| 0 <= i < candidate@.len() implies bound_by(p, QuantTy::Forall, (#[trigger] candidate@[i]).v()) by {
                        let x = candidate@[i].v();
                        assert(clause_mentions(candidate@, x));
                        assert(p[0].0 == QuantTy::Forall && p[0].1.contains(x));
                    }
                }
                return Outcome { verdict: SolverResult::Unsatisfiable, witness: Some(candidate), strategy: None };
            },
            SolverResult::Unknown => {
                proof {
                    lemma_fits_under(p, m, n, normal, candidate@);
                    assert(settles(p, candidate@));
                    assert(normal_of(r, n, normal.blocks()));
                    assert(entered(p, m, normal.blocks(), n));
                    lemma_step(p, m, normal.blocks(), n);
                }
                return Outcome::verdict(SolverResult::Unknown);
            },
            SolverResult::Satisfiable => {
                if let Some(sub) = outcome.strategy {
                    let clause = negate(&candidate);
                    let ghost before = alpha.clauses();
                    let ghost old_cases = cases@;
                    alpha.add_clause(&clause);
                    proof {
                        lemma_untried(before, outer@, tried, candidate@, clause@, here);
                        assert(settles(p, candidate@));
                        assert forall|a: Assignment| #[trigger] cube_true(a, candidate@) implies qbf(r, m, a) by {
                            lemma_restricted(p, m, n, candidate@, a);
                        }
                        lemma_loses(p, m, candidate@, here);
                        tried = tried.push(signs(here, outer@));
                        assert forall|x: Var| #[trigger] mentions(alpha.clauses(), x) implies outer@.contains(x) by {
                            crate::qcnf::lemma_matrix_push(before, clause@, x);
                            if clause_mentions(clause@, x) {
                                let k = choose|k: int| 0 <= k < clause@.len() && (#[trigger] clause@[k]).v() == x;
                                assert(clause@[k] == candidate@[k].neg());
                                assert(outer@[k] == x);
                            }
                        }
                    }
                    cases.push((candidate, sub));
                    proof {
                        let case = cases@[old_cases.len() as int];
                        lemma_plays_normalized(&sub, r, normal.blocks(), n, unlimited());
                        assert(case_ok(case, n, p, m, unlimited()));
                        lemma_excluded_push(old_cases, case, before, clause@);
                        let old_restrictions = restrictions;
                        restrictions = restrictions.push(n);
                        assert forall|i: int| 0 <= i < cases@.len() implies case_ok(
                            #[trigger] cases@[i],
                            restrictions[i],
                            p,
                            m,
                            unlimited(),
                        ) by {
                            if i < old_cases.len() {
                                assert(cases@[i] == old_cases[i]);
                                assert(restrictions[i] == old_restrictions[i]);
                            }
                        }
                        assert forall|i: int, b: Assignment|
                            0 <= i < cases@.len() && #[trigger] cube_true(b, cases@[i].0@) implies qbf(r, m, b) by {
                            if i < old_cases.len() {
                                assert(cases@[i] == old_cases[i]);
                                assert(cube_true(b, old_cases[i].0@));
                            } else {
                                lemma_restricted(p, m, n, candidate@, b);
                            }
                        }
                    }
                }
            },
        }
    }
    proof {
        assert forall|b: Bounds| !#[trigger] fits(p, m, b) by {
            if fits(p, m, b) {
                lemma_rounds(p, m, b, tried);
            }
        }
        lemma_gave_up(p, m, tried, Seq::empty());
    }
    Outcome::verdict(SolverResult::Unknown)
}

/// A winning position can be played on with given moves of the universal
/// player.
proof fn lemma_has_model_with(p: Prefix, m: Matrix, g: Seq<Lit>, a: Assignment) -> (b: Assignment)
    requires
        qbf(p, m, a),
        consistent(g),
        crate::reduction::forcible(p, QuantTy::Forall, g, a),
    ensures
        reach(p, a, b),
        matrix_true(b, m),
        cube_true(b, g),
    decreases p.len(),
{
    if p.len() == 0 {
        assert forall|i: int| 0 <= i < g.len() implies lit_true(a, #[trigger] g[i]) by {
            assert(!bound(p, g[i].v()));
        }
        a
    } else {
        let vs = p[0].1;
        let r = p.drop_first();
        let b = match p[0].0 {
            QuantTy::Forall => crate::reduction::forced_on(a, g, vs),
            QuantTy::Exists => choose|b: Assignment| #[trigger] agree_off(a, b, vs) && qbf(r, m, b),
        };
        crate::reduction::lemma_forced_on(a, g, vs);
        assert(agree_off(a, b, vs));
        assert(qbf(r, m, b));
        assert forall|i: int| 0 <= i < g.len() implies bound_only_by(r, QuantTy::Forall, (#[trigger] g[i]).v()) && (!bound(
            r,
            g[i].v(),
        ) ==> lit_true(b, g[i])) by {
            let x = g[i].v();
            lemma_bound_first(p, x);
            crate::reduction::lemma_only_rest(p, QuantTy::Forall, x);
            if vs.contains(x) {
                assert(p[0].1.contains(x));
                assert(p[0].0 == QuantTy::Forall);
            } else {
                assert(a(x) == b(x));
            }
        }
        let c = lemma_has_model_with(r, m, g, b);
        lemma_reach_step(p, a, b, c);
        c
    }
}

/// `b` plays the copies of `origs`, numbered from `base` on, as `c` plays
/// the originals, and the variables before them as `a`.
spec fn copy_of(b: Assignment, a: Assignment, c: Assignment, base: int, origs: Seq<Var>) -> bool {
    &&& forall|x: Var| x.id() < base ==> #[trigger] b(x) == a(x)
    &&& forall|x: Var| base <= x.id() < base + origs.len() ==> #[trigger] b(x) == c(origs[x.id() - base])
}

/// The clauses hold for every copy of a model of the matrix that takes the
/// assigned literals and agrees on the outer variables.
spec fn copies_hold(n: Matrix, m: Matrix, outer: Seq<Var>, assigned: Set<Lit>, base: int, origs: Seq<Var>) -> bool {
    forall|a: Assignment, b: Assignment, c: Assignment|
        #![trigger copy_of(b, a, c, base, origs), matrix_true(c, m)]
        matrix_true(c, m) && copy_of(b, a, c, base, origs) && (forall|l: Lit| #[trigger] assigned.contains(l) ==> lit_true(c, l))
            && (forall|x: Var| outer.contains(x) ==> #[trigger] a(x) == c(x)) ==> matrix_true(b, n)
}

/// All variables of the clauses are below the bound.
spec fn below(n: Matrix, bound: int) -> bool {
    forall|x: Var| #[trigger] mentions(n, x) ==> x.id() < bound
}

/// The assigned literals falsify the clause.
spec fn falsified(c: Seq<Lit>, assigned: Set<Lit>) -> bool {
    forall|k: int| 0 <= k < c.len() ==> !assigned.contains(#[trigger] c[k]) && assigned.contains(c[k].neg())
}

/// One of the first clauses is falsified.
spec fn some_falsified(m: Matrix, assigned: Set<Lit>, count: int) -> bool
    decreases count,
{
    count > 0 && (some_falsified(m, assigned, count - 1) || falsified(m[count - 1], assigned))
}

/// Variables of the clauses that are not outer ones, each once.
spec fn inner_vars(m: Matrix, outer: Seq<Var>, vars: Seq<Var>) -> bool {
    &&& vars.no_duplicates()
    &&& forall|i: int| 0 <= i < vars.len() ==> mentions(m, #[trigger] vars[i]) && !outer.contains(vars[i])
}

proof fn lemma_inner_push(m: Matrix, outer: Seq<Var>, vars: Seq<Var>, x: Var)
    requires
        inner_vars(m, outer, vars),
        mentions(m, x),
        !outer.contains(x),
        !vars.contains(x),
    ensures
        inner_vars(m, outer, vars.push(x)),
        forall|y: Var| #[trigger] vars.push(x).contains(y) <==> vars.contains(y) || y == x,
{
    let all = vars.push(x);
    assert forall|i: int, j: int| 0 <= i < all.len() && 0 <= j < all.len() && i != j implies all[i] != all[j] by {
        if i == vars.len() {
            assert(vars.contains(vars[j]));
        } else if j == vars.len() {
            assert(vars.contains(vars[i]));
        }
    }
    assert forall|i: int| 0 <= i < all.len() implies mentions(m, #[trigger] all[i]) && !outer.contains(all[i]) by {
        if i < vars.len() {
            assert(all[i] == vars[i]);
        }
    }
    assert forall|y: Var| #[trigger] all.contains(y) <==> vars.contains(y) || y == x by {
        crate::datastructure::lemma_push_contains(vars, x, y);
    }
}

proof fn lemma_size_take(m: Matrix, k: int)
    requires
        0 <= k <= m.len(),
    ensures
        size_of(m.take(k)) <= size_of(m),
    decreases m.len(),
{
    if k == m.len() {
        assert(m.take(k) =~= m);
    } else {
        lemma_size_take(m.drop_last(), k);
        assert(m.drop_last().take(k) =~= m.take(k));
    }
}

/// Adds one copy of the matrix restricted by `assigned` to the
/// abstraction: outer literals stay shared, every other variable gets a
/// fresh copy. Returns whether a clause is falsified by the restriction
/// alone, or `None` when the fresh variables run out.
#[verifier::loop_isolation(false)]
#[verifier::rlimit(80)]
fn add_relaxed_copy(
    alpha: &mut SatSolver,
    qcnf: &QCNF,
    outer: &Vec<Var>,
    outer_set: &VarSet,
    assigned: &LitSet,
    next: &mut u32,
    added: &mut usize,
) -> (result: Option<bool>)
    requires
        old(alpha).wf(),
        forall|x: Var| #[trigger] outer_set@.contains(x) <==> outer@.contains(x),
        forall|x: Var| #[trigger] outer@.contains(x) ==> x.id() < *old(next),
        below(old(alpha).clauses(), *old(next) as int),
    ensures
        final(alpha).wf(),
        *final(next) >= *old(next),
        result is Some ==> exists|n: Matrix, origs: Seq<Var>|
            final(alpha).clauses() == old(alpha).clauses() + n && *final(next) == *old(next) + origs.len() && inner_vars(
                qcnf.clauses(),
                outer@,
                origs,
            ) && #[trigger] copies_hold(n, qcnf.clauses(), outer@, assigned@, *old(next) as int, origs) && copies_force(
                n,
                qcnf.clauses(),
                outer@,
                assigned@,
                *old(next) as int,
                origs,
            ) && apart(origs, assigned@),
        result is Some ==> below(final(alpha).clauses(), *final(next) as int),
        result == Some(true) ==> final(alpha).clauses().contains(Seq::empty()),
        result matches Some(falsified) ==> falsified == some_falsified(qcnf.clauses(), assigned@, qcnf.clauses().len() as int),
        *final(added) <= *old(added) + size_of(qcnf.clauses()),
        result is None ==> exists|origs: Seq<Var>| #[trigger]
            inner_vars(qcnf.clauses(), outer@, origs) && *old(next) + origs.len() > MAX_INDEX,
{
    let ghost m = qcnf.clauses();
    let ghost before = alpha.clauses();
    let ghost base = *next as int;
    let ghost mut origs: Seq<Var> = Seq::empty();
    let ghost mut n: Matrix = Seq::empty();
    let mut rename: VarMap<Var> = VarMap::new();
    let mut empty_added = false;
    let mut i: usize = 0;
    let ghost counted = *added as int;
    proof {
        assert(before + n =~= before);
        assert(m.take(0) =~= Matrix::empty());
        assert forall|k: int| 0 <= k <= m.len() implies size_of(#[trigger] m.take(k)) <= size_of(m) by {
            lemma_size_take(m, k);
        }
    }
    while i < qcnf.matrix.len()
        invariant
            i <= qcnf.matrix@.len(),
            alpha.wf(),
            alpha.clauses() == before + n,
            *next == base + origs.len(),
            below(alpha.clauses(), *next as int),
            copies_hold(n, m, outer@, assigned@, base, origs),
            copies_force(n, m.take(i as int), outer@, assigned@, base, origs),
            apart(origs, assigned@),
            forall|x: Var| #[trigger] rename@.contains_key(x) ==> base <= rename@[x].id() < *next && origs[rename@[x].id() - base]
                == x,
            empty_added ==> alpha.clauses().contains(Seq::empty()),
            empty_added == some_falsified(m, assigned@, i as int),
            *added <= counted + size_of(m.take(i as int)),
            inner_vars(m, outer@, origs),
            forall|x: Var| #[trigger] origs.contains(x) ==> rename@.contains_key(x),
        decreases qcnf.matrix.len() - i,
    {
        let clause = &qcnf.matrix[i];
        let ghost c0 = m[i as int];
        let mut satisfied = false;
        let mut lits: Vec<Lit> = Vec::new();
        let mut j: usize = 0;
        while j < clause.len() && !satisfied
            invariant
                j <= clause@.len(),
                clause@ == c0,
                *next == base + origs.len(),
                forall|x: Var| #[trigger] rename@.contains_key(x) ==> base <= rename@[x].id() < *next && origs[rename@[x].id() - base]
                    == x,
                below(alpha.clauses(), *next as int),
                copies_hold(n, m, outer@, assigned@, base, origs),
                copies_force(n, m.take(i as int), outer@, assigned@, base, origs),
                apart(origs, assigned@),
                forall|k: int| 0 <= k < lits@.len() ==> maps_from(#[trigger] lits@[k], c0, outer@, base, origs),
                forall|k: int| 0 <= k < lits@.len() ==> (#[trigger] lits@[k]).v().id() < *next,
                inner_vars(m, outer@, origs),
                lits@.len() <= j,
                forall|x: Var| #[trigger] origs.contains(x) ==> rename@.contains_key(x),
                !satisfied ==> forall|k: int| 0 <= k < j ==> !assigned@.contains(#[trigger] c0[k]),
                !satisfied && lits@.len() == 0 ==> forall|k: int| 0 <= k < j ==> assigned@.contains((#[trigger] c0[k]).neg()),
                lits@.len() > 0 ==> exists|k: int| 0 <= k < j && !assigned@.contains((#[trigger] c0[k]).neg()),
                !satisfied ==> forall|k: int| 0 <= k < j ==> assigned@.contains((#[trigger] c0[k]).neg()) || maps_to(
                    c0[k],
                    lits@,
                    outer@,
                    base,
                    origs,
                ),
                satisfied ==> exists|k: int| 0 <= k < c0.len() && assigned@.contains(#[trigger] c0[k]),
            decreases clause.len() - j,
        {
            let lit = clause[j];
            let ghost old_lits = lits@;
            let ghost old_origs = origs;
            let ghost old_next = *next;
            if assigned.contains(lit) {
                satisfied = true;
                assert(assigned@.contains(c0[j as int]));
            } else if !assigned.contains(lit.negated()) {
                let var = lit.var();
                let mapped = if outer_set.contains(var) {
                    lit
                } else {
                    let fresh = match rename.get(var) {
                        Some(fresh) => fresh,
                        None => {
                            if *next > MAX_INDEX {
                                assert(inner_vars(m, outer@, origs) && base + origs.len() > MAX_INDEX);
                                return None;
                            }
                            proof {
                                assert(clause_mentions(c0, c0[j as int].v()));
                                assert(m[i as int] == c0);
                                assert(mentions(m, var));
                                lemma_inner_push(m, outer@, origs, var);
                            }
                            let fresh = Var::from_index(*next);
                            *next = *next + 1;
                            proof {
                                lemma_apart_push(origs, assigned@, lit);
                                origs = origs.push(var);
                            }
                            rename.insert(var, fresh);
                            fresh
                        },
                    };
                    Lit::from_var(fresh, lit.is_positive())
                };
                lits.push(mapped);
                proof {
                    assert(origs.take(old_origs.len() as int) =~= old_origs);
                    lemma_copies_grow(n, m, outer@, assigned@, base, old_origs, origs);
                    lemma_force_grow(n, m.take(i as int), outer@, assigned@, base, old_origs, origs);
                    assert forall|k: int| 0 <= k < lits@.len() implies maps_from(#[trigger] lits@[k], c0, outer@, base, origs) by {
                        if k < old_lits.len() {
                            assert(lits@[k] == old_lits[k]);
                            assert(maps_from(old_lits[k], c0, outer@, base, old_origs));
                            let h = choose|h: int| 0 <= h < c0.len() && image(#[trigger] c0[h], old_lits[k], outer@, base, old_origs);
                            assert(image(c0[h], lits@[k], outer@, base, origs));
                        } else {
                            assert(image(c0[j as int], lits@[k], outer@, base, origs));
                        }
                    }
                    assert forall|k: int| 0 <= k < j + 1 implies assigned@.contains((#[trigger] c0[k]).neg()) || maps_to(
                        c0[k],
                        lits@,
                        outer@,
                        base,
                        origs,
                    ) by {
                        if k < j {
                            if !assigned@.contains(c0[k].neg()) {
                                lemma_maps_grow(c0[k], old_lits, lits@, outer@, base, old_origs, origs);
                            }
                        } else {
                            assert(lits@[old_lits.len() as int] == mapped);
                            assert(image(c0[k], mapped, outer@, base, origs));
                        }
                    }
                }
            }
            j += 1;
        }
        proof {
            assert(m.take(i as int + 1) =~= m.take(i as int).push(c0));
            crate::simplify::lemma_size_push(m.take(i as int), c0);
            assert(falsified(c0, assigned@) == (!satisfied && lits@.len() == 0));
            assert(some_falsified(m, assigned@, i as int + 1) == (some_falsified(m, assigned@, i as int) || falsified(c0, assigned@)));
            if satisfied {
                lemma_force_satisfied(n, m.take(i as int), c0, outer@, assigned@, base, origs);
            } else {
                lemma_force_clause(n, m.take(i as int), c0, lits@, outer@, assigned@, base, origs);
            }
        }
        if !satisfied {
            let size = lits.len();
            *added = added.saturating_add(size).saturating_add(1);
            let ghost old_n = n;
            let ghost d = lits@;
            let ghost old_clauses = alpha.clauses();
            alpha.add_clause(&lits);
            if size == 0 {
                empty_added = true;
            }
            proof {
                n = n.push(d);
                assert(alpha.clauses() =~= before + n);
                lemma_copy_clause(old_n, m, c0, d, i as int, outer@, assigned@, base, origs);
                assert forall|x: Var| #[trigger] mentions(alpha.clauses(), x) implies x.id() < *next by {
                    crate::qcnf::lemma_matrix_push(old_clauses, d, x);
                    if clause_mentions(d, x) {
                        let k = choose|k: int| 0 <= k < d.len() && (#[trigger] d[k]).v() == x;
                    }
                }
                if empty_added {
                    if size == 0 {
                        assert(d =~= Seq::empty());
                        assert(alpha.clauses()[old_clauses.len() as int] == Seq::<Lit>::empty());
                    } else {
                        let k = choose|k: int| 0 <= k < old_clauses.len() && old_clauses[k] == Seq::<Lit>::empty();
                        assert(alpha.clauses()[k] == Seq::<Lit>::empty());
                    }
                }
            }
        }
        i += 1;
    }
    assert(m.take(m.len() as int) =~= m);
    assert(copies_hold(n, m, outer@, assigned@, base, origs));
    Some(empty_added)
}

/// Where the clauses hold, so does the matrix for the values of the copies:
/// the outer variables and the assigned literals as they are, the others as
/// their copies.
spec fn copies_force(n: Matrix, m: Matrix, outer: Seq<Var>, assigned: Set<Lit>, base: int, origs: Seq<Var>) -> bool {
    forall|b: Assignment, c: Assignment|
        #![trigger copy_of(b, b, c, base, origs), matrix_true(b, n)]
        matrix_true(b, n) && copy_of(b, b, c, base, origs) && (forall|l: Lit| #[trigger] assigned.contains(l) ==> lit_true(c, l)) && (forall|
            x: Var,
        |
            outer.contains(x) ==> #[trigger] b(x) == c(x)) ==> matrix_true(c, m)
}

proof fn lemma_force_grow(n: Matrix, m: Matrix, outer: Seq<Var>, assigned: Set<Lit>, base: int, origs: Seq<Var>, longer: Seq<Var>)
    requires
        copies_force(n, m, outer, assigned, base, origs),
        longer.len() >= origs.len(),
        longer.take(origs.len() as int) == origs,
    ensures
        copies_force(n, m, outer, assigned, base, longer),
{
    assert(forall|i: int| 0 <= i < origs.len() ==> longer[i] == longer.take(origs.len() as int)[i]);
    assert forall|b: Assignment, c: Assignment|
        #![trigger copy_of(b, b, c, base, longer), matrix_true(b, n)]
        matrix_true(b, n) && copy_of(b, b, c, base, longer) && (forall|l: Lit| #[trigger] assigned.contains(l) ==> lit_true(c, l)) && (forall|
            x: Var,
        |
            outer.contains(x) ==> #[trigger] b(x) == c(x)) implies matrix_true(c, m) by {
        assert(copy_of(b, b, c, base, origs));
    }
}

proof fn lemma_force_satisfied(n: Matrix, m: Matrix, c0: Seq<Lit>, outer: Seq<Var>, assigned: Set<Lit>, base: int, origs: Seq<Var>)
    requires
        copies_force(n, m, outer, assigned, base, origs),
        exists|k: int| 0 <= k < c0.len() && assigned.contains(#[trigger] c0[k]),
    ensures
        copies_force(n, m.push(c0), outer, assigned, base, origs),
{
    let k = choose|k: int| 0 <= k < c0.len() && assigned.contains(#[trigger] c0[k]);
    assert forall|b: Assignment, c: Assignment|
        #![trigger copy_of(b, b, c, base, origs), matrix_true(b, n)]
        matrix_true(b, n) && copy_of(b, b, c, base, origs) && (forall|l: Lit| #[trigger] assigned.contains(l) ==> lit_true(c, l)) && (forall|
            x: Var,
        |
            outer.contains(x) ==> #[trigger] b(x) == c(x)) implies matrix_true(c, m.push(c0)) by {
        assert(lit_true(c, c0[k]));
        lemma_push_true(c, m, c0);
    }
}

/// The literal is the image of one of the clause.
spec fn maps_from(mapped: Lit, c0: Seq<Lit>, outer: Seq<Var>, base: int, origs: Seq<Var>) -> bool {
    exists|k: int| 0 <= k < c0.len() && image(#[trigger] c0[k], mapped, outer, base, origs)
}

proof fn lemma_force_clause(n: Matrix, m: Matrix, c0: Seq<Lit>, d: Seq<Lit>, outer: Seq<Var>, assigned: Set<Lit>, base: int, origs: Seq<Var>)
    requires
        copies_force(n, m, outer, assigned, base, origs),
        forall|k: int| 0 <= k < d.len() ==> maps_from(#[trigger] d[k], c0, outer, base, origs),
    ensures
        copies_force(n.push(d), m.push(c0), outer, assigned, base, origs),
{
    assert forall|b: Assignment, c: Assignment|
        #![trigger copy_of(b, b, c, base, origs), matrix_true(b, n.push(d))]
        matrix_true(b, n.push(d)) && copy_of(b, b, c, base, origs) && (forall|l: Lit| #[trigger] assigned.contains(l) ==> lit_true(c, l)) && (forall|
            x: Var,
        |
            outer.contains(x) ==> #[trigger] b(x) == c(x)) implies matrix_true(c, m.push(c0)) by {
        lemma_push_true(b, n, d);
        lemma_push_true(c, m, c0);
        let h = choose|h: int| 0 <= h < d.len() && lit_true(b, #[trigger] d[h]);
        assert(maps_from(d[h], c0, outer, base, origs));
        let k = choose|k: int| 0 <= k < c0.len() && image(#[trigger] c0[k], d[h], outer, base, origs);
        let x = c0[k].v();
        if outer.contains(x) {
            assert(b(x) == c(x));
        } else {
            let f = d[h].v();
            assert(b(f) == c(origs[f.id() - base]));
        }
        assert(lit_true(c, c0[k]));
    }
}

/// The copied variables are none of the assigned ones.
spec fn apart(origs: Seq<Var>, assigned: Set<Lit>) -> bool {
    forall|i: int, l: Lit| 0 <= i < origs.len() && #[trigger] assigned.contains(l) ==> #[trigger] origs[i] != l.v()
}

proof fn lemma_apart_push(origs: Seq<Var>, assigned: Set<Lit>, lit: Lit)
    requires
        apart(origs, assigned),
        !assigned.contains(lit),
        !assigned.contains(lit.neg()),
    ensures
        apart(origs.push(lit.v()), assigned),
{
    let all = origs.push(lit.v());
    assert forall|i: int, l: Lit| 0 <= i < all.len() && #[trigger] assigned.contains(l) implies #[trigger] all[i] != l.v() by {
        if i < origs.len() {
            assert(origs[i] != l.v());
        } else if l.v() == lit.v() {
            if l.pos() == lit.pos() {
                crate::literal::lemma_lit_ext(l, lit);
            } else {
                crate::literal::lemma_lit_ext(l, lit.neg());
            }
        }
    }
}

/// Every solution of the clauses can answer the move with its values for
/// the outermost block.
spec fn answerable_under(domain: Matrix, p: Prefix, m: Matrix, play: Seq<Lit>) -> bool {
    forall|a: Assignment| #[trigger] matrix_true(a, domain) ==> answers(p, m, signs(a, p[0].1), play)
}

/// A copy of the matrix under a move leaves the move answerable.
proof fn lemma_answerable_under(
    p: Prefix,
    m: Matrix,
    domain: Matrix,
    n: Matrix,
    base: int,
    origs: Seq<Var>,
    play: Seq<Lit>,
    assigned: Set<Lit>,
)
    requires
        0 <= base,
        base + origs.len() <= u32::MAX,
        copies_force(n, m, p[0].1, assigned, base, origs),
        inner_vars(m, p[0].1, origs),
        apart(origs, assigned),
        consistent(play),
        forall|l: Lit| #[trigger] assigned.contains(l) <==> play.contains(l),
        forall|i: int| 0 <= i < play.len() ==> !p[0].1.contains((#[trigger] play[i]).v()),
    ensures
        answerable_under(domain + n, p, m, play),
{
    let outer = p[0].1;
    assert forall|b: Assignment| #[trigger] matrix_true(b, domain + n) implies answers(p, m, signs(b, outer), play) by {
        crate::incremental::lemma_concat_true(b, domain, n);
        let c = |x: Var|
            if outer.contains(x) {
                b(x)
            } else if origs.contains(x) {
                b(crate::literal::var_of(base + origs.index_of(x) + 1))
            } else {
                clause_mentions(play, x) && play[choose|j: int| 0 <= j < play.len() && (#[trigger] play[j]).v() == x].pos()
            };
        assert forall|x: Var| base <= x.id() < base + origs.len() implies #[trigger] b(x) == c(origs[x.id() - base]) by {
            let k = x.id() - base;
            let y = origs[k];
            assert(!outer.contains(y));
            assert(origs.contains(y));
            assert(origs.index_of(y) == k);
            crate::literal::lemma_var_index(base + k);
            crate::literal::lemma_var_ext(x, crate::literal::var_of(base + k + 1));
        }
        assert forall|i: int| 0 <= i < play.len() implies lit_true(c, #[trigger] play[i]) by {
            let x = play[i].v();
            assert(!outer.contains(x));
            assert(play.contains(play[i]));
            assert(assigned.contains(play[i]));
            if origs.contains(x) {
                let k = choose|k: int| 0 <= k < origs.len() && origs[k] == x;
                assert(origs[k] != play[i].v());
            }
            assert(clause_mentions(play, x));
            let j = choose|j: int| 0 <= j < play.len() && (#[trigger] play[j]).v() == x;
            assert(play[i].v() == play[j].v());
        }
        assert forall|l: Lit| #[trigger] assigned.contains(l) implies lit_true(c, l) by {
            let i = choose|i: int| 0 <= i < play.len() && play[i] == l;
            assert(lit_true(c, play[i]));
        }
        assert(copy_of(b, b, c, base, origs));
        assert(matrix_true(c, m));
        assert(signs(c, outer) =~= signs(b, outer)) by {
            assert forall|i: int| 0 <= i < outer.len() implies c(outer[i]) == b(outer[i]) by {
                assert(outer.contains(outer[i]));
            }
        }
        assert(cube_true(c, play));
    }
}

proof fn lemma_answerable_under_more(domain: Matrix, more: Matrix, p: Prefix, m: Matrix, play: Seq<Lit>)
    requires
        answerable_under(domain, p, m, play),
    ensures
        answerable_under(domain + more, p, m, play),
{
    assert forall|a: Assignment| #[trigger] matrix_true(a, domain + more) implies answers(p, m, signs(a, p[0].1), play) by {
        crate::incremental::lemma_concat_true(a, domain, more);
    }
}

/// All moves but the last are answerable.
spec fn all_answerable(domain: Matrix, p: Prefix, m: Matrix, moves: Seq<Option<Seq<Lit>>>, count: int) -> bool {
    forall|j: int| 0 <= j < count && (#[trigger] moves[j]) is Some ==> answerable_under(domain, p, m, moves[j]->0)
}

proof fn lemma_all_answerable_more(domain: Matrix, more: Matrix, p: Prefix, m: Matrix, moves: Seq<Option<Seq<Lit>>>, count: int)
    requires
        all_answerable(domain, p, m, moves, count),
    ensures
        all_answerable(domain + more, p, m, moves, count),
{
    assert forall|j: int| 0 <= j < count && (#[trigger] moves[j]) is Some implies answerable_under(domain + more, p, m, moves[j]->0) by {
        lemma_answerable_under_more(domain, more, p, m, moves[j]->0);
    }
}

/// One more candidate that answers the moves so far, and the move that
/// refuted it.
proof fn lemma_learn(
    domain: Matrix,
    p: Prefix,
    m: Matrix,
    tried: Seq<Seq<bool>>,
    moves: Seq<Option<Seq<Lit>>>,
    here: Assignment,
    play: Option<Seq<Lit>>,
)
    requires
        learnt(p, m, tried, moves),
        all_answerable(domain, p, m, moves, moves.len() as int),
        matrix_true(here, domain),
        three_blocks(p) ==> play is Some && !answers(p, m, signs(here, p[0].1), play->0),
    ensures
        learnt(p, m, tried.push(signs(here, p[0].1)), moves.push(play)),
        all_answerable(domain, p, m, moves.push(play), moves.len() as int),
{
    let (all, more) = (tried.push(signs(here, p[0].1)), moves.push(play));
    assert forall|j: int| 0 <= j < moves.len() && (#[trigger] more[j]) is Some implies answerable_under(domain, p, m, more[j]->0) by {
        assert(more[j] == moves[j]);
    }
    assert forall|i: int, j: int| 0 <= j < i < all.len() && (#[trigger] more[j]) is Some implies answers(p, m, #[trigger] all[i], more[j]->0) by {
        assert(more[j] == moves[j]);
        if i < tried.len() {
            assert(all[i] == tried[i]);
        } else {
            assert(answerable_under(domain, p, m, moves[j]->0));
        }
    }
    if three_blocks(p) {
        assert forall|j: int| 0 <= j < all.len() implies (#[trigger] more[j]) is Some && !answers(p, m, all[j], more[j]->0) by {
            if j < moves.len() {
                assert(more[j] == moves[j]);
                assert(all[j] == tried[j]);
            }
        }
    }
}

/// What remains of three blocks is refuted by a move.
#[verifier::rlimit(40)]
proof fn lemma_offers(p: Prefix, n: Matrix, normal: Prefix)
    requires
        three_blocks(p),
        forall|x: Var| #[trigger] mentions(n, x) ==> bound(p.drop_first(), x),
        exists|free: Seq<Var>| #[trigger]
            free_list(p.drop_first(), n, free) && normal == merged(with_block(QuantTy::Exists, free, p.drop_first())),
    ensures
        offers(normal, n),
{
    let r = p.drop_first();
    let free = choose|free: Seq<Var>| #[trigger] free_list(r, n, free) && normal == merged(with_block(QuantTy::Exists, free, r));
    assert(free.len() == 0) by {
        if free.len() > 0 {
            assert(free.contains(free[0]));
        }
    }
    let closed = with_block(QuantTy::Exists, free, r);
    let (one, two) = (closed.drop_last(), closed.drop_last().drop_last());
    assert(r[0] == p[1] && r[1] == p[2]);
    assert(closed.len() == 3 && one.len() == 2 && two.len() == 1);
    assert(closed[0] == (QuantTy::Exists, free) && closed[1] == p[1] && closed[2] == p[2]);
    assert(two.last() == closed[0] && one.last() == closed[1] && closed.last() == closed[2]);
    assert(merged(two.drop_last()) =~= Seq::empty());
    assert(merged(two) =~= Seq::empty());
    assert(merged(one) =~= seq![(p[1].0, p[1].1)]);
    assert(normal =~= seq![(p[1].0, p[1].1), (p[2].0, p[2].1)]);
    assert(!has_free(normal, n)) by {
        assert forall|x: Var| #[trigger] mentions(n, x) implies bound(normal, x) by {
            let k = choose|k: int| 0 <= k < r.len() && (#[trigger] r[k]).1.contains(x);
            assert(normal[k].1.contains(x));
        }
    }
    let none = Seq::<QuantTy>::empty();
    let few = normal.drop_last();
    assert(few.len() == 1 && few.last() == normal[0] && normal.last() == normal[1]);
    assert(crate::normal::shape_after(none, few.drop_last()) == none);
    assert(crate::normal::shape_after(none, few) =~= seq![QuantTy::Forall]);
    assert(shape(normal, n) =~= seq![QuantTy::Forall, QuantTy::Exists]);
}

/// A candidate cannot answer a move that refutes what remains under it.
proof fn lemma_unanswered(p: Prefix, m: Matrix, n: Matrix, candidate: Seq<Lit>, here: Assignment, play: Seq<Lit>)
    requires
        settles(p, candidate),
        cube_true(here, candidate),
        restricts(m, n, candidate),
        forall|a: Assignment| #[trigger] cube_true(a, play) ==> !matrix_true(a, n),
    ensures
        !answers(p, m, signs(here, p[0].1), play),
{
    if answers(p, m, signs(here, p[0].1), play) {
        let a = choose|a: Assignment| #[trigger] matrix_true(a, m) && signs(a, p[0].1) == signs(here, p[0].1) && cube_true(a, play);
        assert forall|i: int| 0 <= i < candidate.len() implies lit_true(a, #[trigger] candidate[i]) by {
            assert(lit_true(here, candidate[i]));
            assert(signs(a, p[0].1)[i] == signs(here, p[0].1)[i]);
        }
        assert(cube_true(a, candidate));
    }
}

/// Every solution of the clauses leaves the matrix satisfiable with its
/// values for the outermost block.
spec fn answerable(domain: Matrix, p: Prefix, m: Matrix) -> bool {
    forall|a: Assignment| #[trigger] matrix_true(a, domain) ==> possible(p, m, signs(a, p[0].1))
}

/// A copy of the matrix leaves it satisfiable.
proof fn lemma_answerable(p: Prefix, m: Matrix, seeded: Matrix, n: Matrix, base: int, origs: Seq<Var>)
    requires
        0 <= base,
        base + origs.len() <= u32::MAX,
        copies_force(n, m, p[0].1, Set::empty(), base, origs),
        inner_vars(m, p[0].1, origs),
    ensures
        answerable(seeded + n, p, m),
{
    let outer = p[0].1;
    assert forall|b: Assignment| #[trigger] matrix_true(b, seeded + n) implies possible(p, m, signs(b, outer)) by {
        crate::incremental::lemma_concat_true(b, seeded, n);
        let c = |x: Var|
            if outer.contains(x) {
                b(x)
            } else if origs.contains(x) {
                b(crate::literal::var_of(base + origs.index_of(x) + 1))
            } else {
                false
            };
        assert forall|x: Var| base <= x.id() < base + origs.len() implies #[trigger] b(x) == c(origs[x.id() - base]) by {
            let k = x.id() - base;
            let y = origs[k];
            assert(!outer.contains(y));
            assert(origs.contains(y));
            assert(origs.index_of(y) == k);
            crate::literal::lemma_var_index(base + k);
            crate::literal::lemma_var_ext(x, crate::literal::var_of(base + k + 1));
        }
        assert(copy_of(b, b, c, base, origs));
        assert(matrix_true(c, m));
        assert(signs(c, outer) =~= signs(b, outer)) by {
            assert forall|i: int| 0 <= i < outer.len() implies c(outer[i]) == b(outer[i]) by {
                assert(outer.contains(outer[i]));
            }
        }
    }
}

proof fn lemma_answerable_more(domain: Matrix, more: Matrix, p: Prefix, m: Matrix)
    requires
        answerable(domain, p, m),
    ensures
        answerable(domain + more, p, m),
{
    assert forall|a: Assignment| #[trigger] matrix_true(a, domain + more) implies possible(p, m, signs(a, p[0].1)) by {
        crate::incremental::lemma_concat_true(a, domain, more);
    }
}

proof fn lemma_gave_up(p: Prefix, m: Matrix, tried: Seq<Seq<bool>>, moves: Seq<Option<Seq<Lit>>>)
    requires
        p.len() > 2,
        tried_out(p, m, tried),
        tried.len() >= MAX_ROUNDS || overrun(p, m, tried.len() as int + 1),
        p[0].0 == QuantTy::Exists ==> learnt(p, m, tried, moves),
    ensures
        gave_up(p, m),
{
    assert(exhausted(p, m));
    lemma_exhausted(p, m);
}

/// The mapped literal is the outer literal itself, or the literal of its
/// copy.
spec fn image(l: Lit, mapped: Lit, outer: Seq<Var>, base: int, origs: Seq<Var>) -> bool {
    &&& mapped.pos() == l.pos()
    &&& if outer.contains(l.v()) {
        mapped.v() == l.v()
    } else {
        base <= mapped.v().id() < base + origs.len() && origs[mapped.v().id() - base] == l.v()
    }
}

/// Some literal of the list is the image.
spec fn maps_to(l: Lit, lits: Seq<Lit>, outer: Seq<Var>, base: int, origs: Seq<Var>) -> bool {
    exists|k: int| 0 <= k < lits.len() && image(l, #[trigger] lits[k], outer, base, origs)
}

proof fn lemma_maps_grow(l: Lit, lits: Seq<Lit>, more: Seq<Lit>, outer: Seq<Var>, base: int, origs: Seq<Var>, longer: Seq<Var>)
    requires
        maps_to(l, lits, outer, base, origs),
        more.len() >= lits.len(),
        forall|k: int| 0 <= k < lits.len() ==> more[k] == lits[k],
        longer.len() >= origs.len(),
        longer.take(origs.len() as int) == origs,
    ensures
        maps_to(l, more, outer, base, longer),
{
    let k = choose|k: int| 0 <= k < lits.len() && image(l, #[trigger] lits[k], outer, base, origs);
    assert(more[k] == lits[k]);
    assert(forall|i: int| 0 <= i < origs.len() ==> longer[i] == longer.take(origs.len() as int)[i]);
    assert(image(l, more[k], outer, base, longer));
}

proof fn lemma_copies_grow(n: Matrix, m: Matrix, outer: Seq<Var>, assigned: Set<Lit>, base: int, origs: Seq<Var>, longer: Seq<Var>)
    requires
        copies_hold(n, m, outer, assigned, base, origs),
        longer.len() >= origs.len(),
        longer.take(origs.len() as int) == origs,
    ensures
        copies_hold(n, m, outer, assigned, base, longer),
{
    assert(forall|i: int| 0 <= i < origs.len() ==> longer[i] == longer.take(origs.len() as int)[i]);
    assert forall|a: Assignment, b: Assignment, c: Assignment|
        #![trigger copy_of(b, a, c, base, longer), matrix_true(c, m)]
        matrix_true(c, m) && copy_of(b, a, c, base, longer) && (forall|l: Lit| #[trigger] assigned.contains(l) ==> lit_true(c, l))
            && (forall|x: Var| outer.contains(x) ==> #[trigger] a(x) == c(x)) implies matrix_true(b, n) by {
        assert(copy_of(b, a, c, base, origs));
    }
}

proof fn lemma_copy_clause(
    n: Matrix,
    m: Matrix,
    c0: Seq<Lit>,
    d: Seq<Lit>,
    index: int,
    outer: Seq<Var>,
    assigned: Set<Lit>,
    base: int,
    origs: Seq<Var>,
)
    requires
        copies_hold(n, m, outer, assigned, base, origs),
        0 <= index < m.len(),
        m[index] == c0,
        forall|k: int| 0 <= k < c0.len() ==> assigned.contains((#[trigger] c0[k]).neg()) || maps_to(c0[k], d, outer, base, origs),
        forall|x: Var| #[trigger] outer.contains(x) ==> x.id() < base,
    ensures
        copies_hold(n.push(d), m, outer, assigned, base, origs),
{
    assert forall|a: Assignment, b: Assignment, c: Assignment|
        #![trigger copy_of(b, a, c, base, origs), matrix_true(c, m)]
        matrix_true(c, m) && copy_of(b, a, c, base, origs) && (forall|l: Lit| #[trigger] assigned.contains(l) ==> lit_true(c, l))
            && (forall|x: Var| outer.contains(x) ==> #[trigger] a(x) == c(x)) implies matrix_true(b, n.push(d)) by {
        assert(clause_true(c, m[index]));
        let k = choose|k: int| 0 <= k < c0.len() && lit_true(c, #[trigger] c0[k]);
        assert(!assigned.contains(c0[k].neg()));
        let h = choose|h: int| 0 <= h < d.len() && image(c0[k], #[trigger] d[h], outer, base, origs);
        let x = c0[k].v();
        if outer.contains(x) {
            assert(b(x) == a(x));
            assert(a(x) == c(x));
        } else {
            let f = d[h].v();
            assert(b(f) == c(origs[f.id() - base]));
        }
        assert(lit_true(b, d[h]));
        lemma_push_true(b, n, d);
    }
}

/// Every winning choice for the outer block extends to a model of the
/// abstraction.
spec fn abstracts(r: Prefix, m: Matrix, domain: Matrix, base: int) -> bool {
    forall|b: Assignment| #[trigger] qbf(r, m, b) ==> extends_to(domain, base, b)
}

/// Some assignment that agrees below the bound satisfies the clauses.
spec fn extends_to(domain: Matrix, base: int, b: Assignment) -> bool {
    exists|c: Assignment| #[trigger] matrix_true(c, domain) && forall|x: Var| x.id() < base ==> #[trigger] c(x) == b(x)
}

/// A clause over the outer block that holds for every winning choice.
proof fn lemma_abstracts_push(r: Prefix, m: Matrix, domain: Matrix, base: int, d: Seq<Lit>)
    requires
        abstracts(r, m, domain, base),
        forall|x: Var| #[trigger] clause_mentions(d, x) ==> x.id() < base,
        forall|b: Assignment| #[trigger] qbf(r, m, b) ==> clause_true(b, d),
    ensures
        abstracts(r, m, domain.push(d), base),
{
    assert forall|b: Assignment| #[trigger] qbf(r, m, b) implies extends_to(domain.push(d), base, b) by {
        assert(extends_to(domain, base, b));
        let c = choose|c: Assignment| #[trigger] matrix_true(c, domain) && forall|x: Var|
            x.id() < base ==> #[trigger] c(x) == b(x);
        crate::semantics::lemma_clause_coincide(d, b, c);
        lemma_push_true(c, domain, d);
    }
}

/// A relaxed copy keeps the winning choices.
proof fn lemma_abstracts_copy(
    p: Prefix,
    m: Matrix,
    domain: Matrix,
    n: Matrix,
    base: int,
    next: int,
    g: Seq<Lit>,
    assigned: Set<Lit>,
    origs: Seq<Var>,
)
    requires
        p.len() > 0,
        prefix_distinct(p),
        base <= next,
        forall|x: Var| #[trigger] bound(p, x) ==> x.id() < base,
        abstracts(p.drop_first(), m, domain, base),
        below(domain, next),
        consistent(g),
        forall|i: int| 0 <= i < g.len() ==> bound_by(p.drop_first(), QuantTy::Forall, (#[trigger] g[i]).v()),
        forall|l: Lit| #[trigger] assigned.contains(l) ==> g.contains(l),
        copies_hold(n, m, p[0].1, assigned, next, origs),
    ensures
        abstracts(p.drop_first(), m, domain + n, base),
{
    let r = p.drop_first();
    lemma_rest_facts(p);
    assert forall|b: Assignment| #[trigger] qbf(r, m, b) implies extends_to(domain + n, base, b) by {
        assert(extends_to(domain, base, b));
        let a = choose|a: Assignment| #[trigger] matrix_true(a, domain) && forall|x: Var|
            x.id() < base ==> #[trigger] a(x) == b(x);
        assert forall|i: int| 0 <= i < g.len() implies bound_only_by(r, QuantTy::Forall, (#[trigger] g[i]).v()) && (!bound(
            r,
            g[i].v(),
        ) ==> lit_true(b, g[i])) by {
            lemma_bound_by(r, QuantTy::Forall, g[i].v());
            lemma_distinct_only(r, QuantTy::Forall, g[i].v());
        }
        let c = lemma_has_model_with(r, m, g, b);
        assert forall|l: Lit| #[trigger] assigned.contains(l) implies lit_true(c, l) by {
            let i = choose|i: int| 0 <= i < g.len() && g[i] == l;
            assert(lit_true(c, g[i]));
        }
        let d = |x: Var|
            if next <= x.id() < next + origs.len() {
                c(origs[x.id() - next])
            } else {
                a(x)
            };
        assert(copy_of(d, a, c, next, origs));
        assert forall|x: Var| p[0].1.contains(x) implies #[trigger] a(x) == c(x) by {
            assert(bound(p, x));
            assert(a(x) == b(x));
            assert(b(x) == c(x));
        }
        assert(matrix_true(d, n));
        assert forall|x: Var| #[trigger] mentions(domain, x) implies a(x) == d(x) by {
            assert(x.id() < next);
        }
        crate::semantics::lemma_matrix_coincide(domain, a, d);
        assert forall|i: int| 0 <= i < (domain + n).len() implies clause_true(d, #[trigger] (domain + n)[i]) by {
            if i < domain.len() {
                assert((domain + n)[i] == domain[i]);
            } else {
                assert((domain + n)[i] == n[i - domain.len()]);
            }
        }
        assert(matrix_true(d, domain + n));
        assert forall|x: Var| x.id() < base implies #[trigger] d(x) == b(x) by {
            assert(a(x) == b(x));
        }
    }
}

/// In a distinct prefix a variable is bound by one quantifier.
proof fn lemma_distinct_only(p: Prefix, q: QuantTy, x: Var)
    requires
        prefix_distinct(p),
        bound_by(p, q, x),
    ensures
        bound_only_by(p, q, x),
{
    let i = choose|i: int| 0 <= i < p.len() && (#[trigger] p[i]).0 == q && p[i].1.contains(x);
    assert forall|k: int| 0 <= k < p.len() && (#[trigger] p[k]).1.contains(x) implies p[k].0 == q by {
        if k < i {
            assert(!p[i].1.contains(x));
        } else if i < k {
            assert(!p[k].1.contains(x));
        }
    }
}

/// An index above all variables of an instance without free variables;
/// `None` when there is none.
fn fresh_index(qcnf: &QCNF) -> (index: u32)
    requires
        closed_formula(qcnf.blocks(), qcnf.clauses()),
    ensures
        forall|x: Var| #[trigger] bound(qcnf.blocks(), x) ==> x.id() < index,
        forall|x: Var| #[trigger] mentions(qcnf.clauses(), x) ==> x.id() < index,
        index <= MAX_INDEX + 1,
        forall|n: int| #[trigger] all_bound_below(qcnf.blocks(), qcnf.clauses(), n) ==> index <= n,
{
    let ghost p = qcnf.blocks();
    let mut index: u32 = 0;
    let mut i: usize = 0;
    while i < qcnf.prefix.len()
        invariant
            i <= qcnf.prefix@.len(),
            p == qcnf.blocks(),
            index <= MAX_INDEX + 1,
            forall|n: int| #[trigger] all_bound_below(p, qcnf.clauses(), n) ==> index <= n,
            forall|k: int, x: Var| 0 <= k < i && #[trigger] p[k].1.contains(x) ==> x.id() < index,
        decreases qcnf.prefix.len() - i,
    {
        let mut j: usize = 0;
        while j < qcnf.prefix[i].1.len()
            invariant
                i < qcnf.prefix@.len(),
                j <= qcnf.prefix@[i as int].1@.len(),
                p == qcnf.blocks(),
                index <= MAX_INDEX + 1,
                forall|n: int| #[trigger] all_bound_below(p, qcnf.clauses(), n) ==> index <= n,
                forall|k: int, x: Var| 0 <= k < i && #[trigger] p[k].1.contains(x) ==> x.id() < index,
                forall|k: int| 0 <= k < j ==> (#[trigger] qcnf.prefix@[i as int].1@[k]).id() < index,
            decreases qcnf.prefix@[i as int].1@.len() - j,
        {
            let own = qcnf.prefix[i].1[j].as_index();
            proof {
                let x = qcnf.prefix@[i as int].1@[j as int];
                assert(p[i as int].1[j as int] == x);
                assert(p[i as int].1.contains(x));
                assert(bound(p, x));
                assert forall|n: int| #[trigger] all_bound_below(p, qcnf.clauses(), n) implies own < n by {}
            }
            if own >= index as usize {
                index = own as u32 + 1;
            }
            j += 1;
        }
        proof {
            assert forall|k: int, x: Var| 0 <= k < i + 1 && #[trigger] p[k].1.contains(x) implies x.id() < index by {
                if k == i {
                    let n = choose|n: int| 0 <= n < p[k].1.len() && p[k].1[n] == x;
                    assert(qcnf.prefix@[i as int].1@[n].id() < index);
                }
            }
        }
        i += 1;
    }
    proof {
        assert forall|x: Var| #[trigger] bound(p, x) implies x.id() < index by {
            let k = choose|k: int| 0 <= k < p.len() && (#[trigger] p[k]).1.contains(x);
            assert(p[k].1.contains(x));
        }
    }
    index
}

/// Whether all literals of the clause are over the set.
fn all_within(clause: &Vec<Lit>, set: &VarSet) -> (within: bool)
    ensures
        within == forall|x: Var| #[trigger] clause_mentions(clause@, x) ==> set@.contains(x),
{
    let mut k: usize = 0;
    while k < clause.len()
        invariant
            k <= clause@.len(),
            forall|i: int| 0 <= i < k ==> set@.contains((#[trigger] clause@[i]).v()),
        decreases clause.len() - k,
    {
        if !set.contains(clause[k].var()) {
            assert(clause_mentions(clause@, clause@[k as int].v()));
            return false;
        }
        k += 1;
    }
    proof {
        assert forall|x: Var| #[trigger] clause_mentions(clause@, x) implies set@.contains(x) by {
            let i = choose|i: int| 0 <= i < clause@.len() && (#[trigger] clause@[i]).v() == x;
            assert(set@.contains(clause@[i].v()));
        }
    }
    true
}

/// The loop at an outermost existential block: candidates are proposed by
/// an abstraction over the block, and refutations refine it.
#[verifier::loop_isolation(false)]
#[verifier::rlimit(80)]
fn expansion_loop(qcnf: &QCNF, options: Options, cache: &mut Cache) -> (outcome: Outcome)
    requires
        qcnf.wf(),
        closed_formula(qcnf.blocks(), qcnf.clauses()),
        qcnf.prefix@.len() > 2,
        qcnf.prefix@[0].0 == QuantTy::Exists,
        old(cache).wf(),
    ensures
        final(cache).wf(),
        outcome.ok(qcnf.blocks(), qcnf.clauses()),
    decreases qcnf.prefix@.len(), 0nat,
{
    let ghost p = qcnf.blocks();
    let ghost m = qcnf.clauses();
    let ghost r = p.drop_first();
    let outer = &qcnf.prefix[0].1;
    let outer_set = VarSet::from_vars(outer);
    let mut next = fresh_index(qcnf);
    let ghost base = next as int;
    let mut added: usize = 0;
    proof {
        lemma_rest_facts(p);
        assert(p[0].1 == outer@);
        assert(p[0].0 == QuantTy::Exists);
    }

    // the abstraction: seeded with the clauses that mention only outer
    // variables (they must hold under any strategy)
    let mut alpha = SatSolver::new();
    proof {
        assert forall|b: Assignment| #[trigger] qbf(r, m, b) implies extends_to(alpha.clauses(), base, b) by {
            assert(matrix_true(b, alpha.clauses()));
        }
    }
    let mut i: usize = 0;
    while i < qcnf.matrix.len()
        invariant
            i <= qcnf.matrix@.len(),
            alpha.wf(),
            abstracts(r, m, alpha.clauses(), base),
            below(alpha.clauses(), base),
        decreases qcnf.matrix.len() - i,
    {
        if all_within(&qcnf.matrix[i], &outer_set) {
            let ghost d = m[i as int];
            let ghost before = alpha.clauses();
            proof {
                assert forall|x: Var| #[trigger] clause_mentions(d, x) implies x.id() < base by {
                    assert(outer_set@.contains(x));
                    assert(bound(p, x));
                }
                assert forall|b: Assignment| #[trigger] qbf(r, m, b) implies clause_true(b, d) by {
                    let c = lemma_has_model(r, m, b);
                    assert(clause_true(c, m[i as int]));
                    assert forall|x: Var| #[trigger] clause_mentions(d, x) implies b(x) == c(x) by {
                        assert(outer_set@.contains(x));
                        assert(!bound(r, x));
                    }
                    crate::semantics::lemma_clause_coincide(d, b, c);
                }
                lemma_abstracts_push(r, m, before, base, d);
            }
            alpha.add_clause(&qcnf.matrix[i]);
            proof {
                assert forall|x: Var| #[trigger] mentions(alpha.clauses(), x) implies x.id() < base by {
                    crate::qcnf::lemma_matrix_push(before, d, x);
                }
            }
        }
        i += 1;
    }

    // one relaxed copy of the matrix: candidates then satisfy a necessary
    // condition before any sub-solve is spent
    let none = LitSet::new();
    let ghost seeded = alpha.clauses();
    let ghost start = next as int;
    proof {
        assert forall|b: Bounds| #[trigger] held(p, m, b) implies affordable(b, next as int, added as int, 0) by {
            assert(all_bound_below(p, m, b.top));
        }
    }
    match add_relaxed_copy(&mut alpha, qcnf, outer, &outer_set, &none, &mut next, &mut added) {
        None => {
            proof {
                let origs = choose|origs: Seq<Var>| #[trigger] inner_vars(m, outer@, origs) && start + origs.len() > MAX_INDEX;
                assert forall|b: Bounds| !#[trigger] fits(p, m, b) by {
                    if fits(p, m, b) {
                        lemma_fits_held(p, m, b);
                        lemma_rounds(p, m, b, Seq::empty());
                        lemma_copy_room(p, m, outer@, origs, b, start, 0, 0);
                    }
                }
                lemma_no_room(p, m, outer@, origs, start, 0, 0);
                lemma_gave_up(p, m, Seq::empty(), Seq::empty());
            }
            return Outcome::verdict(SolverResult::Unknown);
        },
        Some(falsified) => {
            proof {
                let (n, origs) = choose|n: Matrix, origs: Seq<Var>|
                    alpha.clauses() == seeded + n && next == start + origs.len() && inner_vars(m, outer@, origs) && #[trigger] copies_hold(
                        n,
                        m,
                        outer@,
                        none@,
                        start,
                        origs,
                    ) && copies_force(n, m, outer@, none@, start, origs);
                lemma_answerable(p, m, seeded, n, start, origs);
                assert forall|b: Bounds| #[trigger] held(p, m, b) implies affordable(b, next as int, added as int, 1) by {
                    lemma_copy_added(p, m, outer@, origs, b, start, 0, 0, added as int);
                }
                lemma_abstracts_copy(p, m, seeded, n, base, start, Seq::empty(), none@, origs);
            }
        },
    }

    let mut rounds: u32 = 0;
    let ghost mut tried: Seq<Seq<bool>> = Seq::empty();
    let ghost mut moves: Seq<Option<Seq<Lit>>> = Seq::empty();
    while rounds < MAX_ROUNDS && added <= MAX_LITERALS
        invariant
            rounds <= MAX_ROUNDS,
            tried.len() == rounds,
            tried.no_duplicates(),
            forall|i: int| 0 <= i < tried.len() ==> (#[trigger] tried[i]).len() == outer@.len(),
            untried(alpha.clauses(), outer@, tried),
            forall|b: Bounds| #[trigger] held(p, m, b) ==> affordable(b, next as int, added as int, rounds + 1),
            forall|i: int| 0 <= i < tried.len() ==> loses(p, m, #[trigger] tried[i]) && possible(p, m, tried[i]),
            answerable(alpha.clauses(), p, m),
            learnt(p, m, tried, moves),
            all_answerable(alpha.clauses(), p, m, moves, moves.len() as int),
            cache.wf(),
            alpha.wf(),
            base <= next,
            abstracts(r, m, alpha.clauses(), base),
            below(alpha.clauses(), next as int),
        decreases MAX_ROUNDS - rounds,
    {
        rounds += 1;
        let point = match alpha.solve() {
            SatOutcome::OutOfRange => {
                proof {
                    assert forall|b: Bounds| !#[trigger] fits(p, m, b) by {
                        if fits(p, m, b) {
                            lemma_fits_held(p, m, b);
                            lemma_rounds(p, m, b, tried);
                            lemma_affordable(b, next as int, added as int, tried.len() as int + 1);
                            lemma_below_ok(alpha.clauses(), next as int);
                        }
                    }
                    if next <= crate::sat::MAX_NUMBER {
                        lemma_below_ok(alpha.clauses(), next as int);
                    }
                    assert(overrun(p, m, tried.len() as int + 1));
                    lemma_gave_up(p, m, tried, moves);
                }
                return Outcome::verdict(SolverResult::Unknown);
            },
            SatOutcome::Unsat => {
                proof {
                    assert forall|b: Assignment| !#[trigger] qbf(r, m, b) by {
                        if qbf(r, m, b) {
                            assert(extends_to(alpha.clauses(), base, b));
                            let c = choose|c: Assignment| #[trigger] matrix_true(c, alpha.clauses()) && forall|x: Var|
                                x.id() < base ==> #[trigger] c(x) == b(x);
                            assert(cube_true(c, Seq::<Lit>::empty()));
                        }
                    }
                    lemma_no_choice(p, m);
                }
                return Outcome::verdict(SolverResult::Unsatisfiable);
            },
            SatOutcome::Sat(lits) => values_of_lits(&lits),
        };
        let candidate = lits_under(outer, &point);
        let ghost here = assignment_of(point@);

        // solve the remainder under the candidate
        let restricted = restrict(qcnf, &candidate);
        let ghost n = restricted.clauses();
        proof {
            lemma_candidate(outer@, candidate@);
            lemma_restricted(p, m, n, candidate@, here);
            lemma_cube_consistent(here, candidate@);
        }
        let normal = restricted.normalized();
        let outcome = solve_normalized(&normal, options, cache);
        match outcome.verdict {
            SolverResult::Satisfiable => {
                // this candidate wins: it commits the outer block to
                // constants, the sub-strategy handles the rest
                if let Some(rest) = outcome.strategy {
                    proof {
                        lemma_plays_normalized(&rest, r, normal.blocks(), n, unlimited());
                        lemma_plays_choose(candidate, rest, p, m, n, unlimited());
                        let zero = |x: Var| false;
                        let b = overlay(zero, here, p[0].1);
                        assert(agree_off(zero, b, p[0].1));
                        assert forall|i: int| 0 <= i < candidate@.len() implies lit_true(b, #[trigger] candidate@[i]) by {
                            assert(clause_mentions(candidate@, candidate@[i].v()));
                            assert(lit_true(here, candidate@[i]));
                        }
                        lemma_restricted(p, m, n, candidate@, b);
                        assert(qbf(p, m, zero));
                    }
                    return Outcome::sat(Rc::new(Strategy::Choose { constants: candidate, rest }));
                }
                return Outcome::verdict(SolverResult::Unknown);
            },
            SolverResult::Unknown => {
                proof {
                    lemma_fits_under(p, m, n, normal, candidate@);
                    lemma_open_candidate(p, m, candidate@, here);
                    assert(normal_of(r, n, normal.blocks()));
                    assert(entered(p, m, normal.blocks(), n));
                    lemma_step(p, m, normal.blocks(), n);
                }
                return Outcome::verdict(SolverResult::Unknown);
            },
            SolverResult::Unsatisfiable => {},
        }

        // the candidate is refuted: excluding it is always sound and
        // guarantees progress
        let clause = negate(&candidate);
        let ghost before = alpha.clauses();
        proof {
            assert forall|b: Assignment| #[trigger] qbf(r, m, b) implies clause_true(b, clause@) by {
                if cube_true(b, candidate@) {
                    lemma_restricted(p, m, n, candidate@, b);
                }
            }
            assert forall|x: Var| #[trigger] clause_mentions(clause@, x) implies x.id() < base by {
                let k = choose|k: int| 0 <= k < clause@.len() && (#[trigger] clause@[k]).v() == x;
                assert(clause@[k] == candidate@[k].neg());
                assert(outer@.contains(outer@[k]));
                assert(bound(p, outer@[k]));
            }
            lemma_abstracts_push(r, m, before, base, clause@);
        }
        alpha.add_clause(&clause);
        let ghost counted = added as int;
        proof {
            lemma_untried(before, outer@, tried, candidate@, clause@, here);
            assert(settles(p, candidate@));
            assert forall|a: Assignment| #[trigger] cube_true(a, candidate@) implies !qbf(r, m, a) by {
                lemma_restricted(p, m, n, candidate@, a);
            }
            lemma_loses(p, m, candidate@, here);
            assert(possible(p, m, signs(here, outer@)));
            let play = if outcome.witness is Some {
                Some((outcome.witness->0)@)
            } else {
                None
            };
            if three_blocks(p) {
                lemma_offers(p, n, normal.blocks());
                lemma_unanswered(p, m, n, candidate@, here, play->0);
            }
            lemma_learn(before, p, m, tried, moves, here, play);
            let earlier = moves.len() as int;
            moves = moves.push(play);
            tried = tried.push(signs(here, outer@));
            assert(alpha.clauses() =~= before + seq![clause@]);
            lemma_answerable_more(before, seq![clause@], p, m);
            lemma_all_answerable_more(before, seq![clause@], p, m, moves, earlier);
            assert forall|b: Bounds| #[trigger] held(p, m, b) implies affordable(b, next as int, added as int, rounds + 1) by {
                assert(affordable(b, next as int, added as int, rounds as int));
                lemma_more_affordable(b, next as int, added as int, rounds as int);
            }
            assert forall|x: Var| #[trigger] mentions(alpha.clauses(), x) implies x.id() < next by {
                crate::qcnf::lemma_matrix_push(before, clause@, x);
            }
        }

        if let Some(universal) = outcome.witness {
            // strong refinement: the matrix under the universal move over
            // a fresh copy of every other variable
            let assigned = LitSet::from_lits(&universal);
            let ghost blocked = alpha.clauses();
            let ghost start = next as int;
            match add_relaxed_copy(&mut alpha, qcnf, outer, &outer_set, &assigned, &mut next, &mut added) {
                None => {
                    proof {
                        let origs = choose|origs: Seq<Var>| #[trigger] inner_vars(m, outer@, origs) && start + origs.len() > MAX_INDEX;
                        assert forall|b: Bounds| !#[trigger] fits(p, m, b) by {
                            if fits(p, m, b) {
                                lemma_fits_held(p, m, b);
                                lemma_rounds(p, m, b, tried);
                                assert(affordable(b, start, counted, rounds as int));
                                lemma_copy_room(p, m, outer@, origs, b, start, counted, rounds as int);
                            }
                        }
                        lemma_no_room(p, m, outer@, origs, start, counted, rounds as int);
                        lemma_gave_up(p, m, tried, moves);
                    }
                    return Outcome::verdict(SolverResult::Unknown);
                },
                Some(falsified) => {
                    proof {
                        let (copied, origs) = choose|n: Matrix, origs: Seq<Var>|
                            alpha.clauses() == blocked + n && next == start + origs.len() && inner_vars(m, outer@, origs) && #[trigger] copies_hold(
                                n,
                                m,
                                outer@,
                                assigned@,
                                start,
                                origs,
                            ) && copies_force(n, m, outer@, assigned@, start, origs) && apart(origs, assigned@);
                        assert forall|i: int| 0 <= i < universal@.len() implies bound_by(
                            r,
                            QuantTy::Forall,
                            (#[trigger] universal@[i]).v(),
                        ) by {
                            assert(bound_by(normal.blocks(), QuantTy::Forall, universal@[i].v()));
                        }
                        lemma_abstracts_copy(p, m, blocked, copied, base, start, universal@, assigned@, origs);
                        lemma_answerable_more(blocked, copied, p, m);
                        lemma_all_answerable_more(blocked, copied, p, m, moves, moves.len() - 1);
                        assert forall|i: int| 0 <= i < universal@.len() implies !p[0].1.contains((#[trigger] universal@[i]).v()) by {
                            let x = universal@[i].v();
                            assert(bound_by(r, QuantTy::Forall, x));
                            let k = choose|k: int| 0 <= k < r.len() && (#[trigger] r[k]).0 == QuantTy::Forall && r[k].1.contains(x);
                            assert(bound(r, x));
                            assert(!p[0].1.contains(x));
                        }
                        lemma_answerable_under(p, m, blocked, copied, start, origs, universal@, assigned@);
                        assert forall|b: Bounds| #[trigger] held(p, m, b) implies affordable(b, next as int, added as int, rounds + 1) by {
                            assert(affordable(b, start, counted, rounds as int));
                            lemma_copy_added(p, m, outer@, origs, b, start, counted, rounds as int, added as int);
                        }
                        lemma_untried_more(blocked, copied, outer@, tried);
                    }
                    if falsified {
                        // a clause is falsified by the move alone: no
                        // outer choice can answer it
                        proof {
                            assert forall|b: Assignment| !#[trigger] qbf(r, m, b) by {
                                if qbf(r, m, b) {
                                    assert(extends_to(alpha.clauses(), base, b));
                                    let c = choose|c: Assignment| #[trigger] matrix_true(c, alpha.clauses()) && forall|x: Var|
                                        x.id() < base ==> #[trigger] c(x) == b(x);
                                    let k = choose|k: int| 0 <= k < alpha.clauses().len() && alpha.clauses()[k] == Seq::<Lit>::empty();
                                    assert(clause_true(c, alpha.clauses()[k]));
                                }
                            }
                            lemma_no_choice(p, m);
                        }
                        return Outcome::verdict(SolverResult::Unsatisfiable);
                    }
                },
            }
        }
    }
    proof {
        assert forall|b: Bounds| !#[trigger] fits(p, m, b) by {
            if fits(p, m, b) {
                lemma_fits_held(p, m, b);
                lemma_rounds(p, m, b, tried);
                lemma_affordable(b, next as int, added as int, tried.len() as int + 1);
            }
        }
        if tried.len() < MAX_ROUNDS {
            assert(overrun(p, m, tried.len() as int + 1));
        }
        lemma_gave_up(p, m, tried, moves);
    }
    Outcome::verdict(SolverResult::Unknown)
}

/// All variables of the formula are below an index.
spec fn all_bound_below(p: Prefix, m: Matrix, n: int) -> bool {
    0 <= n && forall|x: Var| #[trigger] bound(p, x) ==> x.id() < n
}

/// The variables and literals of as many copies are within the bounds.
spec fn affordable(b: Bounds, next: int, added: int, copies: int) -> bool {
    next <= b.top + copies * b.vars.len() && added <= copies * b.size
}

proof fn lemma_affordable(b: Bounds, next: int, added: int, copies: int)
    requires
        exhaustible(b),
        affordable(b, next, added, copies),
        0 <= copies <= two_to(b.choices.len()) + 1,
    ensures
        next <= crate::sat::MAX_NUMBER,
        added <= MAX_LITERALS,
{
    let most = two_to(b.choices.len()) + 1;
    assert(copies * b.vars.len() <= most * b.vars.len()) by (nonlinear_arith)
        requires
            copies <= most,
    ;
    assert(copies * b.size <= most * b.size) by (nonlinear_arith)
        requires
            copies <= most,
    ;
}

proof fn lemma_more_affordable(b: Bounds, next: int, added: int, copies: int)
    requires
        affordable(b, next, added, copies),
    ensures
        affordable(b, next, added, copies + 1),
{
    assert((copies + 1) * b.vars.len() == copies * b.vars.len() + b.vars.len()) by (nonlinear_arith);
    assert((copies + 1) * b.size == copies * b.size + b.size) by (nonlinear_arith);
}

/// The inner variables of a formula are no more than its variables.
proof fn lemma_inner_len(m: Matrix, outer: Seq<Var>, origs: Seq<Var>, b: Bounds)
    requires
        inner_vars(m, outer, origs),
        b.vars.finite(),
        forall|x: Var| #[trigger] mentions(m, x) ==> b.vars.contains(x),
    ensures
        origs.len() <= b.vars.len(),
{
    assert forall|i: int| 0 <= i < origs.len() implies b.vars.contains(#[trigger] origs[i]) by {
        assert(mentions(m, origs[i]));
    }
    lemma_distinct_len(origs, b.vars);
}

/// There is room for one more copy.
proof fn lemma_copy_room(p: Prefix, m: Matrix, outer: Seq<Var>, origs: Seq<Var>, b: Bounds, start: int, added: int, copies: int)
    requires
        fits(p, m, b),
        inner_vars(m, outer, origs),
        affordable(b, start, added, copies),
        0 <= copies <= two_to(b.choices.len()),
    ensures
        start + origs.len() <= MAX_INDEX,
{
    lemma_inner_len(m, outer, origs, b);
    assert((copies + 1) * b.vars.len() == copies * b.vars.len() + b.vars.len()) by (nonlinear_arith);
    assert((copies + 1) * b.size == copies * b.size + b.size) by (nonlinear_arith);
    lemma_affordable(b, start + origs.len(), added, copies + 1);
}

/// One more copy is within the bounds.
proof fn lemma_copy_added(
    p: Prefix,
    m: Matrix,
    outer: Seq<Var>,
    origs: Seq<Var>,
    b: Bounds,
    start: int,
    added: int,
    copies: int,
    after: int,
)
    requires
        held(p, m, b),
        inner_vars(m, outer, origs),
        affordable(b, start, added, copies),
        after <= added + size_of(m),
    ensures
        affordable(b, start + origs.len(), after, copies + 1),
{
    lemma_inner_len(m, outer, origs, b);
    assert((copies + 1) * b.vars.len() == copies * b.vars.len() + b.vars.len()) by (nonlinear_arith);
    assert((copies + 1) * b.size == copies * b.size + b.size) by (nonlinear_arith);
}

/// Where variables for one more copy run out, the copies are too many.
proof fn lemma_no_room(p: Prefix, m: Matrix, outer: Seq<Var>, origs: Seq<Var>, start: int, added: int, copies: int)
    requires
        inner_vars(m, outer, origs),
        forall|b: Bounds| #[trigger] held(p, m, b) ==> affordable(b, start, added, copies),
        start + origs.len() > MAX_INDEX,
    ensures
        overrun(p, m, copies + 1),
{
    assert forall|b: Bounds| #[trigger] held(p, m, b) implies b.top + (copies + 1) * b.vars.len() > crate::sat::MAX_NUMBER by {
        lemma_inner_len(m, outer, origs, b);
        assert((copies + 1) * b.vars.len() == copies * b.vars.len() + b.vars.len()) by (nonlinear_arith);
    }
}

/// A candidate that the clauses leave open, as a cube.
proof fn lemma_open_candidate(p: Prefix, m: Matrix, cube: Seq<Lit>, here: Assignment)
    requires
        cube.len() == p[0].1.len(),
        forall|i: int| 0 <= i < cube.len() ==> (#[trigger] cube[i]).v() == p[0].1[i],
        cube_true(here, cube),
        possible(p, m, signs(here, p[0].1)),
    ensures
        settles(p, cube),
        exists|a: Assignment| #[trigger] matrix_true(a, m) && cube_true(a, cube),
{
    let a = choose|a: Assignment| #[trigger] matrix_true(a, m) && signs(a, p[0].1) == signs(here, p[0].1);
    assert forall|i: int| 0 <= i < cube.len() implies lit_true(a, #[trigger] cube[i]) by {
        assert(lit_true(here, cube[i]));
        assert(signs(a, p[0].1)[i] == signs(here, p[0].1)[i]);
    }
    assert(cube_true(a, cube));
}

/// No assignment that satisfies the clauses has the values of a candidate
/// tried before.
spec fn untried(domain: Matrix, vars: Seq<Var>, tried: Seq<Seq<bool>>) -> bool {
    forall|a: Assignment, i: int|
        #![trigger matrix_true(a, domain), tried[i]]
        matrix_true(a, domain) && 0 <= i < tried.len() ==> signs(a, vars) != tried[i]
}

/// Excluding a candidate makes it one that was tried.
proof fn lemma_untried(
    domain: Matrix,
    vars: Seq<Var>,
    tried: Seq<Seq<bool>>,
    candidate: Seq<Lit>,
    clause: Seq<Lit>,
    here: Assignment,
)
    requires
        untried(domain, vars, tried),
        tried.no_duplicates(),
        matrix_true(here, domain),
        candidate.len() == vars.len(),
        forall|i: int| 0 <= i < vars.len() ==> (#[trigger] candidate[i]).v() == vars[i],
        cube_true(here, candidate),
        forall|a: Assignment| #[trigger] clause_true(a, clause) == !cube_true(a, candidate),
    ensures
        untried(domain.push(clause), vars, tried.push(signs(here, vars))),
        tried.push(signs(here, vars)).no_duplicates(),
{
    let all = tried.push(signs(here, vars));
    assert forall|a: Assignment, i: int|
        #![trigger matrix_true(a, domain.push(clause)), all[i]]
        matrix_true(a, domain.push(clause)) && 0 <= i < all.len() implies signs(a, vars) != all[i] by {
        lemma_push_true(a, domain, clause);
        if i < tried.len() {
            assert(all[i] == tried[i]);
            assert(matrix_true(a, domain));
        } else if signs(a, vars) == signs(here, vars) {
            assert forall|k: int| 0 <= k < candidate.len() implies lit_true(a, #[trigger] candidate[k]) by {
                assert(lit_true(here, candidate[k]));
                assert(signs(a, vars)[k] == signs(here, vars)[k]);
            }
            assert(cube_true(a, candidate));
        }
    }
    assert forall|i: int, j: int| 0 <= i < all.len() && 0 <= j < all.len() && i != j implies all[i] != all[j] by {
        if i == tried.len() {
            assert(all[j] == tried[j]);
            assert(signs(here, vars) != tried[j]);
        } else if j == tried.len() {
            assert(all[i] == tried[i]);
            assert(signs(here, vars) != tried[i]);
        }
    }
}

/// More clauses allow no candidate again.
proof fn lemma_untried_more(domain: Matrix, more: Matrix, vars: Seq<Var>, tried: Seq<Seq<bool>>)
    requires
        untried(domain, vars, tried),
    ensures
        untried(domain + more, vars, tried),
{
    assert forall|a: Assignment, i: int|
        #![trigger matrix_true(a, domain + more), tried[i]]
        matrix_true(a, domain + more) && 0 <= i < tried.len() implies signs(a, vars) != tried[i] by {
        crate::incremental::lemma_concat_true(a, domain, more);
        assert(matrix_true(a, domain));
    }
}

/// Clauses below the numbering of the back end are in range.
proof fn lemma_below_ok(m: Matrix, n: int)
    requires
        forall|x: Var| #[trigger] mentions(m, x) ==> x.id() < n,
        n <= crate::sat::MAX_NUMBER,
    ensures
        crate::sat::clauses_ok(m),
{
    assert forall|i: int| 0 <= i < m.len() implies crate::sat::lits_ok(#[trigger] m[i]) by {
        assert forall|j: int| 0 <= j < m[i].len() implies crate::sat::lit_ok(#[trigger] m[i][j]) by {
            assert(clause_mentions(m[i], m[i][j].v()));
            assert(mentions(m, m[i][j].v()));
        }
    }
}

/// What fits is in range.
proof fn lemma_fits_range(p: Prefix, m: Matrix, b: Bounds)
    requires
        fits(p, m, b),
    ensures
        in_range(p, m),
{
    assert(256 * b.vars.len() >= 0);
    lemma_below_ok(m, b.top);
}

/// What fits does so under a candidate for the outermost block.
proof fn lemma_fits_under(p: Prefix, m: Matrix, n: Matrix, normal: QCNF, candidate: Seq<Lit>)
    requires
        p.len() > 0,
        size_of(n) <= size_of(m),
        restricts(m, n, candidate),
        closed_formula(p, m),
        forall|x: Var| #[trigger] mentions(n, x) ==> bound(p.drop_first(), x),
        normal.clauses() == n,
        exists|free: Seq<Var>| #[trigger]
            free_list(p.drop_first(), n, free) && normal.blocks() == merged(with_block(QuantTy::Exists, free, p.drop_first())),
        forall|x: Var| #[trigger] bound(normal.blocks(), x) <==> bound(p.drop_first(), x) || mentions(n, x),
        forall|b: Bounds| !#[trigger] fits(normal.blocks(), n, b),
    ensures
        forall|b: Bounds| !#[trigger] fits(p, m, b),
{
    let r = p.drop_first();
    let free = choose|free: Seq<Var>| #[trigger]
        free_list(r, n, free) && normal.blocks() == merged(with_block(QuantTy::Exists, free, r));
    assert forall|b: Bounds| !#[trigger] fits(p, m, b) by {
        if fits(p, m, b) {
            lemma_fits_rest(p, m, n, b);
            lemma_fits_normal(r, normal.blocks(), n, free, b);
        }
    }
}

/// Without a winning choice for the outermost existential block the
/// formula is false.
proof fn lemma_no_choice(p: Prefix, m: Matrix)
    requires
        p.len() > 0,
        p[0].0 == QuantTy::Exists,
        forall|b: Assignment| !#[trigger] qbf(p.drop_first(), m, b),
    ensures
        !formula_true(p, m),
{
    if formula_true(p, m) {
        let a = choose|a: Assignment| #[trigger] qbf(p, m, a);
        let b = choose|b: Assignment| #[trigger] agree_off(a, b, p[0].1) && qbf(p.drop_first(), m, b);
        assert(qbf(p.drop_first(), m, b));
    }
}

/// The innermost universal block, or -1.
pub open spec fn innermost_universal(p: Prefix) -> int
    decreases p.len(),
{
    if p.len() == 0 {
        -1
    } else if p.last().0 == QuantTy::Forall {
        p.len() - 1
    } else {
        innermost_universal(p.drop_last())
    }
}

/// The block is worth enumerating: it is the innermost universal one of at
/// most three blocks, it is small, and the expansion fits the budget and
/// the numbering of variables from `base` on.
pub open spec fn expandable(p: Prefix, m: Matrix, budget: int, base: int, block: int) -> bool {
    &&& budget > 0
    &&& block == innermost_universal(p)
    &&& block >= 0
    &&& p[block].1.len() <= MAX_EXPANDED_BLOCK
    &&& p.len() <= 3
    &&& two_to(p[block].1.len()) * m.len() <= budget
    &&& two_to(p[block].1.len()) * behind(p, block).len() <= budget
    &&& base + two_to(p[block].1.len()) * behind(p, block).len() <= MAX_INDEX + 1
}

/// Behind the innermost universal block all blocks are existential.
proof fn lemma_innermost(p: Prefix)
    ensures
        -1 <= innermost_universal(p) < p.len(),
        innermost_universal(p) >= 0 ==> p[innermost_universal(p)].0 == QuantTy::Forall,
        forall|i: int| innermost_universal(p) < i < p.len() ==> (#[trigger] p[i]).0 == QuantTy::Exists,
    decreases p.len(),
{
    if p.len() > 0 && p.last().0 != QuantTy::Forall {
        let h = p.drop_last();
        lemma_innermost(h);
        let k = innermost_universal(h);
        if k >= 0 {
            assert(h[k] == p[k]);
        }
        assert forall|i: int| k < i < p.len() implies (#[trigger] p[i]).0 == QuantTy::Exists by {
            if i < h.len() {
                assert(h[i] == p[i]);
            }
        }
    }
}

/// The innermost universal block, if enumerating it fits the budget. Only
/// an expansion that collapses the prefix is worth doing: the result goes
/// straight to the core.
fn expandable_block(qcnf: &QCNF, budget: usize, base: u32) -> (result: Option<usize>)
    requires
        alternating(qcnf.blocks()),
        base <= MAX_INDEX + 1,
    ensures
        match result {
            Some(block) => expandable(qcnf.blocks(), qcnf.clauses(), budget as int, base as int, block as int),
            None => forall|block: int| !expandable(qcnf.blocks(), qcnf.clauses(), budget as int, base as int, block),
        },
{
    let ghost p = qcnf.blocks();
    let ghost m = qcnf.clauses();
    proof {
        lemma_innermost(p);
    }
    if budget == 0 || qcnf.prefix.len() > 3 {
        return None;
    }
    let mut after: usize = qcnf.prefix.len();
    assert(p.take(p.len() as int) =~= p);
    while after > 0 && qcnf.prefix[after - 1].0 == QuantTy::Exists
        invariant
            after <= qcnf.prefix@.len(),
            p == qcnf.blocks(),
            innermost_universal(p) == innermost_universal(p.take(after as int)),
        decreases after,
    {
        proof {
            let part = p.take(after as int);
            assert(part.drop_last() =~= p.take(after as int - 1));
            assert(part.last() == p[after as int - 1]);
        }
        after -= 1;
    }
    if after == 0 {
        return None;
    }
    let block = after - 1;
    proof {
        let part = p.take(after as int);
        assert(part.last() == p[block as int]);
        assert(innermost_universal(p) == block);
        if block + 2 < p.len() {
            assert(p[block + 1].0 != p[block + 2].0);
        }
        lemma_two_to_mono(0, p[block as int].1.len());
    }
    let width = qcnf.prefix[block].1.len();
    if width > MAX_EXPANDED_BLOCK {
        return None;
    }
    let mut copies: usize = 1;
    let mut k: usize = 0;
    while k < width
        invariant
            k <= width,
            width <= 8,
            copies == two_to(k as nat),
            copies <= 256,
        decreases width - k,
    {
        proof {
            assert(two_to((k + 1) as nat) == 2 * two_to(k as nat));
            lemma_two_to_mono((k + 1) as nat, 8);
            lemma_two_to_eight();
        }
        copies = copies * 2;
        k += 1;
    }
    let behind_len = if qcnf.prefix.len() - block > 1 {
        qcnf.prefix[block + 1].1.len()
    } else {
        0
    };
    let clauses = qcnf.matrix.len();
    proof {
        assert(behind_len == behind(p, block as int).len());
        assert(copies * clauses == two_to(p[block as int].1.len()) * m.len());
        assert(copies * behind_len == two_to(p[block as int].1.len()) * behind(p, block as int).len());
    }
    match (copies.checked_mul(clauses), copies.checked_mul(behind_len)) {
        (Some(clauses), Some(fresh)) => {
            if clauses <= budget && fresh <= budget && fresh <= (MAX_INDEX + 1 - base) as usize {
                Some(block)
            } else {
                None
            }
        },
        _ => None,
    }
}

proof fn lemma_two_to_eight()
    ensures
        two_to(8) == 256,
{
    reveal_with_fuel(two_to, 9);
}

/// Solves a prenex formula with any number of quantifier blocks.
pub fn solve(qcnf: &QCNF, options: Options) -> (verdict: SolverResult)
    requires
        qcnf.wf(),
    ensures
        sound_verdict(qcnf.blocks(), qcnf.clauses(), verdict),
        verdict == SolverResult::Unknown ==> out_of_reach(qcnf.blocks(), qcnf.clauses(), 2_000_000),
        verdict == SolverResult::Unknown ==> spent(qcnf.blocks(), qcnf.clauses()),
{
    solve_with_expansion_budget(qcnf, options, EXPANSION_BUDGET)
}

/// Solves with an explicit budget for enumerating a universal block; `0`
/// disables expansion.
pub fn solve_with_expansion_budget(qcnf: &QCNF, options: Options, budget: usize) -> (verdict: SolverResult)
    requires
        qcnf.wf(),
    ensures
        sound_verdict(qcnf.blocks(), qcnf.clauses(), verdict),
        verdict == SolverResult::Unknown ==> out_of_reach(qcnf.blocks(), qcnf.clauses(), budget as int),
        verdict == SolverResult::Unknown ==> spent(qcnf.blocks(), qcnf.clauses()),
{
    solve_certified(qcnf, options, budget).0
}

/// The candidate loops cannot be sure to exhaust the formula, nor can its
/// universal variables be enumerated away: the outer blocks have too many
/// assignments for the rounds of a loop, the copies too many literals, or
/// the back end cannot number them; and of three blocks, the universal ones
/// are too large for the budget.
pub open spec fn out_of_reach(p: Prefix, m: Matrix, budget: int) -> bool {
    &&& forall|b: Bounds| !#[trigger] fits(p, m, b)
    &&& shape(p, m).len() <= 3 ==> forall|b: Bounds| !#[trigger] enumerable(p, m, budget, b)
}

/// What an unknown verdict comes with: the recursion came to a formula for
/// which everything was tried, or the back end cannot number the copies of
/// an enumerated block.
pub open spec fn spent(p: Prefix, m: Matrix) -> bool {
    gave_up(p, m) || exists|s: Prefix, n: Matrix| #[trigger] outnumbered(p, m, s, n)
}

/// The formula comes down to one of at most three blocks whose innermost
/// universal block is small, but the back end cannot number a copy of the
/// variables behind it for each of its assignments.
pub open spec fn outnumbered(p: Prefix, m: Matrix, s: Prefix, n: Matrix) -> bool {
    let block = innermost_universal(s);
    &&& reached(p, m, s, n, 2)
    &&& s.len() <= 3
    &&& 0 <= block
    &&& s[block].1.len() <= 8
    &&& forall|b: Bounds| #[trigger]
        held(p, m, b) ==> b.top + two_to(s[block].1.len()) * behind(s, block).len() > crate::sat::MAX_NUMBER
}

/// The verdict is the truth of the formula; a formula with at most two
/// alternating blocks that the back end can number is decided.
pub open spec fn sound_verdict(p: Prefix, m: Matrix, verdict: SolverResult) -> bool {
    &&& verdict == SolverResult::Satisfiable ==> formula_true(p, m)
    &&& verdict == SolverResult::Unsatisfiable ==> !formula_true(p, m)
    &&& shape(p, m).len() <= 2 && in_range(p, m) ==> verdict != SolverResult::Unknown
}

/// Solves and, on a satisfiable verdict, returns a winning existential
/// strategy.
#[verifier::rlimit(60)]
pub fn solve_certified(qcnf: &QCNF, options: Options, budget: usize) -> (result: (SolverResult, Option<Rc<Strategy>>))
    requires
        qcnf.wf(),
    ensures
        sound_verdict(qcnf.blocks(), qcnf.clauses(), result.0),
        result.0 == SolverResult::Unknown ==> out_of_reach(qcnf.blocks(), qcnf.clauses(), budget as int),
        result.0 == SolverResult::Unknown ==> spent(qcnf.blocks(), qcnf.clauses()),
        result.1 is Some <==> result.0 == SolverResult::Satisfiable,
        result.1 matches Some(strategy) ==> winning(*strategy, qcnf.blocks(), qcnf.clauses()) && strategy.steady(universal_set(qcnf.blocks())),
{
    let ghost p0 = qcnf.blocks();
    let ghost m0 = qcnf.clauses();
    let current = qcnf.normalized();
    let ghost p = current.blocks();
    let ghost m = current.clauses();
    let mut cache = Cache::new();
    proof {
        assert(quants(p).len() == p.len());
        assert forall|b: Bounds| #[trigger] fits(p0, m0, b) implies fits(p, m, b) by {
            let free = choose|free: Seq<Var>| #[trigger] free_list(p0, m0, free) && p == merged(with_block(QuantTy::Exists, free, p0));
            lemma_fits_normal(p0, p, m, free, b);
        }
        assert forall|b: Bounds| #[trigger] enumerable(p0, m0, budget as int, b) implies enumerable(p, m, budget as int, b) by {}
        assert forall|b: Bounds| #[trigger] fits(p0, m0, b) implies in_range(p0, m0) by {
            lemma_fits_range(p0, m0, b);
        }
        assert forall|b: Bounds| #[trigger] enumerable(p, m, budget as int, b) implies in_range(p, m) by {
            lemma_below_ok(m, b.top);
        }
        if in_range(p0, m0) {
            assert forall|x: Var| #[trigger] bound(p, x) implies x.dimacs() <= crate::sat::MAX_NUMBER by {
                if !bound(p0, x) {
                    lemma_mentioned_in_range(m0, x);
                }
            }
        }
    }
    proof {
        assert(arranged(p0, m0, p, m));
        assert forall|b: Bounds| #[trigger] held(p0, m0, b) implies held(p, m, b) by {}
    }
    if current.prefix.len() <= 2 {
        let outcome = solve_normalized(&current, options, &mut cache);
        proof {
            if outcome.verdict == SolverResult::Unknown {
                lemma_step(p0, m0, p, m);
            }
            if outcome.strategy is Some {
                lemma_plays_normalized(&outcome.strategy->0, p0, p, m, unlimited());
                lemma_plays_wins(&outcome.strategy->0, p0, m0, unlimited());
            }
        }
        return (outcome.verdict, outcome.strategy);
    }
    let (reduced, fixed) = match simplify(&current) {
        None => {
            return (SolverResult::Unsatisfiable, None);
        },
        Some(pair) => pair,
    };
    let ghost r = reduced.blocks();
    let ghost n = reduced.clauses();
    let base = fresh_index(&current);
    if reduced.matrix.len() == 0 {
        let done = Rc::new(Strategy::Done);
        proof {
            let zero = |x: Var| false;
            lemma_empty_matrix(r, n, zero);
            lemma_plays_done(r, n, unlimited());
        }
        let strategy = wrap(fixed, done, Ghost(p), Ghost(m), Ghost(r), Ghost(n), Ghost(unlimited()));
        proof {
            lemma_plays_normalized(&strategy, p0, p, m, unlimited());
            lemma_plays_wins(&strategy, p0, m0, unlimited());
        }
        return (SolverResult::Satisfiable, Some(strategy));
    }
    let simplified = reduced.normalized();
    let ghost s = simplified.blocks();
    proof {
        assert forall|b: Bounds| #[trigger] fits(p, m, b) implies fits(s, n, b) by {
            lemma_fits_sub(p, m, r, n, b);
            let free = choose|free: Seq<Var>| #[trigger] free_list(r, n, free) && s == merged(with_block(QuantTy::Exists, free, r));
            lemma_fits_normal(r, s, n, free, b);
        }
        assert forall|b: Bounds| #[trigger] enumerable(p, m, budget as int, b) implies enumerable(s, n, budget as int, b) by {
            assert forall|x: Var| #[trigger] bound_by(s, QuantTy::Forall, x) implies b.moves.contains(x) by {
                assert(bound_by(r, QuantTy::Forall, x));
                assert(bound_by(p, QuantTy::Forall, x));
            }
            assert forall|x: Var| #[trigger] bound(s, x) implies b.vars.contains(x) by {
                if bound(r, x) {
                    lemma_bound_some(r, x);
                    if bound_by(r, QuantTy::Forall, x) {
                        lemma_bound_by(p, QuantTy::Forall, x);
                    } else {
                        lemma_bound_by(p, QuantTy::Exists, x);
                    }
                }
            }
        }
        assert forall|b: Bounds| #[trigger] fits(p, m, b) implies base <= b.top by {
            assert(all_bound_below(p, m, b.top));
        }
        assert forall|b: Bounds| #[trigger] enumerable(p, m, budget as int, b) implies base <= b.top by {
            assert(all_bound_below(p, m, b.top));
        }
        assert(!has_free(r, n));
        assert forall|x: Var| #[trigger] bound(s, x) implies x.id() < base by {
            assert(bound(r, x) || mentions(n, x));
            if bound(r, x) {
                lemma_bound_some(r, x);
                if bound_by(r, QuantTy::Forall, x) {
                    lemma_bound_by(p, QuantTy::Forall, x);
                } else {
                    lemma_bound_by(p, QuantTy::Exists, x);
                }
            } else {
                assert(mentions(m, x));
            }
            assert(bound(p, x));
        }
    }
    let (verdict, inner) = match expandable_block(&simplified, budget, base) {
        None => {
            let outcome = solve_normalized(&simplified, options, &mut cache);
            proof {
                if outcome.verdict == SolverResult::Unknown {
                    assert(normal_of(r, n, s));
                    assert(shortened(p, m, s, n));
                    lemma_step(p, m, s, n);
                    lemma_step(p0, m0, p, m);
                }
                if shape(p0, m0).len() <= 3 {
                    assert forall|b: Bounds| #[trigger] enumerable(p0, m0, budget as int, b) implies outcome.verdict
                        != SolverResult::Unknown by {
                        assert(enumerable(p, m, budget as int, b));
                        assert(enumerable(s, n, budget as int, b));
                        lemma_enumerable(s, n, budget as int, b, base as int);
                        lemma_below_ok(n, b.top);
                    }
                }
                if outcome.strategy is Some {
                    lemma_plays_limit(&outcome.strategy->0, s, n, unlimited(), base as int);
                }
            }
            (outcome.verdict, outcome.strategy)
        },
        Some(block) => {
            proof {
                lemma_innermost(s);
                if block + 2 < s.len() {
                    assert(s[block + 1].0 != s[block + 2].0);
                }
            }
            let (expanded, copies) = expand_universal_block(&simplified, block, base);
            let ghost q = expanded.blocks();
            let ghost e = expanded.clauses();
            let normal = expanded.normalized();
            let outcome = solve_normalized(&normal, options, &mut cache);
            proof {
                lemma_expanded_len(s, q, e, block as int);
                assert forall|b: Bounds| #[trigger] fits(p0, m0, b) implies outcome.verdict != SolverResult::Unknown by {
                    assert(fits(p, m, b));
                    assert(fits(s, n, b));
                    lemma_two_to_mono(s[block as int].1.len(), 8);
                    lemma_two_to_eight();
                    lemma_expanded_range(s, q, e, normal.blocks(), block as int, base as int, b, 256);
                }
                if outcome.verdict == SolverResult::Unknown {
                    let width = two_to(s[block as int].1.len());
                    let len = behind(s, block as int).len();
                    assert forall|b: Bounds| #[trigger] held(p0, m0, b) implies b.top + width * len > crate::sat::MAX_NUMBER by {
                        assert(held(p, m, b));
                        assert(all_bound_below(p, m, b.top));
                        assert forall|x: Var| #[trigger] bound(s, x) implies x.id() < b.top by {
                            lemma_still_bound(p, m, r, n, s, fixed@, x);
                        }
                        if b.top + width * len <= crate::sat::MAX_NUMBER {
                            lemma_expanded_exact(s, q, e, normal.blocks(), block as int, base as int, b.top);
                        }
                    }
                    assert(normal_of(r, n, s));
                    assert(shortened(p, m, s, n));
                    assert(step(p0, m0, p, m) && step(p, m, s, n));
                    assert(reached(s, n, s, n, 0));
                    assert(reached(p, m, s, n, 1));
                    assert(reached(p0, m0, s, n, 2));
                    assert(outnumbered(p0, m0, s, n));
                }
                assert forall|b: Bounds| #[trigger] enumerable(p0, m0, budget as int, b) implies outcome.verdict
                    != SolverResult::Unknown by {
                    assert(enumerable(p, m, budget as int, b));
                    assert(enumerable(s, n, budget as int, b));
                    lemma_block_len(s, QuantTy::Forall, block as int, b.moves);
                    lemma_two_to_mono(s[block as int].1.len(), b.moves.len());
                    lemma_expanded_range(s, q, e, normal.blocks(), block as int, base as int, b, two_to(b.moves.len()) as int);
                }
                let zero = |x: Var| false;
                assert(qbf(s, n, zero) == qbf(q, e, zero));
                lemma_closed_truth(s, n, zero);
                lemma_closed_truth(q, e, zero);
            }
            let strategy = match outcome.strategy {
                Some(rest) => {
                    proof {
                        lemma_plays_normalized(&rest, q, normal.blocks(), e, unlimited());
                        lemma_plays_expanded(copies, rest, s, n, q, e, block as int, base as int);
                    }
                    Some(Rc::new(Strategy::Expanded { copies, rest }))
                },
                None => None,
            };
            (outcome.verdict, strategy)
        },
    };
    let strategy = match inner {
        Some(rest) => {
            proof {
                lemma_plays_normalized(&rest, r, s, n, base as int);
            }
            let strategy = wrap(fixed, rest, Ghost(p), Ghost(m), Ghost(r), Ghost(n), Ghost(base as int));
            proof {
                lemma_plays_normalized(&strategy, p0, p, m, base as int);
                lemma_plays_wins(&strategy, p0, m0, base as int);
            }
            Some(strategy)
        },
        None => None,
    };
    (verdict, strategy)
}

/// Simplification and normal form bind only variables bound before.
proof fn lemma_still_bound(p: Prefix, m: Matrix, r: Prefix, n: Matrix, s: Prefix, fixed: Seq<Lit>, x: Var)
    requires
        simplifies(p, m, r, n, fixed),
        closed_formula(p, m),
        forall|y: Var| #[trigger] bound(s, y) <==> bound(r, y) || mentions(n, y),
        bound(s, x),
    ensures
        bound(p, x),
{
    if bound(r, x) {
        lemma_bound_some(r, x);
        if bound_by(r, QuantTy::Forall, x) {
            lemma_bound_by(p, QuantTy::Forall, x);
        } else {
            lemma_bound_by(p, QuantTy::Exists, x);
        }
    } else {
        assert(mentions(m, x));
    }
}

/// A block has no more variables than a set that holds them.
proof fn lemma_block_len(p: Prefix, q: QuantTy, block: int, set: Set<Var>)
    requires
        prefix_distinct(p),
        0 <= block < p.len(),
        p[block].0 == q,
        set.finite(),
        forall|x: Var| #[trigger] bound_by(p, q, x) ==> set.contains(x),
    ensures
        p[block].1.len() <= set.len(),
{
    assert forall|i: int| 0 <= i < p[block].1.len() implies set.contains(#[trigger] p[block].1[i]) by {
        assert(p[block].1.contains(p[block].1[i]));
        assert(bound_by(p, q, p[block].1[i]));
    }
    lemma_distinct_len(p[block].1, set);
}

/// The variables behind a block are no more than all variables.
proof fn lemma_behind_len(p: Prefix, block: int, set: Set<Var>)
    requires
        prefix_distinct(p),
        0 <= block < p.len(),
        set.finite(),
        forall|x: Var| #[trigger] bound(p, x) ==> set.contains(x),
    ensures
        behind(p, block).len() <= set.len(),
{
    let zs = behind(p, block);
    assert forall|i: int| 0 <= i < zs.len() implies set.contains(#[trigger] zs[i]) by {
        assert(p[block + 1].1.contains(zs[i]));
        assert(bound(p, zs[i]));
    }
    if block + 1 < p.len() {
        assert(p[block + 1].1.no_duplicates());
    }
    lemma_distinct_len(zs, set);
}

/// Enumerating the innermost universal block of three leaves at most two.
proof fn lemma_expanded_len(s: Prefix, q: Prefix, e: Matrix, block: int)
    requires
        s.len() <= 3,
        block < s.len(),
        q.len() == block + 1,
        q[block].1.len() == two_to(s[block].1.len()) * behind(s, block).len(),
        !has_free(q, e),
    ensures
        shape(q, e).len() <= 2,
{
    lemma_shape_len(Seq::empty(), q);
    if block == 2 {
        assert(behind(s, block).len() == 0);
        assert(q[block].1.len() == 0) by (nonlinear_arith)
            requires
                q[block].1.len() == two_to(s[block].1.len()) * behind(s, block).len(),
                behind(s, block).len() == 0,
        ;
        assert(q.last() == q[2]);
        lemma_shape_len(Seq::empty(), q.drop_last());
    }
}

/// An expansion whose copies can be numbered is in range.
proof fn lemma_expanded_exact(s: Prefix, q: Prefix, e: Matrix, normal: Prefix, block: int, base: int, top: int)
    requires
        prefix_distinct(s),
        0 <= block < s.len(),
        q.len() == block + 1,
        forall|i: int| 0 <= i < block ==> #[trigger] q[i] == s[i],
        q[block].1.len() == two_to(s[block].1.len()) * behind(s, block).len(),
        forall|i: int| 0 <= i < q[block].1.len() ==> (#[trigger] q[block].1[i]).id() == base + i,
        closed_formula(q, e),
        forall|x: Var| #[trigger] bound(normal, x) <==> bound(q, x) || mentions(e, x),
        forall|x: Var| #[trigger] bound(s, x) ==> x.id() < top,
        base <= top,
        top + two_to(s[block].1.len()) * behind(s, block).len() <= crate::sat::MAX_NUMBER,
    ensures
        in_range(normal, e),
{
    assert(two_to(s[block].1.len()) * behind(s, block).len() >= 0) by (nonlinear_arith);
    assert forall|x: Var| #[trigger] bound(q, x) implies x.id() < crate::sat::MAX_NUMBER by {
        let i = choose|i: int| 0 <= i < q.len() && (#[trigger] q[i]).1.contains(x);
        if i < block {
            assert(s[i].1.contains(x));
            assert(bound(s, x));
        } else {
            let j = choose|j: int| 0 <= j < q[block].1.len() && q[block].1[j] == x;
            assert(q[block].1[j].id() == base + j);
        }
    }
    assert forall|x: Var| #[trigger] mentions(e, x) implies x.id() < crate::sat::MAX_NUMBER by {
        assert(bound(q, x));
    }
    lemma_below_ok(e, crate::sat::MAX_NUMBER as int);
}

/// An expansion of at most as many copies is in range.
proof fn lemma_expanded_range(s: Prefix, q: Prefix, e: Matrix, normal: Prefix, block: int, base: int, b: Bounds, copies: int)
    requires
        prefix_distinct(s),
        0 <= block < s.len(),
        q.len() == block + 1,
        forall|i: int| 0 <= i < block ==> #[trigger] q[i] == s[i],
        q[block].1.len() == two_to(s[block].1.len()) * behind(s, block).len(),
        forall|i: int| 0 <= i < q[block].1.len() ==> (#[trigger] q[block].1[i]).id() == base + i,
        closed_formula(q, e),
        forall|x: Var| #[trigger] bound(normal, x) <==> bound(q, x) || mentions(e, x),
        b.vars.finite(),
        forall|x: Var| #[trigger] bound(s, x) ==> b.vars.contains(x),
        forall|x: Var| #[trigger] b.vars.contains(x) ==> x.id() < b.top,
        base <= b.top,
        two_to(s[block].1.len()) <= copies,
        b.top + copies * b.vars.len() <= crate::sat::MAX_NUMBER,
    ensures
        in_range(normal, e),
{
    lemma_behind_len(s, block, b.vars);
    let width = two_to(s[block].1.len());
    let len = behind(s, block).len();
    assert(width * len <= copies * b.vars.len()) by (nonlinear_arith)
        requires
            width <= copies,
            len <= b.vars.len(),
    ;
    assert(copies * b.vars.len() >= 0) by (nonlinear_arith)
        requires
            copies >= 1 || copies >= width,
            width >= 0,
    ;
    assert forall|x: Var| #[trigger] bound(q, x) implies x.id() < crate::sat::MAX_NUMBER by {
        let i = choose|i: int| 0 <= i < q.len() && (#[trigger] q[i]).1.contains(x);
        if i < block {
            assert(s[i].1.contains(x));
            assert(bound(s, x));
        } else {
            let j = choose|j: int| 0 <= j < q[block].1.len() && q[block].1[j] == x;
            assert(q[block].1[j].id() == base + j);
        }
    }
    lemma_below_ok(e, crate::sat::MAX_NUMBER as int);
}

/// A formula of at most three blocks whose universal variables can be
/// enumerated has a block that can, unless it has no universal one.
proof fn lemma_enumerable(s: Prefix, n: Matrix, budget: int, b: Bounds, base: int)
    requires
        alternating(s),
        prefix_distinct(s),
        s.len() <= 3,
        enumerable(s, n, budget, b),
        base <= b.top,
        forall|block: int| !expandable(s, n, budget, base, block),
    ensures
        s.len() <= 2,
{
    lemma_innermost(s);
    let block = innermost_universal(s);
    if block >= 0 {
        lemma_block_len(s, QuantTy::Forall, block, b.moves);
        lemma_behind_len(s, block, b.vars);
        lemma_two_to_mono(s[block].1.len(), b.moves.len());
        lemma_len_size(n);
        let (w, c) = (two_to(s[block].1.len()), two_to(b.moves.len()));
        let len = behind(s, block).len();
        assert(w * n.len() <= c * b.size) by (nonlinear_arith)
            requires
                w <= c,
                n.len() <= b.size,
        ;
        assert(w * len <= c * b.vars.len()) by (nonlinear_arith)
            requires
                w <= c,
                len <= b.vars.len(),
        ;
        assert(expandable(s, n, budget, base, block));
    } else if s.len() > 1 {
        assert(s[0].0 != s[1].0);
    }
}

/// A matrix has no more clauses than clauses and literals.
proof fn lemma_len_size(m: Matrix)
    ensures
        m.len() <= size_of(m),
    decreases m.len(),
{
    if m.len() > 0 {
        lemma_len_size(m.drop_last());
    }
}

/// Variables of clauses in range are in range.
proof fn lemma_mentioned_in_range(m: Matrix, x: Var)
    requires
        crate::sat::clauses_ok(m),
        mentions(m, x),
    ensures
        x.dimacs() <= crate::sat::MAX_NUMBER,
{
    let i = choose|i: int| 0 <= i < m.len() && clause_mentions(#[trigger] m[i], x);
    let j = choose|j: int| 0 <= j < m[i].len() && (#[trigger] m[i][j]).v() == x;
    assert(crate::sat::lits_ok(m[i]));
    assert(crate::sat::lit_ok(m[i][j]));
}

} // verus!
