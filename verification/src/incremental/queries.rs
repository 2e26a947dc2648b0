//! Solving the stack, and what a solve leaves to ask for.
use crate::clause::implied;
use crate::compose::restricts;
use crate::datastructure::{LitSet, VarSet};
use crate::incdet::circuit::circuit_value;
use crate::incdet::load::universal_first;
use crate::incdet::model::SkolemModel;
use crate::incdet::{certifies, circuit_satisfies, evidence_ok, extended, extends_prefix, in_range, model_prefix, needed, refutes, units, verdict_ok, IncDet};
use crate::incremental::stack::{
    coverage, covered, fully_covered, is_same_blocks, lemma_lower_frames, lemma_refuted, lemma_same_truth, same_blocks, stack_blocks, stacked_clauses, Frame,
};
use crate::incremental::terms::Node;
use crate::incremental::{
    clause_of, evidence, lemma_concat_true, lits_of, numbers_in_range, numbers_of, proper_numbers, Base, IncrementalSolver, Served,
};
use crate::literal::{Lit, Var};
use crate::normal::{copy_clauses, copy_lits, has_free, lemma_shape_len, shape};
use crate::qcnf::{matrix_of, QCNF};
use crate::quantifier::QuantTy;
use crate::sat::{clauses_ok, consistent, lits_ok, same_clause, SatOutcome, SatSolver};
use crate::semantics::{
    bound, bound_by, clause_mentions, clause_true, cube_true, formula_true, lit_true, matrix_true, mentions, prefix_distinct, Assignment,
    Matrix, Prefix,
};
use crate::simplify::{apply_forced, retain_vars};
use crate::strategy_check::leaf_numbered;
use crate::SolverResult;
use std::rc::Rc;
use vstd::prelude::*;

verus! {

broadcast use crate::literal::group_literal;

proof fn lemma_satisfies_weaker(model: SkolemModel, p: Prefix, m: Matrix, q: Prefix, n: Matrix)
    requires
        circuit_satisfies(model, p, m),
        forall|a: Assignment| #[trigger] matrix_true(a, m) ==> matrix_true(a, n),
    ensures
        circuit_satisfies(model, q, n),
{
    assert forall|a: Assignment|
        (forall|x: Var| #[trigger] model.defines(x) ==> a(x) == circuit_value(
            model,
            Map::new(|u: Var| model.spec_universals().contains(u), |u: Var| a(u)),
            x,
        )) implies #[trigger] matrix_true(a, n) by {
        assert(matrix_true(a, m));
    }
}

/// The next value of a counter that stops at its largest one.
pub open spec fn next_count(count: u32) -> u32 {
    if count < u32::MAX {
        (count + 1) as u32
    } else {
        count
    }
}

/// The solver's formula is the given one, up to the order of variables and
/// clauses.
spec fn stands_for(solver: IncDet, p: Prefix, m: Matrix) -> bool {
    &&& same_blocks(solver.blocks(), p)
    &&& forall|a: Assignment| #[trigger] matrix_true(a, solver.clauses()) == matrix_true(a, m)
    &&& forall|i: int| 0 <= i < solver.clauses().len() ==> m.contains(#[trigger] solver.clauses()[i])
}

/// Evidence for a formula is evidence for what it stands for, with the
/// same additions.
proof fn lemma_evidence_moves(solver: IncDet, verdict: SolverResult, p: Prefix, m: Matrix, more: Matrix)
    requires
        stands_for(solver, p, m),
        evidence(solver, verdict, solver.blocks(), solver.clauses() + more),
        verdict == SolverResult::Unsatisfiable ==> solver.refuted(),
    ensures
        evidence(solver, verdict, p, m + more),
{
    let q = solver.blocks();
    let n = solver.clauses();
    assert forall|a: Assignment| #[trigger] matrix_true(a, n + more) == matrix_true(a, m + more) by {
        lemma_concat_true(a, n, more);
        lemma_concat_true(a, m, more);
    }
    assert forall|x: Var| #[trigger] bound_by(q, QuantTy::Forall, x) implies bound_by(p, QuantTy::Forall, x) by {
        let k = choose|k: int| 0 <= k < q.len() && (#[trigger] q[k]).0 == QuantTy::Forall && q[k].1.contains(x);
        assert(p[k].0 == QuantTy::Forall && p[k].1.contains(x));
    }
    if verdict == SolverResult::Satisfiable {
        let model = solver.model()->0;
        assert forall|universal: Map<Var, bool>, x: Var|
            #![trigger model.values(universal).contains_key(x)]
            crate::incdet::model::assigns(universal, model.spec_universals()) && model.values(universal).contains_key(x) implies bound(p, x)
            || mentions(m + more, x) by {
            if bound(q, x) {
                let k = choose|k: int| 0 <= k < q.len() && (#[trigger] q[k]).1.contains(x);
                assert(p[k].1.contains(x));
            } else {
                crate::incremental::lemma_concat_mentions(n, more, x);
                crate::incremental::lemma_concat_mentions(m, more, x);
                if mentions(n, x) {
                    let i = choose|i: int| 0 <= i < n.len() && clause_mentions(#[trigger] n[i], x);
                    assert(m.contains(n[i]));
                    let j = choose|j: int| 0 <= j < m.len() && m[j] == n[i];
                    assert(clause_mentions(m[j], x));
                }
            }
        }
        assert forall|x: Var| #[trigger] bound_by(p, QuantTy::Forall, x) implies bound_by(q, QuantTy::Forall, x) by {
            let k = choose|k: int| 0 <= k < p.len() && (#[trigger] p[k]).0 == QuantTy::Forall && p[k].1.contains(x);
            assert(q[k].0 == QuantTy::Forall && q[k].1.contains(x));
        }
        assert forall|x: Var| #[trigger] model.defines(x) implies (bound(p, x) || mentions(m + more, x)) && !bound_by(
            p,
            QuantTy::Forall,
            x,
        ) by {
            if bound(q, x) {
                let k = choose|k: int| 0 <= k < q.len() && (#[trigger] q[k]).1.contains(x);
                assert(p[k].1.contains(x));
            } else {
                crate::incremental::lemma_concat_mentions(n, more, x);
                crate::incremental::lemma_concat_mentions(m, more, x);
                if mentions(n, x) {
                    let i = choose|i: int| 0 <= i < n.len() && clause_mentions(#[trigger] n[i], x);
                    assert(m.contains(n[i]));
                    let j = choose|j: int| 0 <= j < m.len() && m[j] == n[i];
                    assert(clause_mentions(m[j], x));
                }
            }
        }
        assert(model.wins(m + more)) by {
            assert(model.wins(n + more));
        }
    }
    if verdict != SolverResult::Unknown {
        assert forall|a: Assignment| #[trigger] matrix_true(a, m + more) implies matrix_true(a, solver.goal()) by {
            assert(matrix_true(a, n + more));
        }
    }
    if verdict == SolverResult::Unsatisfiable {
        let w = solver.witness()->0;
        assert forall|a: Assignment| #[trigger] cube_true(a, w) implies !matrix_true(a, m + more) by {
            assert(!matrix_true(a, n + more));
        }
        assert forall|i: int| 0 <= i < w.len() implies bound_by(p, QuantTy::Forall, (#[trigger] w[i]).v()) by {
            assert(bound_by(q, QuantTy::Forall, w[i].v()));
        }
    }
}

/// Two blocks without free variables, or one block, do not alternate more
/// than once.
proof fn lemma_short_shape(p: Prefix, m: Matrix)
    requires
        p.len() <= 1 || (p.len() <= 2 && !has_free(p, m)),
    ensures
        shape(p, m).len() <= 2,
{
    lemma_shape_len(crate::normal::push_shape(Seq::empty(), QuantTy::Exists, !has_free(p, m)), p);
}

/// At most one block, or two without free variables.
pub open spec fn simple_form(p: Prefix, m: Matrix) -> bool {
    p.len() <= 1 || (p.len() == 2 && !has_free(p, m))
}

/// The depths of the clauses of the first frames.
pub open spec fn stacked_depths(frames: Seq<Frame>, count: int) -> Seq<usize>
    decreases count,
{
    if count <= 0 {
        Seq::empty()
    } else {
        stacked_depths(frames, count - 1) + Seq::new(frames[count - 1].clauses@.len(), |i: int| (count - 1) as usize)
    }
}

/// What is beyond a position.
pub open spec fn beyond<T>(s: Seq<T>, from: int) -> Seq<T> {
    if from <= s.len() {
        s.skip(from)
    } else {
        Seq::empty()
    }
}

/// The sizes integrated of a frame.
pub open spec fn sizes_of(integrated: Seq<(usize, usize, usize)>, d: int) -> (usize, usize, usize) {
    if d < integrated.len() {
        integrated[d]
    } else {
        (0, 0, 0)
    }
}

/// The universal variables of the first frames beyond the integrated
/// sizes.
pub open spec fn new_universals(frames: Seq<Frame>, integrated: Seq<(usize, usize, usize)>, count: int) -> Seq<Var>
    decreases count,
{
    if count <= 0 {
        Seq::empty()
    } else {
        new_universals(frames, integrated, count - 1) + beyond(
            frames[count - 1].universals@,
            sizes_of(integrated, count - 1).0 as int,
        )
    }
}

/// The existential variables of the first frames beyond the integrated
/// sizes.
pub open spec fn new_existentials(frames: Seq<Frame>, integrated: Seq<(usize, usize, usize)>, count: int) -> Seq<Var>
    decreases count,
{
    if count <= 0 {
        Seq::empty()
    } else {
        new_existentials(frames, integrated, count - 1) + beyond(
            frames[count - 1].existentials@,
            sizes_of(integrated, count - 1).1 as int,
        )
    }
}

/// The clauses of the first frames beyond the integrated sizes.
pub open spec fn new_clauses(frames: Seq<Frame>, integrated: Seq<(usize, usize, usize)>, count: int) -> Matrix
    decreases count,
{
    if count <= 0 {
        Seq::empty()
    } else {
        new_clauses(frames, integrated, count - 1) + beyond(frames[count - 1].matrix(), sizes_of(integrated, count - 1).2 as int)
    }
}

/// The depths of those clauses.
pub open spec fn new_depths(frames: Seq<Frame>, integrated: Seq<(usize, usize, usize)>, count: int) -> Seq<usize>
    decreases count,
{
    if count <= 0 {
        Seq::empty()
    } else {
        new_depths(frames, integrated, count - 1) + Seq::new(
            beyond(frames[count - 1].matrix(), sizes_of(integrated, count - 1).2 as int).len(),
            |i: int| (count - 1) as usize,
        )
    }
}

/// No frame holds anything beyond the integrated sizes.
pub open spec fn nothing_new(frames: Seq<Frame>, integrated: Seq<(usize, usize, usize)>, count: int) -> bool {
    forall|d: int| 0 <= d < count ==> within_sizes(#[trigger] frames[d], sizes_of(integrated, d))
}

/// The frame holds nothing beyond sizes.
pub open spec fn within_sizes(frame: Frame, sizes: (usize, usize, usize)) -> bool {
    frame.universals@.len() <= sizes.0 && frame.existentials@.len() <= sizes.1 && frame.clauses@.len() <= sizes.2
}

proof fn lemma_nothing_new(frames: Seq<Frame>, integrated: Seq<(usize, usize, usize)>, count: int)
    requires
        0 <= count <= frames.len(),
    ensures
        nothing_new(frames, integrated, count) == (new_universals(frames, integrated, count).len() == 0 && new_existentials(
            frames,
            integrated,
            count,
        ).len() == 0 && new_clauses(frames, integrated, count).len() == 0),
    decreases count,
{
    if count > 0 {
        let d = count - 1;
        lemma_nothing_new(frames, integrated, d);
        if nothing_new(frames, integrated, count) {
            assert(within_sizes(frames[d], sizes_of(integrated, d)));
            assert forall|i: int| 0 <= i < d implies within_sizes(#[trigger] frames[i], sizes_of(integrated, i)) by {}
            assert(nothing_new(frames, integrated, d));
        }
        if nothing_new(frames, integrated, d) && within_sizes(frames[d], sizes_of(integrated, d)) {
            assert forall|i: int| 0 <= i < count implies within_sizes(#[trigger] frames[i], sizes_of(integrated, i)) by {}
        }
    }
}

/// The clause is carried.
pub open spec fn carries(learnt: Seq<(usize, Vec<Lit>)>, c: Seq<Lit>) -> bool {
    exists|i: int| 0 <= i < learnt.len() && (#[trigger] learnt[i]).1@ == c
}

/// The first clauses are carried; those that were not are new, tagged with
/// a depth.
pub open spec fn harvested(
    before: Seq<(usize, Vec<Lit>)>,
    after: Seq<(usize, Vec<Lit>)>,
    clauses: Matrix,
    count: int,
    depth: int,
) -> bool {
    &&& before.is_prefix_of(after)
    &&& forall|i: int| 0 <= i < count ==> carries(after, #[trigger] clauses[i])
    &&& forall|i: int| before.len() <= i < after.len() ==> (#[trigger] after[i]).0 == depth && clauses.contains(after[i].1@)
}

proof fn lemma_harvest(before: Seq<(usize, Vec<Lit>)>, noted: Seq<(usize, Vec<Lit>)>, after: Seq<(usize, Vec<Lit>)>, clauses: Matrix, k: int, depth: int)
    requires
        0 <= k < clauses.len(),
        harvested(before, noted, clauses, k, depth),
        after == noted && carries(noted, clauses[k]) || after.len() == noted.len() + 1 && noted.is_prefix_of(after) && after.last().0 == depth
            && after.last().1@ == clauses[k],
    ensures
        harvested(before, after, clauses, k + 1, depth),
{
    assert forall|i: int| 0 <= i < k + 1 implies carries(after, #[trigger] clauses[i]) by {
        if i < k {
            assert(carries(noted, clauses[i]));
            let j = choose|j: int| 0 <= j < noted.len() && (#[trigger] noted[j]).1@ == clauses[i];
            assert(after[j] == noted[j]);
        } else if after != noted {
            assert(after[after.len() - 1].1@ == clauses[k]);
        }
    }
    assert forall|i: int| before.len() <= i < after.len() implies (#[trigger] after[i]).0 == depth && clauses.contains(after[i].1@) by {
        if i < noted.len() {
            assert(after[i] == noted[i]);
        } else {
            assert(clauses.contains(clauses[k]));
        }
    }
}

impl IncrementalSolver {
    /// The live solver has integrated the whole stack.
    spec fn integrated_all(&self, base: Base) -> bool {
        nothing_new(self.frames@, base.integrated@, self.frames@.len() as int)
    }

    /// A solver has the blocks and the clauses of the stack.
    spec fn up_to_date(&self, solver: IncDet, p: Prefix) -> bool {
        same_blocks(solver.blocks(), p) && fully_covered(self.frames@, solver.clauses(), solver.clause_depths())
    }

    /// A solver of part of the stack has a refuting move that is one of the
    /// stack too.
    spec fn refuted_by(&self, solver: IncDet, p: Prefix) -> bool {
        &&& covered(self.frames@, solver.clauses(), solver.clause_depths())
        &&& solver.refuted()
        &&& forall|i: int| 0 <= i < solver.witness()->0.len() ==> bound_by(p, QuantTy::Forall, (#[trigger] solver.witness()->0[i]).v())
    }

    /// The live solver can take what the stack has more in place.
    spec fn takes_more(&self, base: Base) -> bool {
        let n = self.frames@.len() as int;
        base.solver.can_take(
            new_universals(self.frames@, base.integrated@, n),
            new_existentials(self.frames@, base.integrated@, n),
            new_clauses(self.frames@, base.integrated@, n),
        )
    }

    /// The live solver can take what the stack has more in place, and then
    /// has the formula of the stack, whose variables are in range.
    spec fn takes_all(&self, base: Base, p: Prefix) -> bool {
        let n = self.frames@.len() as int;
        let q = extended(
            base.solver.blocks(),
            new_universals(self.frames@, base.integrated@, n),
            new_existentials(self.frames@, base.integrated@, n),
        );
        let all = base.solver.clauses() + new_clauses(self.frames@, base.integrated@, n);
        &&& self.takes_more(base)
        &&& base.solver.extensions() < u32::MAX
        &&& same_blocks(q, p)
        &&& fully_covered(self.frames@, all, base.solver.clause_depths() + new_depths(self.frames@, base.integrated@, n))
        &&& in_range(q, all)
    }

    /// The last plain solve was satisfiable, its solver is live, and the
    /// stack has one alternation by its form.
    spec fn has_live(&self) -> bool {
        &&& self.base is Some
        &&& self.base->0.result == SolverResult::Satisfiable
        &&& simple_form(self.blocks(), self.clauses())
    }

    /// A satisfiable live solver answers for the stack as it is.
    pub closed spec fn answers(&self) -> bool {
        self.has_live() && !self.base->0.queried && self.integrated_all(self.base->0) && self.up_to_date(self.base->0.solver, self.blocks())
    }

    /// A satisfiable live solver can take what the stack has more in place.
    pub closed spec fn extends_in_place(&self) -> bool {
        self.has_live() && !self.answers() && self.takes_more(self.base->0)
    }

    /// A satisfiable live solver can take what the stack has more in place,
    /// and then has the formula of the stack, whose variables are in range.
    pub closed spec fn answers_in_place(&self) -> bool {
        self.has_live() && !self.answers() && self.takes_all(self.base->0, self.blocks())
    }

    /// What a plain solve does to the counts of extensions. With
    /// continuation off a solver is built anew. With it on, the live solver
    /// is extended wherever it can take what the stack has more.
    pub open spec fn counted(&self, later: &IncrementalSolver) -> bool {
        &&& !self.continues() ==> later.total() == self.total() && later.continued() == 0
        &&& self.continues() && self.answers() ==> later.total() == self.total() && later.continued() == self.continued()
        &&& self.continues() && self.extends_in_place() ==> later.total() == next_count(self.total())
        &&& self.continues() && self.answers_in_place() ==> later.total() == next_count(self.total()) && later.continued() == next_count(
            self.continued(),
        )
        &&& self.total() <= later.total() <= next_count(self.total())
    }

    /// Whether a solver's formula is that of the stack.
    fn is_current(&self, solver: &IncDet, formula: &QCNF) -> (current: bool)
        requires
            solver.wf(),
            formula.blocks() == stack_blocks(self.frames@),
            formula.clauses() == stacked_clauses(self.frames@),
        ensures
            current ==> stands_for(*solver, formula.blocks(), formula.clauses()),
            current == self.up_to_date(*solver, formula.blocks()),
    {
        let held = solver.formula();
        if !is_same_blocks(&held.prefix, &formula.prefix) {
            return false;
        }
        match coverage(&self.frames, &held.matrix, solver.depths()) {
            Some(true) => {
                assert(matrix_of(held.matrix@) == solver.clauses());
                true
            },
            _ => false,
        }
    }

    /// Whether the stack's formula has at most one alternation by its form.
    fn is_simple(formula: &QCNF) -> (simple: bool)
        ensures
            simple ==> shape(formula.blocks(), formula.clauses()).len() <= 2,
            simple == simple_form(formula.blocks(), formula.clauses()),
    {
        assert(formula.blocks().len() == formula.prefix@.len());
        if formula.prefix.len() > 2 {
            return false;
        }
        let free = formula.free_variables();
        if formula.prefix.len() <= 1 || free.len() == 0 {
            proof {
                if has_free(formula.blocks(), formula.clauses()) && free@.len() == 0 {
                    let x = choose|x: Var| #[trigger] mentions(formula.clauses(), x) && !bound(formula.blocks(), x);
                    assert(free@.contains(x));
                }
                lemma_short_shape(formula.blocks(), formula.clauses());
            }
            true
        } else {
            proof {
                assert(free@.contains(free@[0]));
                assert(mentions(formula.clauses(), free@[0]) && !bound(formula.blocks(), free@[0]));
            }
            false
        }
    }

    /// The stack content beyond the integrated per-frame sizes.
    fn delta(&self, integrated: &Vec<(usize, usize, usize)>) -> (result: (Vec<Var>, Vec<Var>, Vec<Vec<Lit>>, Vec<usize>))
        ensures
            result.2@.len() == result.3@.len(),
            result.0@ == new_universals(self.frames@, integrated@, self.frames@.len() as int),
            result.1@ == new_existentials(self.frames@, integrated@, self.frames@.len() as int),
            matrix_of(result.2@) == new_clauses(self.frames@, integrated@, self.frames@.len() as int),
            result.3@ == new_depths(self.frames@, integrated@, self.frames@.len() as int),
    {
        let mut universals: Vec<Var> = Vec::new();
        let mut existentials: Vec<Var> = Vec::new();
        let mut clauses: Vec<Vec<Lit>> = Vec::new();
        let mut depths: Vec<usize> = Vec::new();
        let mut d: usize = 0;
        assert(matrix_of(clauses@) =~= Matrix::empty());
        while d < self.frames.len()
            invariant
                d <= self.frames@.len(),
                clauses@.len() == depths@.len(),
                universals@ == new_universals(self.frames@, integrated@, d as int),
                existentials@ == new_existentials(self.frames@, integrated@, d as int),
                matrix_of(clauses@) == new_clauses(self.frames@, integrated@, d as int),
                depths@ == new_depths(self.frames@, integrated@, d as int),
            decreases self.frames.len() - d,
        {
            let ghost before = (universals@, existentials@, matrix_of(clauses@), depths@);
            let (u, e, c) = if d < integrated.len() {
                integrated[d]
            } else {
                (0, 0, 0)
            };
            let frame = &self.frames[d];
            let mut k = u;
            assert(before.0 + beyond(frame.universals@, u as int).take(0) =~= before.0);
            while k < frame.universals.len()
                invariant
                    u <= k,
                    k <= frame.universals@.len() || k == u,
                    universals@ == before.0 + beyond(frame.universals@, u as int).take(k - u),
                decreases frame.universals.len() - k,
            {
                universals.push(frame.universals[k]);
                assert(before.0 + beyond(frame.universals@, u as int).take(k - u + 1) =~= (before.0 + beyond(frame.universals@, u as int).take(
                    k - u,
                )).push(frame.universals@[k as int]));
                k += 1;
            }
            proof {
                let all = beyond(frame.universals@, u as int);
                if k > u {
                    assert(all.take(k - u) =~= all);
                } else {
                    assert(all.take(0) =~= all);
                }
            }
            let mut k = e;
            assert(before.1 + beyond(frame.existentials@, e as int).take(0) =~= before.1);
            while k < frame.existentials.len()
                invariant
                    e <= k,
                    k <= frame.existentials@.len() || k == e,
                    existentials@ == before.1 + beyond(frame.existentials@, e as int).take(k - e),
                decreases frame.existentials.len() - k,
            {
                existentials.push(frame.existentials[k]);
                assert(before.1 + beyond(frame.existentials@, e as int).take(k - e + 1) =~= (before.1 + beyond(
                    frame.existentials@,
                    e as int,
                ).take(k - e)).push(frame.existentials@[k as int]));
                k += 1;
            }
            proof {
                let all = beyond(frame.existentials@, e as int);
                if k > e {
                    assert(all.take(k - e) =~= all);
                } else {
                    assert(all.take(0) =~= all);
                }
            }
            let mut k = c;
            let ghost rows = frame.matrix();
            proof {
                assert(before.2 + beyond(rows, c as int).take(0) =~= before.2);
                assert(before.3 + Seq::new(0, |i: int| d) =~= before.3);
            }
            while k < frame.clauses.len()
                invariant
                    c <= k,
                    k <= frame.clauses@.len() || k == c,
                    rows == frame.matrix(),
                    clauses@.len() == depths@.len(),
                    matrix_of(clauses@) == before.2 + beyond(rows, c as int).take(k - c),
                    depths@ == before.3 + Seq::new((k - c) as nat, |i: int| d),
                decreases frame.clauses.len() - k,
            {
                let ghost held = matrix_of(clauses@);
                clauses.push(copy_lits(&frame.clauses[k]));
                depths.push(d);
                proof {
                    assert(matrix_of(clauses@) =~= held.push(rows[k as int]));
                    assert(before.2 + beyond(rows, c as int).take(k - c + 1) =~= held.push(rows[k as int]));
                    assert(before.3 + Seq::new((k - c + 1) as nat, |i: int| d) =~= depths@);
                }
                k += 1;
            }
            proof {
                let all = beyond(rows, c as int);
                if k > c {
                    assert(all.take(k - c) =~= all);
                } else {
                    assert(all.take(0) =~= all);
                }
                assert(all.len() == k - c);
            }
            d += 1;
            assert(depths@ =~= new_depths(self.frames@, integrated@, d as int));
        }
        (universals, existentials, clauses, depths)
    }

    /// Serves the live solver for the stack as it is.
    fn serve(&mut self, base: Base, verdict: SolverResult, Ghost(p): Ghost<Prefix>, Ghost(m): Ghost<Matrix>)
        requires
            old(self).wf(),
            base.wf(),
            evidence(base.solver, verdict, p, m),
        ensures
            final(self).wf(),
            final(self).same_stack(old(self)),
            final(self).verdict() == Some(verdict),
            final(self).goal() == (p, m),
            final(self).domain() == Seq::<Lit>::empty(),
            final(self).learnt == old(self).learnt,
            final(self).extensions == old(self).extensions,
            final(self).base == Some(base),
    {
        self.query = None;
        self.base = Some(base);
        self.last = Some(Served::Base(verdict));
        self.asked = Ghost((p, m));
    }

    /// Solves the conjunction of the assertion stack. When the changes
    /// since the last plain solve are monotone the live solver is continued
    /// in place; otherwise a fresh solver is built from the stack and the
    /// carried learnt clauses.
    pub fn solve(&mut self) -> (verdict: SolverResult)
        requires
            old(self).wf(),
        ensures
            final(self).wf(),
            final(self).stack() == old(self).stack(),
            final(self).fresh() == old(self).fresh(),
            final(self).introduced() == old(self).introduced(),
            verdict_ok(old(self).blocks(), old(self).clauses(), verdict),
            final(self).verdict() == Some(verdict),
            final(self).goal() == (old(self).blocks(), old(self).clauses()),
            final(self).domain() == Seq::<Lit>::empty(),
            final(self).continues() == old(self).continues(),
            final(self).keeps_terms(old(self)),
            old(self).counted(final(self)),
            old(self).carried().is_prefix_of(final(self).carried()),
    {
        let verdict = self.solve_stack();
        proof {
            assert(old(self).carried() =~= self.carried().take(old(self).carried().len() as int));
            self.lemma_keeps_terms(old(self));
        }
        verdict
    }

    fn solve_stack(&mut self) -> (verdict: SolverResult)
        requires
            old(self).wf(),
        ensures
            final(self).wf(),
            final(self).same_stack(old(self)),
            verdict_ok(old(self).blocks(), old(self).clauses(), verdict),
            final(self).verdict() == Some(verdict),
            final(self).goal() == (old(self).blocks(), old(self).clauses()),
            final(self).domain() == Seq::<Lit>::empty(),
            old(self).counted(final(self)),
            old(self).learnt@.is_prefix_of(final(self).learnt@),
    {
        let ghost p = self.blocks();
        let ghost m = self.clauses();
        self.query = None;
        self.last = None;
        let formula = self.qcnf();
        if self.continuation && IncrementalSolver::is_simple(&formula) {
            let live = self.base.take();
            match live {
                None => {},
                Some(base) => {
                    match self.continue_solve(base, &formula) {
                        Some(verdict) => {
                            return verdict;
                        },
                        None => {},
                    }
                },
            }
        }
        let depths = self.clause_depths();
        assert(depths@.len() == formula.clauses().len());
        let mut solver = IncDet::from_frames(&formula, depths, self.options);
        let carried = self.carried_clauses();
        solver.seed(carried);
        let verdict = solver.solve();
        proof {
            lemma_evidence_of(solver, verdict);
        }
        self.harvest_learnt(&solver);
        let base = Base { result: verdict, solver, integrated: self.frame_sizes(), queried: false };
        self.serve(base, verdict, Ghost(p), Ghost(m));
        verdict
    }

    /// Continues the live solver; `None` when it cannot answer for the
    /// stack.
    fn continue_solve(&mut self, base: Base, formula: &QCNF) -> (verdict: Option<SolverResult>)
        requires
            old(self).wf(),
            old(self).base is None,
            old(self).last is None,
            base.wf(),
            formula.wf(),
            formula.blocks() == old(self).blocks(),
            formula.clauses() == old(self).clauses(),
            shape(formula.blocks(), formula.clauses()).len() <= 2,
        ensures
            final(self).wf(),
            final(self).same_stack(old(self)),
            final(self).extensions <= next_count(old(self).extensions),
            old(self).learnt@.is_prefix_of(final(self).learnt@),
            old(self).extensions <= final(self).extensions,
            base.result == SolverResult::Satisfiable && !(!base.queried && old(self).integrated_all(base) && old(self).up_to_date(
                base.solver,
                formula.blocks(),
            )) && old(self).takes_more(base) ==> final(self).extensions == next_count(old(self).extensions),
            base.result == SolverResult::Satisfiable && !(!base.queried && old(self).integrated_all(base) && old(self).up_to_date(
                base.solver,
                formula.blocks(),
            )) && old(self).takes_all(base, formula.blocks()) ==> verdict is Some && final(self).continued() == next_count(
                base.solver.extensions(),
            ),
            base.result == SolverResult::Satisfiable && !base.queried && old(self).integrated_all(base) && old(self).up_to_date(
                base.solver,
                formula.blocks(),
            ) ==> final(self).extensions == old(self).extensions && final(self).continued() == base.solver.extensions(),
            base.result == SolverResult::Unknown ==> verdict is None,
            base.result == SolverResult::Unsatisfiable ==> (verdict is Some <==> !base.queried && old(self).refuted_by(
                base.solver,
                formula.blocks(),
            )) && (verdict is Some ==> verdict == Some(SolverResult::Unsatisfiable)),
            base.result == SolverResult::Satisfiable && !base.queried && old(self).integrated_all(base) && old(self).up_to_date(
                base.solver,
                formula.blocks(),
            ) ==> verdict == Some(SolverResult::Satisfiable),
            match verdict {
                Some(verdict) => {
                    &&& verdict_ok(formula.blocks(), formula.clauses(), verdict)
                    &&& final(self).verdict() == Some(verdict)
                    &&& final(self).goal() == (formula.blocks(), formula.clauses())
                    &&& final(self).domain() == Seq::<Lit>::empty()
                },
                None => final(self).last is None,
            },
    {
        let ghost p = formula.blocks();
        let ghost m = formula.clauses();
        let (universals, existentials, clauses, depths) = self.delta(&base.integrated);
        let unchanged = universals.len() == 0 && existentials.len() == 0 && clauses.len() == 0;
        proof {
            lemma_nothing_new(self.frames@, base.integrated@, self.frames@.len() as int);
            assert(matrix_of(clauses@).len() == clauses@.len());
        }
        match base.result {
            SolverResult::Unsatisfiable => {
                // adding clauses and variables keeps an unsatisfiable
                // instance unsatisfiable
                if !base.queried && self.is_refuted_by(&base.solver, formula) {
                    self.serve(base, SolverResult::Unsatisfiable, Ghost(p), Ghost(m));
                    return Some(SolverResult::Unsatisfiable);
                }
                None
            },
            SolverResult::Satisfiable => {
                if unchanged && !base.queried && self.is_current(&base.solver, formula) {
                    proof {
                        lemma_plain_evidence(base.solver, SolverResult::Satisfiable, p, m);
                        lemma_same_truth(base.solver.blocks(), p, base.solver.clauses(), m);
                    }
                    self.serve(base, SolverResult::Satisfiable, Ghost(p), Ghost(m));
                    return Some(SolverResult::Satisfiable);
                }
                let mut solver = base.solver;
                match solver.extend_and_resolve(&universals, &existentials, &clauses, &depths) {
                    None => {
                        // what the live solver learnt stays valid
                        self.harvest_learnt(&solver);
                        None
                    },
                    Some(verdict) => {
                        proof {
                            lemma_evidence_of(solver, verdict);
                        }
                        self.harvest_learnt(&solver);
                        self.extensions = self.extensions.saturating_add(1);
                        let shown = verdict != SolverResult::Unsatisfiable || solver.unsat_witness().is_some();
                        if verdict != SolverResult::Unknown && shown && self.is_current(&solver, formula) {
                            proof {
                                lemma_plain_evidence(solver, verdict, p, m);
                                lemma_same_truth(solver.blocks(), p, solver.clauses(), m);
                            }
                            let base = Base { result: verdict, solver, integrated: self.frame_sizes(), queried: false };
                            self.serve(base, verdict, Ghost(p), Ghost(m));
                            return Some(verdict);
                        }
                        None
                    },
                }
            },
            SolverResult::Unknown => None,
        }
    }

    /// Whether the move recorded by a solver of part of the stack refutes
    /// the stack.
    fn is_refuted_by(&self, solver: &IncDet, formula: &QCNF) -> (refuted: bool)
        requires
            solver.wf(),
            solver.goal() == solver.clauses(),
            evidence(*solver, SolverResult::Unsatisfiable, solver.blocks(), solver.clauses()),
            formula.wf(),
            formula.blocks() == stack_blocks(self.frames@),
            formula.clauses() == stacked_clauses(self.frames@),
        ensures
            refuted == self.refuted_by(*solver, formula.blocks()),
            refuted ==> !formula_true(formula.blocks(), formula.clauses()) && evidence(
                *solver,
                SolverResult::Unsatisfiable,
                formula.blocks(),
                formula.clauses(),
            ),
    {
        let held = solver.formula();
        match (coverage(&self.frames, &held.matrix, solver.depths()), solver.unsat_witness()) {
            (Some(_), Some(witness)) => {
                let universals = formula.universals();
                let set = VarSet::from_vars(&universals);
                let mut k: usize = 0;
                while k < witness.len()
                    invariant
                        k <= witness@.len(),
                        universals@ == crate::strategy_check::universals_of(formula.blocks()),
                        solver.witness() == Some(witness@),
                        forall|x: Var| #[trigger] set@.contains(x) <==> universals@.contains(x),
                        forall|i: int| 0 <= i < k ==> bound_by(formula.blocks(), QuantTy::Forall, (#[trigger] witness@[i]).v()),
                    decreases witness.len() - k,
                {
                    proof {
                        crate::strategy_check::lemma_universals_of(formula.blocks(), witness@[k as int].v());
                        assert(solver.witness()->0[k as int] == witness@[k as int]);
                    }
                    if !set.contains(witness[k].var()) {
                        return false;
                    }
                    k += 1;
                }
                proof {
                    let m = formula.clauses();
                    assert(matrix_of(held.matrix@) == solver.clauses());
                    assert forall|a: Assignment| #[trigger] cube_true(a, witness@) implies !matrix_true(a, m) by {
                        if matrix_true(a, m) {
                            assert(matrix_true(a, solver.clauses()));
                        }
                    }
                    lemma_refuted(formula.blocks(), m, witness@);
                }
                true
            },
            _ => false,
        }
    }

    /// The stack depth of each clause of the stack.
    fn clause_depths(&self) -> (depths: Vec<usize>)
        ensures
            depths@.len() == stacked_clauses(self.frames@).len(),
            depths@ == stacked_depths(self.frames@, self.frames@.len() as int),
    {
        let mut depths: Vec<usize> = Vec::new();
        let mut d: usize = 0;
        assert(self.frames@.take(0) =~= Seq::<Frame>::empty());
        while d < self.frames.len()
            invariant
                d <= self.frames@.len(),
                depths@ == stacked_depths(self.frames@, d as int),
                depths@.len() == stacked_clauses(self.frames@.take(d as int)).len(),
            decreases self.frames.len() - d,
        {
            assert(self.frames@.take(d as int + 1).drop_last() =~= self.frames@.take(d as int));
            let count = self.frames[d].clauses.len();
            let mut k: usize = 0;
            let ghost before = depths@;
            assert(before + Seq::new(0, |i: int| d) =~= before);
            while k < count
                invariant
                    k <= count,
                    depths@ == before + Seq::new(k as nat, |i: int| d),
                    depths@.len() == stacked_clauses(self.frames@.take(d as int)).len() + k,
                decreases count - k,
            {
                depths.push(d);
                assert(depths@ =~= before + Seq::new((k + 1) as nat, |i: int| d));
                k += 1;
            }
            d += 1;
            assert(depths@ =~= stacked_depths(self.frames@, d as int));
        }
        assert(self.frames@.take(self.frames@.len() as int) =~= self.frames@);
        depths
    }

    /// The carried learnt clauses.
    fn carried_clauses(&self) -> (clauses: Vec<Vec<Lit>>)
        requires
            self.wf(),
        ensures
            forall|i: int| 0 <= i < clauses@.len() ==> implied(stacked_clauses(self.frames@), (#[trigger] clauses@[i])@),
            clauses@.len() == self.learnt@.len(),
            forall|i: int| 0 <= i < clauses@.len() ==> (#[trigger] clauses@[i])@ == self.learnt@[i].1@,
    {
        let mut clauses: Vec<Vec<Lit>> = Vec::new();
        let mut k: usize = 0;
        while k < self.learnt.len()
            invariant
                self.wf(),
                k <= self.learnt@.len(),
                clauses@.len() == k,
                forall|i: int| 0 <= i < k ==> (#[trigger] clauses@[i])@ == self.learnt@[i].1@,
                forall|i: int| 0 <= i < clauses@.len() ==> implied(stacked_clauses(self.frames@), (#[trigger] clauses@[i])@),
            decreases self.learnt.len() - k,
        {
            let clause = copy_lits(&self.learnt[k].1);
            proof {
                let n = self.learnt@[k as int].0 + 1;
                assert(implied(stacked_clauses(self.frames@.take(n)), clause@));
                assert forall|a: Assignment| #[trigger] matrix_true(a, stacked_clauses(self.frames@)) implies clause_true(a, clause@) by {
                    lemma_lower_frames(self.frames@, n, a);
                }
            }
            clauses.push(clause);
            k += 1;
        }
        clauses
    }

    /// Carries the learnt clauses of a solver of part of the stack, each at
    /// most once, tagged with the current stack depth.
    fn harvest_learnt(&mut self, solver: &IncDet)
        requires
            old(self).wf(),
            solver.wf(),
        ensures
            final(self).wf(),
            final(self).same_stack(old(self)),
            final(self).base == old(self).base,
            final(self).query == old(self).query,
            final(self).last == old(self).last,
            final(self).asked == old(self).asked,
            final(self).extensions == old(self).extensions,
            old(self).learnt@.is_prefix_of(final(self).learnt@),
            !covered(old(self).frames@, solver.clauses(), solver.clause_depths()) ==> final(self).learnt == old(self).learnt,
            covered(old(self).frames@, solver.clauses(), solver.clause_depths()) ==> harvested(
                old(self).learnt@,
                final(self).learnt@,
                solver.learnt(),
                solver.learnt().len() as int,
                old(self).frames@.len() - 1,
            ),
    {
        let held = solver.formula();
        if coverage(&self.frames, &held.matrix, solver.depths()).is_none() {
            return;
        }
        assert(matrix_of(held.matrix@) == solver.clauses());
        let depth = self.frames.len() - 1;
        let clauses = solver.learnt_clauses();
        let mut k: usize = 0;
        while k < clauses.len()
            invariant
                k <= clauses@.len(),
                matrix_of(clauses@) == solver.learnt(),
                harvested(old(self).learnt@, self.learnt@, solver.learnt(), k as int, depth as int),
                self.wf(),
                self.same_stack(old(self)),
                self.base == old(self).base,
                self.query == old(self).query,
                self.last == old(self).last,
                self.asked == old(self).asked,
                self.extensions == old(self).extensions,
                depth == self.frames@.len() - 1,
                forall|i: int| 0 <= i < clauses@.len() ==> implied(solver.clauses(), (#[trigger] clauses@[i])@),
                forall|a: Assignment| #[trigger] matrix_true(a, stacked_clauses(self.frames@)) ==> matrix_true(a, solver.clauses()),
            decreases clauses.len() - k,
        {
            assert(solver.learnt()[k as int] == clauses@[k as int]@);
            let ghost noted = self.learnt@;
            if !self.is_carried(&clauses[k]) {
                let ghost before = self.learnt@;
                let clause = copy_lits(&clauses[k]);
                proof {
                    assert(implied(solver.clauses(), clauses@[k as int]@));
                    assert(self.frames@.take(depth + 1) =~= self.frames@);
                    assert(implied(stacked_clauses(self.frames@), clause@));
                }
                self.learnt.push((depth, clause));
                assert forall|i: int| 0 <= i < self.learnt@.len() implies (#[trigger] self.learnt@[i]).0 < self.frames@.len() && implied(
                    stacked_clauses(self.frames@.take(self.learnt@[i].0 + 1)),
                    self.learnt@[i].1@,
                ) by {
                    if i < before.len() {
                        assert(self.learnt@[i] == before[i]);
                    }
                }
            }
            proof {
                lemma_harvest(old(self).learnt@, noted, self.learnt@, solver.learnt(), k as int, depth as int);
            }
            k += 1;
        }
    }

    fn is_carried(&self, clause: &Vec<Lit>) -> (carried: bool)
        ensures
            carried == carries(self.learnt@, clause@),
    {
        let mut k: usize = 0;
        while k < self.learnt.len()
            invariant
                k <= self.learnt@.len(),
                forall|i: int| 0 <= i < k ==> (#[trigger] self.learnt@[i]).1@ != clause@,
            decreases self.learnt.len() - k,
        {
            if crate::incremental::stack::same_lits(&self.learnt[k].1, clause) {
                return true;
            }
            k += 1;
        }
        false
    }

    /// Solves the assertion stack under the given assumption literals,
    /// retracted afterwards. An *existential* assumption is a temporary
    /// unit constraint. A *universal* assumption restricts the universal
    /// player's domain to the assumed polarity. Contradictory universal
    /// assumptions denote an empty domain, over which the universal
    /// quantifier is vacuously satisfied.
    pub fn solve_with_assumptions(&mut self, assumptions: &[i32]) -> (verdict: SolverResult)
        requires
            old(self).wf(),
            numbers_in_range(assumptions@),
        ensures
            final(self).wf(),
            final(self).stack() == old(self).stack(),
            final(self).fresh() == old(self).fresh(),
            final(self).introduced() == old(self).introduced(),
            final(self).verdict() == Some(verdict),
            final(self).domain() == universal_lits(old(self).blocks(), clause_of(assumptions@)),
            verdict_ok(final(self).goal().0, final(self).goal().1, verdict),
            ({
                let all = clause_of(assumptions@);
                let universal = universal_lits(old(self).blocks(), all);
                let rest = existential_lits(old(self).blocks(), all);
                if consistent(universal) {
                    &&& restricts(old(self).clauses() + units(rest), final(self).goal().1, universal)
                    &&& without_vars(old(self).blocks(), final(self).goal().0, universal)
                } else {
                    final(self).goal().1 == Matrix::empty() && verdict == SolverResult::Satisfiable
                }
            }),
    {
        let ghost p = self.blocks();
        let ghost m = self.clauses();
        let lits = lits_of(assumptions);
        let formula = self.qcnf();
        let (universal, existential) = split_lits(&formula, &lits);
        if universal.len() == 0 && self.continuation {
            match self.query_in_place(&existential, &formula) {
                Some(verdict) => {
                    proof {
                        let n = m + units(existential@);
                        assert(universal@ =~= Seq::<Lit>::empty());
                        lemma_restrict_nothing(n);
                        lemma_without_nothing(p);
                        assert(consistent(universal@));
                    }
                    return verdict;
                },
                None => {},
            }
        }
        // throwaway fallback: existential assumptions become temporary unit
        // clauses; universal assumptions substitute their constant into the
        // instance
        let goal = match restrict_universals(&formula, &existential, &universal) {
            Some(goal) => goal,
            None => {
                let mut prefix: Vec<(QuantTy, Vec<Var>)> = Vec::new();
                prefix.push((QuantTy::Exists, Vec::new()));
                let goal = QCNF { prefix, matrix: Vec::new() };
                proof {
                    assert(goal.clauses() =~= Matrix::empty());
                    lemma_nothing_asked(goal.blocks());
                }
                goal
            },
        };
        self.ask_beside(goal, universal)
    }

    /// Answers a query on a solver of its own.
    fn ask_beside(&mut self, goal: QCNF, domain: Vec<Lit>) -> (verdict: SolverResult)
        requires
            old(self).wf(),
            goal.wf(),
        ensures
            final(self).wf(),
            final(self).same_stack(old(self)),
            final(self).verdict() == Some(verdict),
            final(self).goal() == (goal.blocks(), goal.clauses()),
            final(self).domain() == domain@,
            verdict_ok(goal.blocks(), goal.clauses(), verdict),
    {
        let mut solver = IncDet::from_qcnf_with_options(&goal, self.options);
        let verdict = solver.solve();
        proof {
            lemma_evidence_of(solver, verdict);
        }
        self.query = Some((verdict, solver, domain));
        self.last = Some(Served::Query);
        self.asked = Ghost((goal.blocks(), goal.clauses()));
        verdict
    }

    /// Tries a query under existential assumptions on the live solver.
    fn query_in_place(&mut self, assumptions: &Vec<Lit>, formula: &QCNF) -> (verdict: Option<SolverResult>)
        requires
            old(self).wf(),
            formula.wf(),
            formula.blocks() == old(self).blocks(),
            formula.clauses() == old(self).clauses(),
        ensures
            final(self).wf(),
            final(self).same_stack(old(self)),
            verdict is None ==> final(self).verdict() is None,
            !simple_form(formula.blocks(), formula.clauses() + units(assumptions@)) ==> verdict is None,
            verdict matches Some(verdict) ==> {
                &&& verdict != SolverResult::Unknown
                &&& final(self).verdict() == Some(verdict)
                &&& final(self).goal() == (formula.blocks(), formula.clauses() + units(assumptions@))
                &&& final(self).domain() == Seq::<Lit>::empty()
                &&& verdict_ok(formula.blocks(), formula.clauses() + units(assumptions@), verdict)
            },
    {
        let ghost p = formula.blocks();
        let ghost m = formula.clauses();
        let ghost more = units(assumptions@);
        // bring the live solver up to date with the stack
        let unchanged = match &self.base {
            Some(base) => {
                let (u, e, c, d) = self.delta(&base.integrated);
                u.len() == 0 && e.len() == 0 && c.len() == 0
            },
            None => false,
        };
        if !unchanged {
            let verdict = self.solve_stack();
        }
        let live = self.base.take();
        self.last = None;
        match live {
            None => None,
            Some(mut base) => {
                let simple = goal_is_simple(formula, assumptions);
                if base.result != SolverResult::Satisfiable || !simple || !base.solver.fast_query_available() || !self.is_current(
                    &base.solver,
                    formula,
                ) {
                    self.base = Some(base);
                    return None;
                }
                // the attempt changes the state of the live solver even when
                // it declines, so the next plain solve must search again
                base.queried = true;
                let answer = base.solver.resolve_with_assumptions(assumptions);
                match answer {
                    Some(verdict) => {
                        let shown = verdict != SolverResult::Unsatisfiable || base.solver.unsat_witness().is_some();
                        if verdict == SolverResult::Unknown || !shown {
                            self.base = Some(base);
                            return None;
                        }
                        proof {
                            lemma_evidence_of(base.solver, verdict);
                            lemma_evidence_moves(base.solver, verdict, p, m, more);
                            assert forall|a: Assignment| #[trigger] matrix_true(a, base.solver.clauses() + more) == matrix_true(
                                a,
                                m + more,
                            ) by {
                                lemma_concat_true(a, base.solver.clauses(), more);
                                lemma_concat_true(a, m, more);
                            }
                            lemma_same_truth(base.solver.blocks(), p, base.solver.clauses() + more, m + more);
                        }
                        self.serve(base, verdict, Ghost(p), Ghost(m + more));
                        Some(verdict)
                    },
                    None => {
                        self.base = Some(base);
                        None
                    },
                }
            },
        }
    }

    /// Solves the assertion stack under temporary clauses. The query runs
    /// on a throwaway solver; nothing learnt under the temporary clauses is
    /// carried.
    pub fn solve_with_clauses(&mut self, clauses: &Vec<Vec<i32>>) -> (verdict: SolverResult)
        requires
            old(self).wf(),
            forall|i: int| 0 <= i < clauses@.len() ==> numbers_in_range((#[trigger] clauses@[i])@),
        ensures
            final(self).wf(),
            final(self).stack() == old(self).stack(),
            final(self).fresh() == old(self).fresh(),
            final(self).introduced() == old(self).introduced(),
            final(self).verdict() == Some(verdict),
            final(self).goal() == (old(self).blocks(), old(self).clauses() + Seq::new(clauses@.len(), |i: int| clause_of(clauses@[i]@))),
            final(self).domain() == Seq::<Lit>::empty(),
            verdict_ok(final(self).goal().0, final(self).goal().1, verdict),
    {
        let mut goal = self.qcnf();
        let ghost m = goal.clauses();
        let ghost all = Seq::new(clauses@.len(), |i: int| clause_of(clauses@[i]@));
        let mut k: usize = 0;
        assert(m + all.take(0) =~= m);
        while k < clauses.len()
            invariant
                k <= clauses@.len(),
                forall|i: int| 0 <= i < clauses@.len() ==> numbers_in_range((#[trigger] clauses@[i])@),
                all == Seq::new(clauses@.len(), |i: int| clause_of(clauses@[i]@)),
                goal.clauses() == m + all.take(k as int),
                goal.blocks() == self.blocks(),
                goal.wf(),
            decreases clauses.len() - k,
        {
            let lits = lits_of(clauses[k].as_slice());
            let ghost before = goal.clauses();
            goal.matrix.push(lits);
            assert(goal.clauses() =~= before.push(clause_of(clauses@[k as int]@)));
            assert(m + all.take(k as int + 1) =~= (m + all.take(k as int)).push(clause_of(clauses@[k as int]@)));
            k += 1;
        }
        assert(all.take(all.len() as int) =~= all);
        self.ask_beside(goal, Vec::new())
    }

    /// The solver that serves the models of the most recent solve.
    fn served(&self) -> (served: Option<(SolverResult, &IncDet)>)
        requires
            self.wf(),
        ensures
            match served {
                Some(served) => self.verdict() == Some(served.0) && served.1.wf() && evidence(
                    *served.1,
                    served.0,
                    self.goal().0,
                    self.goal().1,
                ) && served.1.model() == self.served_model() && served.1.goal() == self.served_clauses() && served.1.witness() == self.served_move(),
                None => self.verdict() is None,
            },
    {
        match self.last {
            None => None,
            Some(Served::Base(result)) => match &self.base {
                Some(base) => Some((result, &base.solver)),
                None => None,
            },
            Some(Served::Query) => match &self.query {
                Some(query) => Some((query.0, &query.1)),
                None => None,
            },
        }
    }

    /// The result of the most recent solve, if the stack has not changed in
    /// a way that stales its models.
    pub fn last_result(&self) -> (result: Option<SolverResult>)
        requires
            self.wf(),
        ensures
            result == self.verdict(),
    {
        match self.served() {
            Some(served) => Some(served.0),
            None => None,
        }
    }

    /// The piecewise Skolem model of the most recent solve, if that was
    /// satisfiable.
    pub fn skolem_model(&self) -> (model: Option<Rc<SkolemModel>>)
        requires
            self.wf(),
        ensures
            model is Some <==> self.verdict() == Some(SolverResult::Satisfiable),
            model matches Some(model) ==> certifies(self.goal().0, self.goal().1, *model) && self.served_model() == Some(*model),
    {
        match self.served() {
            Some(served) => {
                if served.0 == SolverResult::Satisfiable {
                    Some(served.1.skolem_model())
                } else {
                    None
                }
            },
            None => None,
        }
    }

    /// Verifies the Skolem functions of the most recent satisfiable solve:
    /// the circuit of the model served satisfies the clauses whatever its
    /// inputs are. The check fails only where it is too large to number.
    pub fn verify(&self) -> (valid: bool)
        requires
            self.wf(),
        ensures
            valid ==> self.verdict() == Some(SolverResult::Satisfiable),
            valid ==> self.served_model() is Some && circuit_satisfies(self.served_model()->0, self.goal().0, self.goal().1),
            self.verdict() == Some(SolverResult::Satisfiable) && leaf_numbered(
                model_prefix(self.served_model()->0),
                self.served_clauses(),
                self.served_model()->0,
            ) ==> valid,
    {
        match self.served() {
            Some(served) => {
                proof {
                    if served.0 == SolverResult::Satisfiable {
                        let model = self.served_model()->0;
                        crate::laws::law_certified_models_have_winning_circuits(model, self.goal().0, self.goal().1);
                        lemma_satisfies_weaker(model, self.goal().0, self.goal().1, served.1.blocks(), served.1.goal());
                    }
                }
                served.0 == SolverResult::Satisfiable && served.1.verify_skolem_functions()
            },
            None => false,
        }
    }

    /// Number of extensions that the live solver has performed in place
    /// since it was built.
    pub fn extension_count(&self) -> (count: u32)
        ensures
            count == self.continued(),
    {
        match &self.base {
            Some(base) => base.solver.extension_count(),
            None => 0,
        }
    }

    /// Number of extensions in place over the lifetime of this solver.
    pub fn extension_total(&self) -> (count: u32)
        ensures
            count == self.total(),
    {
        self.extensions
    }

    /// A winning move of the universal player for the most recent
    /// unsatisfiable solve: universal literals such that no extension
    /// admits an existential response. The literals that the query assumed
    /// come last.
    pub fn universal_witness(&self) -> (witness: Option<Vec<i32>>)
        requires
            self.wf(),
        ensures
            witness matches Some(witness) ==> {
                let own = witness@.len() - self.domain().len();
                &&& own >= 0
                &&& refutes(self.goal().0, self.goal().1, clause_of(witness@.take(own)))
                &&& consistent(clause_of(witness@.take(own)))
                &&& self.minimal_move(Set::empty(), clause_of(witness@.take(own)))
                &&& clause_of(witness@.skip(own)) == self.domain()
            },
            witness matches Some(witness) ==> proper_numbers(witness@),
            witness is Some ==> self.verdict() == Some(SolverResult::Unsatisfiable),
            self.verdict() == Some(SolverResult::Unsatisfiable) && universal_first(self.goal().0, self.goal().1) ==> witness is Some,
    {
        match self.universal_witness_minimized(&Vec::new()) {
            Some(own) => {
                let mut witness = own;
                let mut assumed = numbers_of(&self.assumed());
                let ghost first = witness@;
                let ghost second = assumed@;
                proof {
                    lemma_clause_of(self.domain(), second);
                }
                witness.append(&mut assumed);
                proof {
                    assert(witness@ =~= first + second);
                    assert(witness@.take(first.len() as int) =~= first);
                    assert(witness@.skip(first.len() as int) =~= second);
                    assert(Seq::<Var>::empty().to_set() =~= Set::empty());
                    assert forall|i: int| 0 <= i < witness@.len() implies #[trigger] witness@[i] != 0 && witness@[i] > i32::MIN by {
                        if i < first.len() {
                            assert(first[i] != 0 && first[i] > i32::MIN);
                        } else {
                            assert(second[i - first.len()] != 0 && second[i - first.len()] > i32::MIN);
                        }
                    }
                }
                Some(witness)
            },
            None => None,
        }
    }

    /// The universal literals that the most recent query assumed.
    fn assumed(&self) -> (lits: Vec<Lit>)
        ensures
            lits@ == self.domain(),
    {
        match self.last {
            Some(Served::Query) => match &self.query {
                Some(query) => copy_lits(&query.2),
                None => Vec::new(),
            },
            _ => Vec::new(),
        }
    }

    /// The move takes its literals from the one served, each variable once,
    /// and all of those that are not removable. Of the others none can be
    /// left out alone, if the back end can number the variables.
    pub open spec fn minimal_move(&self, removable: Set<Var>, lits: Seq<Lit>) -> bool {
        &&& self.served_move() is Some
        &&& forall|i: int, j: int| 0 <= i < j < lits.len() ==> (#[trigger] lits[i]).v() != (#[trigger] lits[j]).v()
        &&& forall|i: int| 0 <= i < lits.len() ==> self.served_move()->0.contains(#[trigger] lits[i])
        &&& forall|l: Lit| #[trigger] self.served_move()->0.contains(l) && !removable.contains(l.v()) ==> lits.contains(l)
        &&& clauses_ok(self.served_clauses()) && lits_ok(self.served_move()->0) ==> forall|i: int|
            0 <= i < lits.len() && removable.contains((#[trigger] lits[i]).v()) ==> needed(self.served_clauses(), lits, lits[i])
    }

    /// [`IncrementalSolver::universal_witness`] without the assumed literals
    /// and with the move minimized over the given variables.
    pub fn universal_witness_minimized(&self, removable: &Vec<Var>) -> (witness: Option<Vec<i32>>)
        requires
            self.wf(),
        ensures
            witness matches Some(witness) ==> refutes(self.goal().0, self.goal().1, clause_of(witness@)) && consistent(clause_of(witness@)),
            witness matches Some(witness) ==> self.minimal_move(removable@.to_set(), clause_of(witness@)),
            witness matches Some(witness) ==> proper_numbers(witness@),
            witness is Some ==> self.verdict() == Some(SolverResult::Unsatisfiable),
            self.verdict() == Some(SolverResult::Unsatisfiable) && universal_first(self.goal().0, self.goal().1) ==> witness is Some,
    {
        match self.served() {
            Some(served) => {
                if served.0 != SolverResult::Unsatisfiable {
                    return None;
                }
                match self.minimized(served.1, removable) {
                    Some(lits) => {
                        let numbers = numbers_of(&lits);
                        proof {
                            lemma_clause_of(lits@, numbers@);
                        }
                        Some(numbers)
                    },
                    None => None,
                }
            },
            None => None,
        }
    }

    fn minimized(&self, solver: &IncDet, removable: &Vec<Var>) -> (witness: Option<Vec<Lit>>)
        requires
            solver.wf(),
            evidence(*solver, SolverResult::Unsatisfiable, self.goal().0, self.goal().1),
            solver.witness() == self.served_move(),
            solver.goal() == self.served_clauses(),
        ensures
            witness is Some <==> solver.refuted(),
            witness matches Some(witness) ==> refutes(self.goal().0, self.goal().1, witness@) && consistent(witness@),
            witness matches Some(witness) ==> self.minimal_move(removable@.to_set(), witness@),
    {
        let set = VarSet::from_vars(removable);
        match solver.unsat_witness_minimized(&set) {
            None => None,
            Some(witness) => {
                proof {
                    let full = solver.witness()->0;
                    assert forall|i: int| 0 <= i < witness@.len() implies bound_by(self.goal().0, QuantTy::Forall, (#[trigger] witness@[i]).v()) by {
                        assert(full.contains(witness@[i]));
                        let j = choose|j: int| 0 <= j < full.len() && full[j] == witness@[i];
                        assert(bound_by(self.goal().0, QuantTy::Forall, full[j].v()));
                    }
                    assert forall|a: Assignment| #[trigger] cube_true(a, witness@) implies !matrix_true(a, self.goal().1) by {
                        if matrix_true(a, self.goal().1) {
                            assert(matrix_true(a, solver.goal()));
                        }
                    }
                    assert forall|i: int, j: int|
                        0 <= i < witness@.len() && 0 <= j < witness@.len() && #[trigger] witness@[i].v() == #[trigger] witness@[j].v() implies witness@[i].pos()
                        == witness@[j].pos() by {
                        assert(full.contains(witness@[i]) && full.contains(witness@[j]));
                        let k = choose|k: int| 0 <= k < full.len() && full[k] == witness@[i];
                        let l = choose|l: int| 0 <= l < full.len() && full[l] == witness@[j];
                        assert(full[k].v() == full[l].v());
                    }
                    assert forall|i: int, j: int| 0 <= i < j < witness@.len() implies (#[trigger] witness@[i]).v() != (#[trigger] witness@[j]).v() by {
                        if witness@[i].v() == witness@[j].v() {
                            crate::literal::lemma_lit_ext(witness@[i], witness@[j]);
                        }
                    }
                    assert forall|l: Lit| #[trigger] full.contains(l) && !removable@.to_set().contains(l.v()) implies witness@.contains(l) by {
                        let i = choose|i: int| 0 <= i < full.len() && full[i] == l;
                        assert(!set@.contains(full[i].v()));
                    }
                }
                Some(witness)
            },
        }
    }

    /// A winning move of the universal player that is always available for
    /// an unsatisfiable solve with the universal block first. Where it is
    /// not, a move is found by self-reduction: one universal variable after
    /// the other is fixed such that the restriction stays unsatisfiable.
    /// The move is minimized over the given variables.
    pub fn universal_witness_complete(&self, removable: &Vec<Var>) -> (witness: Option<Vec<i32>>)
        requires
            self.wf(),
        ensures
            witness is Some <==> self.verdict() == Some(SolverResult::Unsatisfiable),
            witness matches Some(witness) ==> proper_numbers(witness@),
            witness matches Some(witness) ==> (universal_first(self.goal().0, self.goal().1) ==> refutes(
                self.goal().0,
                self.goal().1,
                clause_of(witness@),
            ) && consistent(clause_of(witness@)) && self.minimal_move(removable@.to_set(), clause_of(witness@))),
    {
        match self.universal_witness_minimized(removable) {
            Some(witness) => Some(witness),
            None => match self.served() {
                Some(served) => {
                    if served.0 != SolverResult::Unsatisfiable {
                        return None;
                    }
                    let formula = served.1.formula();
                    let universals = formula.universals();
                    let mut fixed: Vec<Lit> = Vec::new();
                    let mut k: usize = 0;
                    while k < universals.len()
                        invariant
                            formula.wf(),
                        decreases universals.len() - k,
                    {
                        let var = universals[k];
                        fixed.push(var.positive());
                        if !self.restricted_is_unsatisfiable(formula, &fixed) {
                            // every extension with the variable true is
                            // answerable, so a winning move sets it false
                            let dropped = fixed.pop();
                            fixed.push(var.negative());
                        }
                        k += 1;
                    }
                    Some(numbers_of(&fixed))
                },
                None => None,
            },
        }
    }

    /// Whether a formula stays unsatisfiable once the universal domain is
    /// restricted to the given literals.
    fn restricted_is_unsatisfiable(&self, formula: &QCNF, universal: &Vec<Lit>) -> (unsatisfiable: bool)
        requires
            formula.wf(),
        ensures
            unsatisfiable ==> consistent(universal@) && exists|goal: QCNF| #[trigger]
                restricts(formula.clauses(), goal.clauses(), universal@) && without_vars(formula.blocks(), goal.blocks(), universal@)
                    && verdict_ok(goal.blocks(), goal.clauses(), SolverResult::Unsatisfiable),
    {
        assert(formula.clauses() + units(Seq::<Lit>::empty()) =~= formula.clauses());
        match restrict_universals(formula, &Vec::new(), universal) {
            Some(goal) => IncDet::from_qcnf_with_options(&goal, self.options).solve() == SolverResult::Unsatisfiable,
            None => false,
        }
    }

    /// Whether any existential response satisfies `question` under the
    /// given universal literals, and if not, literals among them that are
    /// enough for that. `depth` bounds the assertion stack the question is
    /// asked against, as if the stack had been popped to it.
    ///
    /// `None` means that the move is answerable and there is nothing to
    /// generalise, or that a variable is beyond the numbering of the SAT
    /// solver.
    pub fn unanswerable_core(&mut self, depth: usize, universal: &[i32], question: Node) -> (core: Option<Vec<i32>>)
        requires
            old(self).wf(),
            depth < old(self).stack().len(),
            numbers_in_range(universal@),
        ensures
            *final(self) == *old(self),
            match core {
                Some(core) => {
                    &&& forall|i: int| 0 <= i < core@.len() ==> universal@.contains(#[trigger] core@[i])
                    &&& unanswerable(stacked_clauses(old(self).stack().take(depth + 1)), clause_of(core@), question.lit())
                    &&& asked_in_range(stacked_clauses(old(self).stack().take(depth + 1)), clause_of(universal@), question.lit())
                        ==> irredundant(stacked_clauses(old(self).stack().take(depth + 1)), clause_of(core@), question.lit())
                },
                None => asked_in_range(stacked_clauses(old(self).stack().take(depth + 1)), clause_of(universal@), question.lit())
                    ==> !unanswerable(stacked_clauses(old(self).stack().take(depth + 1)), clause_of(universal@), question.lit()),
            },
    {
        let ghost m = stacked_clauses(self.frames@.take(depth + 1));
        let mut solver = SatSolver::new();
        let mut d: usize = 0;
        let count = self.frames.len();
        assert(self.frames@.take(0) =~= Seq::<Frame>::empty());
        while d <= depth
            invariant
                d <= depth + 1,
                depth < count,
                count == self.frames@.len(),
                *self == *old(self),
                solver.wf(),
                solver.clauses() == stacked_clauses(self.frames@.take(d as int)),
            decreases depth + 1 - d,
        {
            crate::incdet::cegar::load_clauses(&mut solver, &self.frames[d].clauses);
            assert(self.frames@.take(d as int + 1).drop_last() =~= self.frames@.take(d as int));
            d += 1;
        }
        let asked = question.to_lit();
        let lits = lits_of(universal);
        let mut assumptions = copy_lits(&lits);
        assumptions.push(asked);
        match solver.solve_with_assumptions(&assumptions) {
            SatOutcome::Unsat => {},
            SatOutcome::Sat(model) => {
                proof {
                    let a = crate::incdet::determinacy::model_assignment(model@);
                    crate::incdet::determinacy::lemma_model_assignment(model@);
                    assert(cube_true(a, assumptions@));
                    lemma_cube_push(a, lits@, asked);
                    assert(matrix_true(a, m));
                }
                return None;
            },
            SatOutcome::OutOfRange => {
                proof {
                    lemma_lits_ok_push(lits@, asked);
                }
                return None;
            },
        }
        proof {
            lemma_unanswerable(m, lits@, asked);
        }
        // leave out one literal after the other
        let mut core = copy_lits(&lits);
        let mut k: usize = 0;
        assert forall|i: int| 0 <= i < core@.len() implies lits@.contains(#[trigger] core@[i]) by {}
        while k < core.len()
            invariant
                k <= core@.len(),
                *self == *old(self),
                solver.wf(),
                solver.clauses() == m,
                unanswerable(m, core@, asked),
                forall|i: int| 0 <= i < core@.len() ==> lits@.contains(#[trigger] core@[i]),
                asked_in_range(m, lits@, asked) ==> forall|i: int| 0 <= i < k ==> #[trigger] answered_without(m, core@, asked, i),
            decreases core.len() - k,
        {
            let ghost held = core@;
            let mut fewer = copy_lits(&core);
            let removed = fewer.remove(k);
            let mut assumptions = copy_lits(&fewer);
            assumptions.push(asked);
            match solver.solve_with_assumptions(&assumptions) {
                SatOutcome::Unsat => {
                    proof {
                        lemma_unanswerable(m, fewer@, asked);
                        assert forall|i: int| 0 <= i < fewer@.len() implies lits@.contains(#[trigger] fewer@[i]) by {
                            assert(fewer@[i] == core@[if i < k { i } else { i + 1 }]);
                        }
                        assert forall|i: int| 0 <= i < k && asked_in_range(m, lits@, asked) implies #[trigger] answered_without(
                            m,
                            fewer@,
                            asked,
                            i,
                        ) by {
                            assert(answered_without(m, held, asked, i));
                            let a = choose|a: Assignment| #[trigger] answers_without(m, held, asked, i, a);
                            assert forall|j: int| 0 <= j < fewer@.len() && j != i implies lit_true(a, #[trigger] fewer@[j]) by {
                                assert(fewer@[j] == held[if j < k { j } else { j + 1 }]);
                            }
                            assert(answers_without(m, fewer@, asked, i, a));
                        }
                    }
                    core = fewer;
                },
                SatOutcome::Sat(model) => {
                    proof {
                        let a = crate::incdet::determinacy::model_assignment(model@);
                        crate::incdet::determinacy::lemma_model_assignment(model@);
                        assert(cube_true(a, assumptions@));
                        lemma_cube_push(a, fewer@, asked);
                        assert forall|j: int| 0 <= j < held.len() && j != k implies lit_true(a, #[trigger] held[j]) by {
                            assert(held[j] == fewer@[if j < k { j } else { j - 1 }]);
                        }
                        assert(answers_without(m, held, asked, k as int, a));
                        assert(answered_without(m, held, asked, k as int));
                    }
                    k += 1;
                },
                SatOutcome::OutOfRange => {
                    proof {
                        if asked_in_range(m, lits@, asked) {
                            assert forall|i: int| 0 <= i < fewer@.len() implies crate::sat::lit_ok(#[trigger] fewer@[i]) by {
                                assert(fewer@[i] == held[if i < k { i } else { i + 1 }]);
                                assert(lits@.contains(fewer@[i]));
                                let j = choose|j: int| 0 <= j < lits@.len() && lits@[j] == fewer@[i];
                                assert(crate::sat::lit_ok(lits@[j]));
                            }
                            lemma_lits_ok_push(fewer@, asked);
                        }
                    }
                    k += 1;
                },
            }
        }
        let numbers = numbers_of(&core);
        proof {
            lemma_clause_of(core@, numbers@);
            assert forall|i: int| 0 <= i < numbers@.len() implies universal@.contains(#[trigger] numbers@[i]) by {
                assert(core@[i].dimacs() == numbers@[i]);
                assert(lits@.contains(core@[i]));
                let j = choose|j: int| 0 <= j < lits@.len() && lits@[j] == core@[i];
                assert(lits@[j].dimacs() == universal@[j]);
            }
        }
        Some(numbers)
    }

    /// The recorded move of the most recent unsatisfiable solve, whether or
    /// not it wins against every response.
    pub fn universal_witness_candidate(&self) -> (witness: Option<Vec<i32>>)
        requires
            self.wf(),
        ensures
            witness is Some <==> self.verdict() == Some(SolverResult::Unsatisfiable),
            witness matches Some(witness) ==> self.served_move() == Some(clause_of(witness@)),
            witness matches Some(witness) ==> forall|i: int|
                0 <= i < witness@.len() ==> bound_by(self.goal().0, QuantTy::Forall, (#[trigger] clause_of(witness@)[i]).v()),
    {
        match self.served() {
            Some(served) => {
                if served.0 != SolverResult::Unsatisfiable {
                    return None;
                }
                match served.1.unsat_witness_candidate() {
                    Some(lits) => {
                        let numbers = numbers_of(&lits);
                        proof {
                            lemma_clause_of(lits@, numbers@);
                        }
                        Some(numbers)
                    },
                    None => None,
                }
            },
            None => None,
        }
    }
}

/// No assignment satisfies the clauses together with the literals and the
/// question.
pub open spec fn unanswerable(m: Matrix, universal: Seq<Lit>, question: Lit) -> bool {
    forall|a: Assignment| #[trigger] cube_true(a, universal) && lit_true(a, question) ==> !matrix_true(a, m)
}

/// The assignment satisfies the clauses, the question and the literals but
/// for the one at a position.
pub open spec fn answers_without(m: Matrix, universal: Seq<Lit>, question: Lit, i: int, a: Assignment) -> bool {
    &&& matrix_true(a, m)
    &&& lit_true(a, question)
    &&& forall|j: int| 0 <= j < universal.len() && j != i ==> lit_true(a, #[trigger] universal[j])
}

/// Without the literal at a position the question has an answer.
pub open spec fn answered_without(m: Matrix, universal: Seq<Lit>, question: Lit, i: int) -> bool {
    exists|a: Assignment| #[trigger] answers_without(m, universal, question, i, a)
}

/// No literal can be left out alone.
pub open spec fn irredundant(m: Matrix, universal: Seq<Lit>, question: Lit) -> bool {
    forall|i: int| 0 <= i < universal.len() ==> #[trigger] answered_without(m, universal, question, i)
}

/// The SAT solver can number all variables of the question.
pub open spec fn asked_in_range(m: Matrix, universal: Seq<Lit>, question: Lit) -> bool {
    clauses_ok(m) && lits_ok(universal) && crate::sat::lit_ok(question)
}

proof fn lemma_cube_push(a: Assignment, c: Seq<Lit>, l: Lit)
    ensures
        cube_true(a, c.push(l)) <==> cube_true(a, c) && lit_true(a, l),
{
    let d = c.push(l);
    if cube_true(a, d) {
        assert forall|i: int| 0 <= i < c.len() implies lit_true(a, #[trigger] c[i]) by {
            assert(d[i] == c[i]);
        }
        assert(d[c.len() as int] == l);
    }
    if cube_true(a, c) && lit_true(a, l) {
        assert forall|i: int| 0 <= i < d.len() implies lit_true(a, #[trigger] d[i]) by {
            if i < c.len() {
                assert(d[i] == c[i]);
            }
        }
    }
}

proof fn lemma_lits_ok_push(c: Seq<Lit>, l: Lit)
    ensures
        lits_ok(c) && crate::sat::lit_ok(l) ==> lits_ok(c.push(l)),
{
}

proof fn lemma_unanswerable(m: Matrix, c: Seq<Lit>, l: Lit)
    requires
        forall|a: Assignment| #[trigger] cube_true(a, c.push(l)) ==> !matrix_true(a, m),
    ensures
        unanswerable(m, c, l),
{
    assert forall|a: Assignment| #[trigger] cube_true(a, c) && lit_true(a, l) implies !matrix_true(a, m) by {
        lemma_cube_push(a, c, l);
    }
}

/// Literals are found by their numbers.
pub(crate) proof fn lemma_clause_of(lits: Seq<Lit>, numbers: Seq<i32>)
    requires
        same_clause(lits, numbers),
    ensures
        clause_of(numbers) == lits,
{
    assert forall|i: int| 0 <= i < lits.len() implies clause_of(numbers)[i] == #[trigger] lits[i] by {
        assert(lits[i].dimacs() == numbers[i]);
        lemma_any_numbered(lits[i], numbers[i]);
    }
    assert(clause_of(numbers) =~= lits);
}

proof fn lemma_any_numbered(lit: Lit, number: i32)
    requires
        lit.dimacs() == number,
    ensures
        lit == crate::incremental::lit_numbered(number),
{
    let x = lit.v();
    crate::literal::lemma_var_of(x);
    let n = if number > 0 { number as int } else { -(number as int) };
    assert(x.dimacs() == n);
    crate::literal::lemma_var_index(n - 1);
    crate::literal::lemma_lit_of(x, number > 0);
    crate::literal::lemma_lit_ext(lit, crate::incremental::lit_numbered(number));
}

/// What a solver recorded is evidence for its verdict.
proof fn lemma_evidence_of(solver: IncDet, verdict: SolverResult)
    requires
        solver.wf(),
        evidence_ok(solver, verdict),
    ensures
        evidence(solver, verdict, solver.blocks(), solver.goal()),
{
    if verdict == SolverResult::Unsatisfiable && solver.refuted() {
        solver.lemma_refuting();
    }
}

/// Evidence for a formula is evidence for what it stands for.
proof fn lemma_plain_evidence(solver: IncDet, verdict: SolverResult, p: Prefix, m: Matrix)
    requires
        stands_for(solver, p, m),
        solver.goal() == solver.clauses(),
        evidence(solver, verdict, solver.blocks(), solver.clauses()),
        verdict == SolverResult::Unsatisfiable ==> solver.refuted(),
    ensures
        evidence(solver, verdict, p, m),
{
    let none = Matrix::empty();
    assert(solver.clauses() + none =~= solver.clauses());
    assert(m + none =~= m);
    lemma_evidence_moves(solver, verdict, p, m, none);
}

/// The literals on universal variables of the prefix.
pub open spec fn universal_lits(p: Prefix, lits: Seq<Lit>) -> Seq<Lit>
    decreases lits.len(),
{
    if lits.len() == 0 {
        Seq::empty()
    } else {
        let before = universal_lits(p, lits.drop_last());
        if bound_by(p, QuantTy::Forall, lits.last().v()) {
            before.push(lits.last())
        } else {
            before
        }
    }
}

/// The literals on other variables.
pub open spec fn existential_lits(p: Prefix, lits: Seq<Lit>) -> Seq<Lit>
    decreases lits.len(),
{
    if lits.len() == 0 {
        Seq::empty()
    } else {
        let before = existential_lits(p, lits.drop_last());
        if bound_by(p, QuantTy::Forall, lits.last().v()) {
            before
        } else {
            before.push(lits.last())
        }
    }
}

/// The second prefix is the first one without the variables of the
/// literals.
pub open spec fn without_vars(p: Prefix, q: Prefix, lits: Seq<Lit>) -> bool {
    &&& q.len() == p.len()
    &&& forall|i: int| 0 <= i < p.len() ==> (#[trigger] q[i]).0 == p[i].0
    &&& forall|i: int, x: Var| 0 <= i < p.len() ==> (#[trigger] q[i].1.contains(x) <==> p[i].1.contains(x) && !clause_mentions(lits, x))
}

proof fn lemma_restrict_nothing(n: Matrix)
    ensures
        restricts(n, n, Seq::empty()),
{
}

proof fn lemma_without_nothing(p: Prefix)
    ensures
        without_vars(p, p, Seq::empty()),
{
}

/// Without clauses there is nothing to satisfy.
proof fn lemma_nothing_asked(p: Prefix)
    requires
        p.len() == 1,
        p[0].0 == QuantTy::Exists,
        p[0].1.len() == 0,
    ensures
        formula_true(p, Matrix::empty()),
        in_range(p, Matrix::empty()),
        shape(p, Matrix::empty()).len() <= 2,
        prefix_distinct(p),
{
    let a: Assignment = |x: Var| true;
    assert(crate::semantics::agree_off(a, a, p[0].1));
    assert(crate::semantics::qbf(p.drop_first(), Matrix::empty(), a));
    assert(crate::semantics::qbf(p, Matrix::empty(), a));
    lemma_short_shape(p, Matrix::empty());
    assert forall|x: Var| #[trigger] bound(p, x) implies x.dimacs() <= crate::sat::MAX_NUMBER by {
        let k = choose|k: int| 0 <= k < p.len() && (#[trigger] p[k]).1.contains(x);
    }
}

/// Parts literals into those on universal variables of a formula and the
/// others.
fn split_lits(formula: &QCNF, lits: &Vec<Lit>) -> (result: (Vec<Lit>, Vec<Lit>))
    ensures
        result.0@ == universal_lits(formula.blocks(), lits@),
        result.1@ == existential_lits(formula.blocks(), lits@),
{
    let ghost p = formula.blocks();
    let universals = formula.universals();
    let set = VarSet::from_vars(&universals);
    let mut universal: Vec<Lit> = Vec::new();
    let mut existential: Vec<Lit> = Vec::new();
    let mut k: usize = 0;
    assert(lits@.take(0) =~= Seq::<Lit>::empty());
    while k < lits.len()
        invariant
            k <= lits@.len(),
            p == formula.blocks(),
            universals@ == crate::strategy_check::universals_of(p),
            forall|x: Var| #[trigger] set@.contains(x) <==> universals@.contains(x),
            universal@ == universal_lits(p, lits@.take(k as int)),
            existential@ == existential_lits(p, lits@.take(k as int)),
        decreases lits.len() - k,
    {
        let lit = lits[k];
        proof {
            assert(lits@.take(k as int + 1).drop_last() =~= lits@.take(k as int));
            crate::strategy_check::lemma_universals_of(p, lit.v());
        }
        if set.contains(lit.var()) {
            universal.push(lit);
        } else {
            existential.push(lit);
        }
        k += 1;
    }
    assert(lits@.take(lits@.len() as int) =~= lits@);
    (universal, existential)
}

/// Restricts the universal domain of a formula with temporary units to the
/// given literals: clauses satisfied by a restriction literal are dropped,
/// falsified literals are deleted, and the restricted variables leave the
/// prefix. `None` for contradictory literals.
fn restrict_universals(formula: &QCNF, assumed: &Vec<Lit>, universal: &Vec<Lit>) -> (result: Option<QCNF>)
    requires
        formula.wf(),
    ensures
        result is None <==> !consistent(universal@),
        result matches Some(goal) ==> {
            &&& goal.wf()
            &&& restricts(formula.clauses() + units(assumed@), goal.clauses(), universal@)
            &&& without_vars(formula.blocks(), goal.blocks(), universal@)
        },
{
    if !is_consistent(universal) {
        return None;
    }
    let mut matrix = copy_clauses(&formula.matrix);
    crate::incdet::add_units(&mut matrix, assumed);
    let set = LitSet::from_lits(universal);
    let (restricted, empty) = apply_forced(&matrix, &set);
    let mut vars = VarSet::new();
    let mut k: usize = 0;
    while k < universal.len()
        invariant
            k <= universal@.len(),
            forall|x: Var| #[trigger] vars@.contains(x) <==> clause_mentions(universal@.take(k as int), x),
        decreases universal.len() - k,
    {
        let ghost before = vars@;
        vars.insert(universal[k].var());
        proof {
            let part = universal@.take(k as int);
            assert(universal@.take(k as int + 1) =~= part.push(universal@[k as int]));
            assert forall|x: Var| #[trigger] vars@.contains(x) <==> clause_mentions(universal@.take(k as int + 1), x) by {
                crate::qcnf::lemma_clause_push(part, universal@[k as int], x);
                assert(before.contains(x) <==> clause_mentions(part, x));
            }
        }
        k += 1;
    }
    assert(universal@.take(universal@.len() as int) =~= universal@);
    let prefix = retain_vars(&formula.prefix, &vars, false);
    let goal = QCNF { prefix, matrix: restricted };
    proof {
        crate::alternation::lemma_applied_restricts(matrix_of(matrix@), goal.clauses(), universal@, set@);
        let p = formula.blocks();
        let q = goal.blocks();
        assert forall|i: int| 0 <= i < p.len() implies (#[trigger] q[i]).0 == p[i].0 by {
            assert(goal.prefix@[i].0 == formula.prefix@[i].0);
        }
        assert forall|i: int, x: Var| 0 <= i < p.len() implies (#[trigger] q[i].1.contains(x) <==> p[i].1.contains(x) && !clause_mentions(
            universal@,
            x,
        )) by {
            assert(goal.prefix@[i].1@.contains(x) <==> formula.prefix@[i].1@.contains(x) && vars@.contains(x) == false);
        }
    }
    Some(goal)
}

/// Whether no two literals contradict each other.
fn is_consistent(lits: &Vec<Lit>) -> (yes: bool)
    ensures
        yes == consistent(lits@),
{
    let found = crate::incdet::load::has_opposites(lits);
    proof {
        if !found {
            assert forall|i: int, j: int|
                0 <= i < lits@.len() && 0 <= j < lits@.len() && #[trigger] lits@[i].v() == #[trigger] lits@[j].v() implies lits@[i].pos()
                == lits@[j].pos() by {
                if lits@[i].pos() != lits@[j].pos() {
                    crate::literal::lemma_lit_ext(lits@[i].neg(), lits@[j]);
                    assert(lits@.contains(lits@[i].neg()));
                }
            }
        } else {
            let i = choose|i: int| 0 <= i < lits@.len() && lits@.contains((#[trigger] lits@[i]).neg());
            let j = choose|j: int| 0 <= j < lits@.len() && lits@[j] == lits@[i].neg();
            assert(lits@[i].v() == lits@[j].v());
        }
    }
    !found
}

/// Whether a formula with assumptions on declared variables has at most
/// one alternation by its form.
fn goal_is_simple(formula: &QCNF, assumptions: &Vec<Lit>) -> (simple: bool)
    ensures
        simple ==> shape(formula.blocks(), formula.clauses() + units(assumptions@)).len() <= 2,
        simple == simple_form(formula.blocks(), formula.clauses() + units(assumptions@)),
{
    assert(formula.blocks().len() == formula.prefix@.len());
    if formula.prefix.len() > 2 {
        return false;
    }
    let ghost p = formula.blocks();
    let ghost m = formula.clauses();
    let free = formula.free_variables();
    let declared = formula.declared();
    let mut known = free.len() == 0;
    let mut k: usize = 0;
    while k < assumptions.len()
        invariant
            k <= assumptions@.len(),
            p == formula.blocks(),
            forall|x: Var| #[trigger] declared@.contains(x) <==> bound(p, x),
            known <==> free@.len() == 0 && forall|i: int| 0 <= i < k ==> bound(p, (#[trigger] assumptions@[i]).v()),
        decreases assumptions.len() - k,
    {
        if !declared.contains(assumptions[k].var()) {
            known = false;
        }
        k += 1;
    }
    if formula.prefix.len() <= 1 || known {
        proof {
            let all = m + units(assumptions@);
            if known && has_free(p, all) {
                let x = choose|x: Var| #[trigger] mentions(all, x) && !bound(p, x);
                crate::incremental::lemma_concat_mentions(m, units(assumptions@), x);
                if mentions(m, x) {
                    assert(free@.contains(x));
                } else {
                    let u = units(assumptions@);
                    let i = choose|i: int| 0 <= i < u.len() && clause_mentions(#[trigger] u[i], x);
                    assert(u[i] == seq![assumptions@[i]]);
                    let j = choose|j: int| 0 <= j < u[i].len() && (#[trigger] u[i][j]).v() == x;
                    assert(bound(p, assumptions@[i].v()));
                }
            }
            lemma_short_shape(p, all);
        }
        true
    } else {
        proof {
            let all = m + units(assumptions@);
            if free@.len() > 0 {
                let x = free@[0];
                assert(free@.contains(x));
                crate::incremental::lemma_concat_mentions(m, units(assumptions@), x);
                assert(mentions(all, x) && !bound(p, x));
            } else {
                let i = choose|i: int| 0 <= i < assumptions@.len() && !bound(p, (#[trigger] assumptions@[i]).v());
                let x = assumptions@[i].v();
                let u = units(assumptions@);
                assert(u[i][0].v() == x);
                assert(clause_mentions(u[i], x));
                assert(mentions(u, x));
                crate::incremental::lemma_concat_mentions(m, u, x);
                assert(mentions(all, x) && !bound(p, x));
            }
        }
        false
    }
}

} // verus!
