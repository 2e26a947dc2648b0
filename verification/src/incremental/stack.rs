//! The assertion stack and the formula it stands for.
use crate::datastructure::VarSet;
use crate::incdet::circuit::listed;
use crate::incdet::refutes;
use crate::literal::{Lit, Var};
use crate::normal::copy_clauses;
use crate::qcnf::{matrix_of, prefix_of, QCNF};
use crate::quantifier::QuantTy;
use crate::reduction::{bound_only_by, lemma_falsify, losing};
use crate::sat::consistent;
use crate::semantics::{
    agree_off, bound, bound_by, clause_true, cube_true, formula_true, lemma_mono, lit_true, matrix_true, prefix_distinct, qbf, reach,
    Assignment, Matrix, Prefix,
};
use vstd::prelude::*;

verus! {

broadcast use crate::literal::group_literal;

/// One frame of the assertion stack.
#[derive(Debug)]
pub struct Frame {
    pub universals: Vec<Var>,
    pub existentials: Vec<Var>,
    pub clauses: Vec<Vec<Lit>>,
}

impl Frame {
    /// The clauses of the frame.
    pub open spec fn matrix(&self) -> Matrix {
        matrix_of(self.clauses@)
    }

    /// A frame without declarations and clauses.
    pub fn new() -> (frame: Frame)
        ensures
            frame.universals@.len() == 0,
            frame.existentials@.len() == 0,
            frame.matrix() == Matrix::empty(),
    {
        let frame = Frame { universals: Vec::new(), existentials: Vec::new(), clauses: Vec::new() };
        assert(frame.matrix() =~= Matrix::empty());
        frame
    }
}

/// The clauses of all frames.
pub open spec fn stacked_clauses(frames: Seq<Frame>) -> Matrix
    decreases frames.len(),
{
    if frames.len() == 0 {
        Seq::empty()
    } else {
        stacked_clauses(frames.drop_last()) + frames.last().matrix()
    }
}

/// The variables that some frame declares universal.
pub open spec fn stacked_universals(frames: Seq<Frame>) -> Seq<Var>
    decreases frames.len(),
{
    if frames.len() == 0 {
        Seq::empty()
    } else {
        stacked_universals(frames.drop_last()) + frames.last().universals@
    }
}

/// The variables that some frame declares existential.
pub open spec fn stacked_existentials(frames: Seq<Frame>) -> Seq<Var>
    decreases frames.len(),
{
    if frames.len() == 0 {
        Seq::empty()
    } else {
        stacked_existentials(frames.drop_last()) + frames.last().existentials@
    }
}

/// The variables in order of their first occurrence, without some.
pub open spec fn firsts(vars: Seq<Var>, without: Seq<Var>) -> Seq<Var>
    decreases vars.len(),
{
    if vars.len() == 0 {
        Seq::empty()
    } else {
        let before = firsts(vars.drop_last(), without);
        if without.contains(vars.last()) {
            before
        } else {
            listed(before, vars.last())
        }
    }
}

/// The blocks of the stack: the universal variables, if there are any,
/// before the existential ones. A variable declared both ways is
/// existential, as the inner block binds it.
pub open spec fn stack_blocks(frames: Seq<Frame>) -> Prefix {
    let es = firsts(stacked_existentials(frames), Seq::empty());
    let us = firsts(stacked_universals(frames), es);
    if us.len() == 0 {
        seq![(QuantTy::Exists, es)]
    } else {
        seq![(QuantTy::Forall, us), (QuantTy::Exists, es)]
    }
}

/// First occurrences are distinct, and none that was given is missing.
pub proof fn lemma_firsts(vars: Seq<Var>, without: Seq<Var>)
    ensures
        firsts(vars, without).no_duplicates(),
        forall|x: Var| #[trigger] firsts(vars, without).contains(x) <==> vars.contains(x) && !without.contains(x),
    decreases vars.len(),
{
    if vars.len() > 0 {
        let front = vars.drop_last();
        let before = firsts(front, without);
        let last = vars.last();
        lemma_firsts(front, without);
        assert(vars =~= front.push(last));
        assert forall|x: Var| #[trigger] firsts(vars, without).contains(x) <==> vars.contains(x) && !without.contains(x) by {
            crate::datastructure::lemma_push_contains(front, last, x);
            crate::datastructure::lemma_push_contains(before, last, x);
            assert(before.contains(x) <==> front.contains(x) && !without.contains(x));
        }
        if !without.contains(last) && !before.contains(last) {
            let all = before.push(last);
            assert forall|i: int, j: int| 0 <= i < j < all.len() implies all[i] != all[j] by {
                if j == before.len() {
                    assert(before.contains(before[i]));
                }
            }
        }
    } else {
        assert forall|x: Var| !#[trigger] firsts(vars, without).contains(x) by {}
    }
}

/// The first occurrences in a list.
pub(crate) fn first_occurrences(vars: &Vec<Var>, without: &Vec<Var>) -> (result: Vec<Var>)
    ensures
        result@ == firsts(vars@, without@),
{
    let excluded = VarSet::from_vars(without);
    let mut seen = VarSet::new();
    let mut result: Vec<Var> = Vec::new();
    let mut k: usize = 0;
    assert(vars@.take(0) =~= Seq::<Var>::empty());
    while k < vars.len()
        invariant
            k <= vars@.len(),
            forall|x: Var| #[trigger] excluded@.contains(x) <==> without@.contains(x),
            forall|x: Var| #[trigger] seen@.contains(x) <==> result@.contains(x),
            result@ == firsts(vars@.take(k as int), without@),
        decreases vars.len() - k,
    {
        let var = vars[k];
        assert(vars@.take(k as int + 1).drop_last() =~= vars@.take(k as int));
        if !excluded.contains(var) {
            let ghost before = result@;
            let ghost known = seen@;
            if seen.insert(var) {
                result.push(var);
                assert forall|x: Var| #[trigger] seen@.contains(x) <==> result@.contains(x) by {
                    crate::datastructure::lemma_push_contains(before, var, x);
                    assert(known.contains(x) <==> before.contains(x));
                }
            } else {
                assert(before.contains(var));
                assert(seen@ =~= known);
            }
        }
        k += 1;
    }
    assert(vars@.take(vars@.len() as int) =~= vars@);
    result
}

/// The declared variables of a stack: universal and existential ones.
fn declared(frames: &Vec<Frame>) -> (result: (Vec<Var>, Vec<Var>))
    ensures
        result.0@ == stacked_universals(frames@),
        result.1@ == stacked_existentials(frames@),
{
    let mut universals: Vec<Var> = Vec::new();
    let mut existentials: Vec<Var> = Vec::new();
    let mut k: usize = 0;
    assert(frames@.take(0) =~= Seq::<Frame>::empty());
    while k < frames.len()
        invariant
            k <= frames@.len(),
            universals@ == stacked_universals(frames@.take(k as int)),
            existentials@ == stacked_existentials(frames@.take(k as int)),
        decreases frames.len() - k,
    {
        let mut us = crate::normal::copy_vars(&frames[k].universals);
        let mut es = crate::normal::copy_vars(&frames[k].existentials);
        universals.append(&mut us);
        existentials.append(&mut es);
        assert(frames@.take(k as int + 1).drop_last() =~= frames@.take(k as int));
        k += 1;
    }
    assert(frames@.take(frames@.len() as int) =~= frames@);
    (universals, existentials)
}

/// The formula of a stack.
pub fn stack_formula(frames: &Vec<Frame>) -> (formula: QCNF)
    ensures
        formula.wf(),
        formula.blocks() == stack_blocks(frames@),
        formula.clauses() == stacked_clauses(frames@),
{
    let mut matrix: Vec<Vec<Lit>> = Vec::new();
    let mut k: usize = 0;
    assert(frames@.take(0) =~= Seq::<Frame>::empty());
    assert(matrix_of(matrix@) =~= Matrix::empty());
    while k < frames.len()
        invariant
            k <= frames@.len(),
            matrix_of(matrix@) == stacked_clauses(frames@.take(k as int)),
        decreases frames.len() - k,
    {
        let ghost before = matrix_of(matrix@);
        let mut more = copy_clauses(&frames[k].clauses);
        matrix.append(&mut more);
        assert(matrix_of(matrix@) =~= before + frames@[k as int].matrix());
        assert(frames@.take(k as int + 1).drop_last() =~= frames@.take(k as int));
        k += 1;
    }
    assert(frames@.take(frames@.len() as int) =~= frames@);
    let (all_universals, all_existentials) = declared(frames);
    let none: Vec<Var> = Vec::new();
    let existentials = first_occurrences(&all_existentials, &none);
    let universals = first_occurrences(&all_universals, &existentials);
    let ghost us = universals@;
    let ghost es = existentials@;
    proof {
        assert(none@ =~= Seq::<Var>::empty());
        lemma_firsts(all_existentials@, Seq::empty());
        lemma_firsts(all_universals@, es);
    }
    let mut prefix: Vec<(QuantTy, Vec<Var>)> = Vec::new();
    let some = universals.len() > 0;
    if some {
        prefix.push((QuantTy::Forall, universals));
    }
    prefix.push((QuantTy::Exists, existentials));
    let formula = QCNF { prefix, matrix };
    proof {
        let p = formula.blocks();
        if some {
            assert(p =~= seq![(QuantTy::Forall, us), (QuantTy::Exists, es)]);
        } else {
            assert(p =~= seq![(QuantTy::Exists, es)]);
        }
        assert forall|i: int| 0 <= i < p.len() implies (#[trigger] p[i]).1.no_duplicates() by {}
        assert forall|i: int, j: int, x: Var| 0 <= i < j < p.len() && #[trigger] p[i].1.contains(x) implies !#[trigger] p[j].1.contains(x) by {
            assert(us.contains(x));
        }
    }
    formula
}

/// The frames hold the clause.
pub open spec fn on_stack(frames: Seq<Frame>, c: Seq<Lit>) -> bool {
    exists|d: int, j: int| 0 <= d < frames.len() && 0 <= j < frames[d].clauses@.len() && #[trigger] frames[d].clauses@[j]@ == c
}

/// A clause is among the stacked ones iff a frame holds it.
pub proof fn lemma_on_stack(frames: Seq<Frame>, c: Seq<Lit>)
    ensures
        stacked_clauses(frames).contains(c) <==> on_stack(frames, c),
    decreases frames.len(),
{
    if frames.len() > 0 {
        let front = frames.drop_last();
        let own = frames.last().matrix();
        lemma_on_stack(front, c);
        crate::semantics::lemma_concat_contains(stacked_clauses(front), own, c);
        if on_stack(front, c) {
            let (d, j) = choose|d: int, j: int|
                0 <= d < front.len() && 0 <= j < front[d].clauses@.len() && #[trigger] front[d].clauses@[j]@ == c;
            assert(frames[d].clauses@[j]@ == c);
        }
        if own.contains(c) {
            let j = choose|j: int| 0 <= j < own.len() && own[j] == c;
            assert(frames[frames.len() - 1].clauses@[j]@ == c);
        }
        if on_stack(frames, c) {
            let (d, j) = choose|d: int, j: int|
                0 <= d < frames.len() && 0 <= j < frames[d].clauses@.len() && #[trigger] frames[d].clauses@[j]@ == c;
            if d < front.len() {
                assert(front[d].clauses@[j]@ == c);
            } else {
                assert(own[j] == c);
            }
        }
    } else {
        assert(!stacked_clauses(frames).contains(c));
    }
}

/// Clauses that all occur among others follow from them.
pub proof fn lemma_contained_true(m: Matrix, n: Matrix, a: Assignment)
    requires
        forall|i: int| 0 <= i < m.len() ==> n.contains(#[trigger] m[i]),
        matrix_true(a, n),
    ensures
        matrix_true(a, m),
{
    assert forall|i: int| 0 <= i < m.len() implies clause_true(a, #[trigger] m[i]) by {
        assert(n.contains(m[i]));
        let j = choose|j: int| 0 <= j < n.len() && n[j] == m[i];
        assert(clause_true(a, n[j]));
    }
}

/// Clauses of lower frames are clauses of the stack.
pub proof fn lemma_lower_frames(frames: Seq<Frame>, n: int, a: Assignment)
    requires
        0 <= n <= frames.len(),
        matrix_true(a, stacked_clauses(frames)),
    ensures
        matrix_true(a, stacked_clauses(frames.take(n))),
{
    let m = stacked_clauses(frames.take(n));
    assert forall|i: int| 0 <= i < m.len() implies stacked_clauses(frames).contains(#[trigger] m[i]) by {
        assert(m.contains(m[i]));
        lemma_on_stack(frames.take(n), m[i]);
        let (d, j) = choose|d: int, j: int|
            0 <= d < frames.take(n).len() && 0 <= j < frames.take(n)[d].clauses@.len() && #[trigger] frames.take(n)[d].clauses@[j]@ == m[i];
        assert(frames[d].clauses@[j]@ == m[i]);
        lemma_on_stack(frames, m[i]);
    }
    lemma_contained_true(m, stacked_clauses(frames), a);
}

/// Whether two clauses have the same literals in the same order.
pub(crate) fn same_lits(left: &Vec<Lit>, right: &Vec<Lit>) -> (same: bool)
    ensures
        same == (left@ == right@),
{
    if left.len() != right.len() {
        return false;
    }
    let mut k: usize = 0;
    while k < left.len()
        invariant
            k <= left@.len(),
            left@.len() == right@.len(),
            forall|i: int| 0 <= i < k ==> left@[i] == right@[i],
        decreases left.len() - k,
    {
        if left[k] != right[k] {
            return false;
        }
        k += 1;
    }
    assert(left@ =~= right@);
    true
}

/// The clauses that were added at a depth.
pub open spec fn added_at(m: Matrix, depths: Seq<usize>, d: int) -> Matrix
    decreases m.len(),
{
    if m.len() == 0 || depths.len() != m.len() {
        Seq::empty()
    } else {
        let before = added_at(m.drop_last(), depths.drop_last(), d);
        if depths.last() == d {
            before.push(m.last())
        } else {
            before
        }
    }
}

/// The clauses of each depth are the first ones of its frame.
pub open spec fn covered(frames: Seq<Frame>, m: Matrix, depths: Seq<usize>) -> bool {
    &&& forall|i: int| 0 <= i < depths.len() ==> (#[trigger] depths[i]) < frames.len()
    &&& forall|d: int| 0 <= d < frames.len() ==> (#[trigger] added_at(m, depths, d)).is_prefix_of(frames[d].matrix())
}

/// The clauses of each depth are those of its frame.
pub open spec fn fully_covered(frames: Seq<Frame>, m: Matrix, depths: Seq<usize>) -> bool {
    &&& covered(frames, m, depths)
    &&& forall|d: int| 0 <= d < frames.len() ==> #[trigger] added_at(m, depths, d) == frames[d].matrix()
}

/// Fewer clauses of a depth are the first ones of more.
proof fn lemma_added_prefix(m: Matrix, depths: Seq<usize>, k: int, d: int)
    requires
        0 <= k <= m.len(),
        depths.len() == m.len(),
    ensures
        added_at(m.take(k), depths.take(k), d).is_prefix_of(added_at(m, depths, d)),
    decreases m.len(),
{
    if k == m.len() {
        assert(m.take(k) =~= m);
        assert(depths.take(k) =~= depths);
    } else {
        lemma_added_prefix(m.drop_last(), depths.drop_last(), k, d);
        assert(m.drop_last().take(k) =~= m.take(k));
        assert(depths.drop_last().take(k) =~= depths.take(k));
    }
}

/// How much of the stack a list of clauses holds, by the depths at which
/// they were added: `None` if it holds others, else whether it holds all.
pub fn coverage(frames: &Vec<Frame>, matrix: &Vec<Vec<Lit>>, depths: &Vec<usize>) -> (result: Option<bool>)
    requires
        depths@.len() == matrix@.len(),
    ensures
        result is Some <==> covered(frames@, matrix_of(matrix@), depths@),
        result == Some(true) <==> fully_covered(frames@, matrix_of(matrix@), depths@),
        result matches Some(all) ==> {
            &&& forall|i: int| 0 <= i < matrix@.len() ==> stacked_clauses(frames@).contains(#[trigger] matrix_of(matrix@)[i])
            &&& forall|a: Assignment| #[trigger] matrix_true(a, stacked_clauses(frames@)) ==> matrix_true(a, matrix_of(matrix@))
            &&& all ==> forall|a: Assignment| #[trigger] matrix_true(a, matrix_of(matrix@)) ==> matrix_true(a, stacked_clauses(frames@))
        },
{
    let ghost m = matrix_of(matrix@);
    let ghost stack = stacked_clauses(frames@);
    let mut cursors: Vec<usize> = Vec::new();
    while cursors.len() < frames.len()
        invariant
            cursors@.len() <= frames@.len(),
            forall|d: int| 0 <= d < cursors@.len() ==> #[trigger] cursors@[d] == 0,
        decreases frames.len() - cursors.len(),
    {
        cursors.push(0);
    }
    let mut k: usize = 0;
    proof {
        assert(m.take(0) =~= Matrix::empty());
        assert forall|d: int| 0 <= d < frames@.len() implies #[trigger] added_at(m.take(0), depths@.take(0), d) == frames@[d].matrix().take(
            cursors@[d] as int,
        ) by {
            assert(frames@[d].matrix().take(0) =~= Matrix::empty());
        }
    }
    while k < matrix.len()
        invariant
            k <= matrix@.len(),
            forall|i: int| 0 <= i < k ==> (#[trigger] depths@[i]) < frames@.len(),
            forall|d: int| 0 <= d < frames@.len() ==> #[trigger] added_at(m.take(k as int), depths@.take(k as int), d) == frames@[d].matrix().take(
                cursors@[d] as int,
            ),
            m == matrix_of(matrix@),
            depths@.len() == matrix@.len(),
            cursors@.len() == frames@.len(),
            forall|d: int| 0 <= d < cursors@.len() ==> #[trigger] cursors@[d] <= frames@[d].clauses@.len(),
            forall|i: int| 0 <= i < k ==> on_stack(frames@, #[trigger] m[i]),
            forall|d: int, j: int| 0 <= d < frames@.len() && 0 <= j < cursors@[d] ==> m.contains(#[trigger] frames@[d].clauses@[j]@),
        decreases matrix.len() - k,
    {
        let depth = depths[k];
        if depth >= frames.len() {
            return None;
        }
        let cursor = cursors[depth];
        proof {
            let (n, e) = (m.take(k as int + 1), depths@.take(k as int + 1));
            assert(n.drop_last() =~= m.take(k as int));
            assert(e.drop_last() =~= depths@.take(k as int));
            assert(n.last() == m[k as int] && e.last() == depth);
            lemma_added_prefix(m, depths@, k as int + 1, depth as int);
            let own = frames@[depth as int].matrix();
            let some = added_at(n, e, depth as int);
            assert(added_at(m.take(k as int), depths@.take(k as int), depth as int) == own.take(cursor as int));
            assert(some == own.take(cursor as int).push(m[k as int]));
            assert(some[cursor as int] == m[k as int]);
            if covered(frames@, m, depths@) {
                let every = added_at(m, depths@, depth as int);
                assert(every.is_prefix_of(own));
                assert(every[cursor as int] == some[cursor as int]);
                assert(own[cursor as int] == m[k as int]);
            }
        }
        if cursor >= frames[depth].clauses.len() || !same_lits(&matrix[k], &frames[depth].clauses[cursor]) {
            return None;
        }
        let ghost before = cursors@;
        cursors.set(depth, cursor + 1);
        proof {
            assert(m[k as int] == matrix@[k as int]@);
            assert(frames@[depth as int].clauses@[cursor as int]@ == m[k as int]);
            let (n, e) = (m.take(k as int + 1), depths@.take(k as int + 1));
            assert(n.drop_last() =~= m.take(k as int));
            assert(e.drop_last() =~= depths@.take(k as int));
            assert forall|d: int| 0 <= d < frames@.len() implies #[trigger] added_at(n, e, d) == frames@[d].matrix().take(cursors@[d] as int) by {
                assert(added_at(m.take(k as int), depths@.take(k as int), d) == frames@[d].matrix().take(before[d] as int));
                if d == depth {
                    assert(frames@[d].matrix().take(cursor as int).push(m[k as int]) =~= frames@[d].matrix().take(cursor as int + 1));
                }
            }
            assert forall|d: int, j: int| 0 <= d < frames@.len() && 0 <= j < cursors@[d] implies m.contains(
                #[trigger] frames@[d].clauses@[j]@,
            ) by {
                if d == depth && j == cursor {
                    assert(m.contains(m[k as int]));
                } else {
                    assert(j < before[d]);
                }
            }
        }
        k += 1;
    }
    let mut all = true;
    let mut d: usize = 0;
    while d < frames.len()
        invariant
            d <= frames@.len(),
            cursors@.len() == frames@.len(),
            forall|e: int| 0 <= e < cursors@.len() ==> #[trigger] cursors@[e] <= frames@[e].clauses@.len(),
            all <==> forall|e: int| 0 <= e < d ==> #[trigger] cursors@[e] == frames@[e].clauses@.len(),
        decreases frames.len() - d,
    {
        if cursors[d] < frames[d].clauses.len() {
            all = false;
        }
        d += 1;
    }
    proof {
        assert(m.take(m.len() as int) =~= m);
        assert(depths@.take(m.len() as int) =~= depths@);
        assert forall|d: int| 0 <= d < frames@.len() implies (#[trigger] added_at(m, depths@, d)).is_prefix_of(frames@[d].matrix()) && (
        added_at(m, depths@, d) == frames@[d].matrix() <==> cursors@[d] == frames@[d].clauses@.len()) by {
            let own = frames@[d].matrix();
            assert(added_at(m, depths@, d) == own.take(cursors@[d] as int));
            if cursors@[d] == own.len() {
                assert(own.take(cursors@[d] as int) =~= own);
            }
        }
        if fully_covered(frames@, m, depths@) {
            assert forall|e: int| 0 <= e < frames@.len() implies #[trigger] cursors@[e] == frames@[e].clauses@.len() by {
                assert(added_at(m, depths@, e) == frames@[e].matrix());
            }
        }
        assert forall|i: int| 0 <= i < m.len() implies stack.contains(#[trigger] m[i]) by {
            lemma_on_stack(frames@, m[i]);
        }
        assert forall|a: Assignment| #[trigger] matrix_true(a, stack) implies matrix_true(a, m) by {
            lemma_contained_true(m, stack, a);
        }
        if all {
            assert forall|i: int| 0 <= i < stack.len() implies m.contains(#[trigger] stack[i]) by {
                assert(stack.contains(stack[i]));
                lemma_on_stack(frames@, stack[i]);
                let (e, j) = choose|e: int, j: int|
                    0 <= e < frames@.len() && 0 <= j < frames@[e].clauses@.len() && #[trigger] frames@[e].clauses@[j]@ == stack[i];
                assert(cursors@[e] == frames@[e].clauses@.len());
                assert(m.contains(frames@[e].clauses@[j]@));
            }
            assert forall|a: Assignment| #[trigger] matrix_true(a, m) implies matrix_true(a, stack) by {
                lemma_contained_true(stack, m, a);
            }
        }
    }
    Some(all)
}

/// The prefixes have the same quantifiers over the same variables.
pub open spec fn same_blocks(p: Prefix, q: Prefix) -> bool {
    &&& p.len() == q.len()
    &&& forall|i: int| 0 <= i < p.len() ==> (#[trigger] p[i]).0 == q[i].0
    &&& forall|i: int, x: Var| 0 <= i < p.len() ==> (#[trigger] p[i].1.contains(x) <==> q[i].1.contains(x))
}

/// Whether two prefixes have the same quantifiers over the same variables.
pub fn is_same_blocks(left: &Vec<(QuantTy, Vec<Var>)>, right: &Vec<(QuantTy, Vec<Var>)>) -> (same: bool)
    ensures
        same == same_blocks(prefix_of(left@), prefix_of(right@)),
{
    if left.len() != right.len() {
        return false;
    }
    let ghost p = prefix_of(left@);
    let ghost q = prefix_of(right@);
    let mut k: usize = 0;
    while k < left.len()
        invariant
            k <= left@.len(),
            left@.len() == right@.len(),
            p == prefix_of(left@),
            q == prefix_of(right@),
            forall|i: int| 0 <= i < k ==> (#[trigger] p[i]).0 == q[i].0,
            forall|i: int, x: Var| 0 <= i < k ==> (#[trigger] p[i].1.contains(x) <==> q[i].1.contains(x)),
        decreases left.len() - k,
    {
        proof {
            assert(p[k as int] == (left@[k as int].0, left@[k as int].1@));
            assert(q[k as int] == (right@[k as int].0, right@[k as int].1@));
            if same_blocks(p, q) {
                assert(p[k as int].0 == q[k as int].0);
                assert forall|x: Var| #[trigger] left@[k as int].1@.contains(x) implies right@[k as int].1@.contains(x) by {
                    assert(p[k as int].1.contains(x) <==> q[k as int].1.contains(x));
                }
                assert forall|x: Var| #[trigger] right@[k as int].1@.contains(x) implies left@[k as int].1@.contains(x) by {
                    assert(p[k as int].1.contains(x) <==> q[k as int].1.contains(x));
                }
            }
        }
        if left[k].0 != right[k].0 || !within(&left[k].1, &right[k].1) || !within(&right[k].1, &left[k].1) {
            return false;
        }
        assert forall|i: int, x: Var| 0 <= i < k + 1 implies (#[trigger] p[i].1.contains(x) <==> q[i].1.contains(x)) by {
            if i == k {
                assert(p[i].1 == left@[i].1@);
                assert(q[i].1 == right@[i].1@);
            }
        }
        k += 1;
    }
    true
}

fn within(vars: &Vec<Var>, others: &Vec<Var>) -> (yes: bool)
    ensures
        yes == forall|x: Var| #[trigger] vars@.contains(x) ==> others@.contains(x),
{
    let set = VarSet::from_vars(others);
    let mut k: usize = 0;
    while k < vars.len()
        invariant
            k <= vars@.len(),
            forall|x: Var| #[trigger] set@.contains(x) <==> others@.contains(x),
            forall|i: int| 0 <= i < k ==> others@.contains(#[trigger] vars@[i]),
        decreases vars.len() - k,
    {
        assert(vars@.contains(vars@[k as int]));
        if !set.contains(vars[k]) {
            return false;
        }
        k += 1;
    }
    assert forall|x: Var| #[trigger] vars@.contains(x) implies others@.contains(x) by {
        let i = choose|i: int| 0 <= i < vars@.len() && vars@[i] == x;
        assert(others@.contains(vars@[i]));
    }
    true
}

/// Formulas over the same blocks with equivalent clauses have the same
/// value.
pub proof fn lemma_same_formula(p: Prefix, q: Prefix, m: Matrix, n: Matrix, a: Assignment)
    requires
        same_blocks(p, q),
        forall|b: Assignment| #[trigger] matrix_true(b, m) == matrix_true(b, n),
    ensures
        qbf(p, m, a) == qbf(q, n, a),
    decreases p.len(),
{
    if p.len() > 0 {
        let r = p.drop_first();
        let s = q.drop_first();
        assert(same_blocks(r, s)) by {
            assert forall|i: int| 0 <= i < r.len() implies (#[trigger] r[i]).0 == s[i].0 by {
                assert(p[i + 1].0 == q[i + 1].0);
            }
            assert forall|i: int, x: Var| 0 <= i < r.len() implies (#[trigger] r[i].1.contains(x) <==> s[i].1.contains(x)) by {
                assert(p[i + 1].1.contains(x) <==> q[i + 1].1.contains(x));
            }
        }
        assert forall|b: Assignment| #[trigger] agree_off(a, b, p[0].1) == agree_off(a, b, q[0].1) by {
            assert forall|x: Var| p[0].1.contains(x) == q[0].1.contains(x) by {}
        }
        assert forall|b: Assignment| #[trigger] qbf(r, m, b) == qbf(s, n, b) by {
            lemma_same_formula(r, s, m, n, b);
        }
        assert(p[0].0 == q[0].0);
        if p[0].0 == QuantTy::Exists {
            if qbf(p, m, a) {
                let b = choose|b: Assignment| #[trigger] agree_off(a, b, p[0].1) && qbf(r, m, b);
                assert(agree_off(a, b, q[0].1) && qbf(s, n, b));
            }
            if qbf(q, n, a) {
                let b = choose|b: Assignment| #[trigger] agree_off(a, b, q[0].1) && qbf(s, n, b);
                assert(agree_off(a, b, p[0].1) && qbf(r, m, b));
            }
        } else {
            if qbf(p, m, a) {
                assert forall|b: Assignment| #[trigger] agree_off(a, b, q[0].1) implies qbf(s, n, b) by {
                    assert(agree_off(a, b, p[0].1));
                    assert(qbf(r, m, b));
                }
            }
            if qbf(q, n, a) {
                assert forall|b: Assignment| #[trigger] agree_off(a, b, p[0].1) implies qbf(r, m, b) by {
                    assert(agree_off(a, b, q[0].1));
                    assert(qbf(s, n, b));
                }
            }
        }
    }
}

/// Formulas over the same blocks with equivalent clauses are true
/// together.
pub proof fn lemma_same_truth(p: Prefix, q: Prefix, m: Matrix, n: Matrix)
    requires
        same_blocks(p, q),
        forall|b: Assignment| #[trigger] matrix_true(b, m) == matrix_true(b, n),
    ensures
        formula_true(p, m) == formula_true(q, n),
{
    if formula_true(p, m) {
        let a = choose|a: Assignment| #[trigger] qbf(p, m, a);
        lemma_same_formula(p, q, m, n, a);
    }
    if formula_true(q, n) {
        let a = choose|a: Assignment| #[trigger] qbf(q, n, a);
        lemma_same_formula(p, q, m, n, a);
    }
}

/// A formula with a refuting move of the universal player is false.
pub proof fn lemma_refuted(p: Prefix, m: Matrix, witness: Seq<Lit>)
    requires
        prefix_distinct(p),
        consistent(witness),
        refutes(p, m, witness),
    ensures
        !formula_true(p, m),
{
    let c = Seq::new(witness.len(), |i: int| witness[i].neg());
    let n = seq![c];
    assert forall|a: Assignment| !#[trigger] qbf(p, m, a) by {
        if qbf(p, m, a) {
            assert forall|b: Assignment| #[trigger] reach(p, a, b) && matrix_true(b, m) implies matrix_true(b, n) by {
                if !clause_true(b, c) {
                    assert forall|i: int| 0 <= i < witness.len() implies lit_true(b, #[trigger] witness[i]) by {
                        assert(!lit_true(b, c[i]));
                    }
                    assert(cube_true(b, witness));
                }
                assert(n[0] == c);
            }
            lemma_mono(p, m, n, a);
            assert(n[0] == c);
            assert(consistent(c)) by {
                assert forall|i: int, j: int| 0 <= i < c.len() && 0 <= j < c.len() && #[trigger] c[i].v() == #[trigger] c[j].v() implies c[i].pos()
                    == c[j].pos() by {
                    assert(witness[i].v() == witness[j].v());
                }
            }
            assert forall|i: int| 0 <= i < c.len() implies losing(p, a, #[trigger] c[i]) by {
                let x = witness[i].v();
                assert(bound_by(p, QuantTy::Forall, x));
                let k = choose|k: int| 0 <= k < p.len() && (#[trigger] p[k]).0 == QuantTy::Forall && p[k].1.contains(x);
                assert(bound(p, x));
                assert forall|l: int| 0 <= l < p.len() && (#[trigger] p[l]).1.contains(x) implies p[l].0 == QuantTy::Forall by {
                    if l < k {
                        assert(p[l].1.contains(x) && p[k].1.contains(x));
                    } else if k < l {
                        assert(p[k].1.contains(x) && p[l].1.contains(x));
                    }
                }
                assert(bound_only_by(p, QuantTy::Forall, x));
            }
            lemma_falsify(p, n, c, a);
        }
    }
}

} // verus!
