//! Determinacy checking.
//!
//! An existential variable is uniquely determined if under every assignment
//! of the remaining variables at least one of its implication clauses fires.
//! This is checked by testing unsatisfiability of the conjunction of all
//! implication clauses with the variable's literals removed.
//!
//! These formulas are tiny (a handful of short clauses) and the check runs
//! very often, so a full SAT solver is not built per check. Instead a
//! budgeted DPLL procedure decides almost all instances directly; only if
//! the budget is exhausted (adversarially large implication sets) the check
//! falls back to the SAT solver.
use crate::incdet::cegar::load_clauses;
use crate::literal::{Lit, Var};
use crate::normal::copy_clauses;
use crate::qcnf::matrix_of;
use crate::sat::{clauses_ok, SatOutcome, SatSolver};
use crate::semantics::{
    clause_mentions, clause_true, lemma_matrix_coincide, lit_true, matrix_true, mentions, set_var, Assignment, Matrix,
};
use crate::simplify::{contains_lit, lemma_push_true};
use vstd::prelude::*;

verus! {

broadcast use crate::literal::group_literal;

/// Number of DPLL steps (unit propagations and case splits) before falling
/// back to a real SAT solver.
pub const DPLL_BUDGET: u32 = 10_000;

/// Some assignment satisfies the clauses.
pub open spec fn satisfiable(m: Matrix) -> bool {
    exists|a: Assignment| #[trigger] matrix_true(a, m)
}

/// The number of literals in the clauses.
pub open spec fn weight(m: Matrix) -> nat
    decreases m.len(),
{
    if m.len() == 0 {
        0
    } else {
        weight(m.drop_last()) + m.last().len()
    }
}

/// The largest number of steps on clauses of a given weight.
pub open spec fn steps(n: nat) -> nat
    decreases n,
{
    if n == 0 {
        1
    } else {
        2 * steps((n - 1) as nat) + 1
    }
}

proof fn lemma_steps(n: nat, k: nat)
    requires
        n <= k,
    ensures
        steps(n) <= steps(k),
        steps(n) >= 1,
    decreases k,
{
    if n < k {
        lemma_steps(n, (k - 1) as nat);
    } else if n > 0 {
        lemma_steps((n - 1) as nat, (n - 1) as nat);
    }
}

/// The clause without the literals of a variable.
proof fn lemma_weight_push(m: Matrix, c: Seq<Lit>)
    ensures
        weight(m.push(c)) == weight(m) + c.len(),
{
    assert(m.push(c).drop_last() =~= m);
}

proof fn lemma_weight_take(m: Matrix, i: int)
    requires
        0 <= i <= m.len(),
    ensures
        weight(m.take(i)) <= weight(m),
        i < m.len() ==> weight(m.take(i + 1)) == weight(m.take(i)) + m[i].len(),
    decreases m.len(),
{
    if i < m.len() {
        lemma_weight_take(m.drop_last(), i);
        assert(m.drop_last().take(i) =~= m.take(i));
        assert(m.take(i + 1).drop_last() =~= m.take(i));
    } else {
        assert(m.take(i) =~= m);
    }
}

/// The clauses after a literal was assigned true.
pub open spec fn assigned(m: Matrix, n: Matrix, lit: Lit) -> bool {
    &&& forall|a: Assignment| lit_true(a, lit) ==> #[trigger] matrix_true(a, n) == matrix_true(a, m)
    &&& !mentions(n, lit.v())
}

/// The clause without a literal.
pub open spec fn clause_without(c: Seq<Lit>, lit: Lit) -> Seq<Lit>
    decreases c.len(),
{
    if c.len() == 0 {
        c
    } else if c.last() == lit {
        clause_without(c.drop_last(), lit)
    } else {
        clause_without(c.drop_last(), lit).push(c.last())
    }
}

/// The clauses that a true literal does not satisfy, without its negation.
pub open spec fn after(m: Matrix, lit: Lit) -> Matrix
    decreases m.len(),
{
    if m.len() == 0 {
        m
    } else if m.last().contains(lit) {
        after(m.drop_last(), lit)
    } else {
        after(m.drop_last(), lit).push(clause_without(m.last(), lit.neg()))
    }
}

proof fn lemma_without_len(c: Seq<Lit>, lit: Lit)
    ensures
        clause_without(c, lit).len() <= c.len(),
        c.contains(lit) ==> clause_without(c, lit).len() < c.len(),
    decreases c.len(),
{
    if c.len() > 0 {
        lemma_without_len(c.drop_last(), lit);
        if c.contains(lit) && c.last() != lit {
            let i = choose|i: int| 0 <= i < c.len() && c[i] == lit;
            assert(c.drop_last()[i] == lit);
        }
    }
}

proof fn lemma_after_weight(m: Matrix, lit: Lit)
    ensures
        weight(after(m, lit)) <= weight(m),
        mentions(m, lit.v()) ==> weight(after(m, lit)) < weight(m),
    decreases m.len(),
{
    if m.len() > 0 {
        let front = m.drop_last();
        let c = m.last();
        lemma_after_weight(front, lit);
        lemma_without_len(c, lit.neg());
        lemma_weight_push(after(front, lit), clause_without(c, lit.neg()));
        if mentions(m, lit.v()) && !mentions(front, lit.v()) {
            let i = choose|i: int| 0 <= i < m.len() && clause_mentions(#[trigger] m[i], lit.v());
            if i < front.len() {
                assert(clause_mentions(front[i], lit.v()));
            }
            let j = choose|j: int| 0 <= j < c.len() && (#[trigger] c[j]).v() == lit.v();
            assert(c.contains(c[j]));
            crate::literal::lemma_lit_ext(c[j], if c[j].pos() == lit.pos() { lit } else { lit.neg() });
        }
        if c.contains(lit) {
            assert(c.len() > 0);
        }
    }
}

/// Some clause has the given number of literals.
pub open spec fn has_length(m: Matrix, n: nat) -> bool {
    exists|i: int| 0 <= i < m.len() && (#[trigger] m[i]).len() == n
}

/// The first clause of one literal from an index on, or the number of
/// clauses.
pub open spec fn first_unit(m: Matrix, from: int) -> int
    decreases m.len() - from,
{
    if from < 0 || from >= m.len() {
        m.len() as int
    } else if m[from].len() == 1 {
        from
    } else {
        first_unit(m, from + 1)
    }
}

proof fn lemma_first_unit(m: Matrix, from: int, i: int)
    requires
        0 <= from <= i < m.len(),
        m[i].len() == 1,
    ensures
        from <= first_unit(m, from) <= i,
        m[first_unit(m, from)].len() == 1,
        (forall|j: int| from <= j < i ==> (#[trigger] m[j]).len() != 1) ==> first_unit(m, from) == i,
    decreases i - from,
{
    if m[from].len() != 1 {
        lemma_first_unit(m, from + 1, i);
    }
}

/// The number of steps that deciding the clauses takes: one for each unit
/// propagation and each case split, with the second case only where the
/// first one fails.
pub open spec fn cost(m: Matrix) -> nat
    decreases weight(m) via lemma_cost_decreases
{
    if m.len() == 0 || has_length(m, 0) {
        0
    } else if has_length(m, 1) {
        1 + cost(after(m, m[first_unit(m, 0)][0]))
    } else {
        let yes = after(m, m[0][0]);
        1 + cost(yes) + if satisfiable(yes) {
            0
        } else {
            cost(after(m, m[0][0].neg()))
        }
    }
}

#[via_fn]
proof fn lemma_cost_decreases(m: Matrix) {
    if m.len() > 0 && !has_length(m, 0) {
        if has_length(m, 1) {
            let i = choose|i: int| 0 <= i < m.len() && (#[trigger] m[i]).len() == 1;
            lemma_first_unit(m, 0, i);
            let k = first_unit(m, 0);
            assert(clause_mentions(m[k], m[k][0].v()));
            assert(mentions(m, m[k][0].v()));
            lemma_after_weight(m, m[k][0]);
        } else {
            assert(m[0].len() > 0);
            assert(clause_mentions(m[0], m[0][0].v()));
            assert(mentions(m, m[0][0].v()));
            lemma_after_weight(m, m[0][0]);
            lemma_after_weight(m, m[0][0].neg());
        }
    }
}

/// A clause without a literal.
fn without(clause: &Vec<Lit>, lit: Lit) -> (rest: Vec<Lit>)
    ensures
        rest@ == clause_without(clause@, lit),
        rest@.len() <= clause@.len(),
        clause@.contains(lit) ==> rest@.len() < clause@.len(),
        forall|l: Lit| #[trigger] rest@.contains(l) <==> clause@.contains(l) && l != lit,
{
    let mut rest: Vec<Lit> = Vec::new();
    let mut k: usize = 0;
    assert(clause@.take(0) =~= Seq::<Lit>::empty());
    while k < clause.len()
        invariant
            k <= clause@.len(),
            rest@.len() <= k,
            rest@ == clause_without(clause@.take(k as int), lit),
            clause@.take(k as int).contains(lit) ==> rest@.len() < k,
            forall|l: Lit| #[trigger] rest@.contains(l) <==> clause@.take(k as int).contains(l) && l != lit,
        decreases clause.len() - k,
    {
        let ghost before = rest@;
        let l = clause[k];
        if l != lit {
            rest.push(l);
        }
        proof {
            let part = clause@.take(k as int);
            assert(clause@.take(k as int + 1) =~= part.push(l));
            assert(clause@.take(k as int + 1).drop_last() =~= part);
            assert forall|x: Lit| #[trigger] rest@.contains(x) <==> clause@.take(k as int + 1).contains(x) && x != lit by {
                crate::datastructure::lemma_push_contains(part, l, x);
                crate::datastructure::lemma_push_contains(before, l, x);
                assert(before.contains(x) <==> part.contains(x) && x != lit);
            }
            crate::datastructure::lemma_push_contains(part, l, lit);
        }
        k += 1;
    }
    assert(clause@.take(clause@.len() as int) =~= clause@);
    rest
}

/// Updates the clause set to reflect that `lit` is assigned true: satisfied
/// clauses are removed and falsified literals are deleted.
fn assign(clauses: &Vec<Vec<Lit>>, lit: Lit) -> (result: Vec<Vec<Lit>>)
    ensures
        assigned(matrix_of(clauses@), matrix_of(result@), lit),
        matrix_of(result@) == after(matrix_of(clauses@), lit),
        weight(matrix_of(result@)) <= weight(matrix_of(clauses@)),
        mentions(matrix_of(clauses@), lit.v()) ==> weight(matrix_of(result@)) < weight(matrix_of(clauses@)),
{
    let ghost m = matrix_of(clauses@);
    let mut result: Vec<Vec<Lit>> = Vec::new();
    let negated = lit.negated();
    let mut k: usize = 0;
    assert(m.take(0) =~= Matrix::empty());
    assert(matrix_of(result@) =~= Matrix::empty());
    assert(assigned(m.take(0), matrix_of(result@), lit));
    while k < clauses.len()
        invariant
            k <= clauses@.len(),
            m == matrix_of(clauses@),
            negated == lit.neg(),
            assigned(m.take(k as int), matrix_of(result@), lit),
            matrix_of(result@) == after(m.take(k as int), lit),
            weight(matrix_of(result@)) <= weight(m.take(k as int)),
            mentions(m.take(k as int), lit.v()) ==> weight(matrix_of(result@)) < weight(m.take(k as int)),
        decreases clauses.len() - k,
    {
        let ghost part = m.take(k as int);
        let ghost n = matrix_of(result@);
        let ghost c = m[k as int];
        proof {
            lemma_weight_take(m, k as int);
            assert(m.take(k as int + 1) =~= part.push(c));
            assert(m.take(k as int + 1).drop_last() =~= part);
            assert forall|x: Var| mentions(part.push(c), x) implies mentions(part, x) || clause_mentions(c, x) by {
                crate::qcnf::lemma_matrix_push(part, c, x);
            }
        }
        if !contains_lit(&clauses[k], lit) {
            let rest = without(&clauses[k], negated);
            let ghost d = rest@;
            result.push(rest);
            proof {
                assert(matrix_of(result@) =~= n.push(d));
                lemma_weight_push(n, d);
                lemma_assigned_keep(part, n, c, d, lit);
                if clause_mentions(c, lit.v()) {
                    let j = choose|j: int| 0 <= j < c.len() && (#[trigger] c[j]).v() == lit.v();
                    assert(c.contains(c[j]));
                    crate::literal::lemma_lit_ext(c[j], if c[j].pos() == lit.pos() { lit } else { negated });
                    assert(c.contains(negated));
                }
            }
        } else {
            proof {
                lemma_assigned_drop(part, n, c, lit);
                assert(c.len() > 0);
            }
        }
        k += 1;
    }
    assert(m.take(m.len() as int) =~= m);
    result
}

proof fn lemma_assigned_keep(m: Matrix, n: Matrix, c: Seq<Lit>, d: Seq<Lit>, lit: Lit)
    requires
        assigned(m, n, lit),
        !c.contains(lit),
        forall|l: Lit| #[trigger] d.contains(l) <==> c.contains(l) && l != lit.neg(),
    ensures
        assigned(m.push(c), n.push(d), lit),
{
    assert forall|a: Assignment| lit_true(a, lit) implies #[trigger] matrix_true(a, n.push(d)) == matrix_true(a, m.push(c)) by {
        lemma_push_true(a, m, c);
        lemma_push_true(a, n, d);
        assert(matrix_true(a, n) == matrix_true(a, m));
        if clause_true(a, c) {
            let j = choose|j: int| 0 <= j < c.len() && lit_true(a, #[trigger] c[j]);
            assert(c.contains(c[j]));
            assert(c[j] != lit.neg());
            assert(d.contains(c[j]));
            let i = choose|i: int| 0 <= i < d.len() && d[i] == c[j];
            assert(lit_true(a, d[i]));
        }
        if clause_true(a, d) {
            let j = choose|j: int| 0 <= j < d.len() && lit_true(a, #[trigger] d[j]);
            assert(d.contains(d[j]));
            let i = choose|i: int| 0 <= i < c.len() && c[i] == d[j];
            assert(lit_true(a, c[i]));
        }
    }
    if mentions(n.push(d), lit.v()) {
        crate::qcnf::lemma_matrix_push(n, d, lit.v());
        let j = choose|j: int| 0 <= j < d.len() && (#[trigger] d[j]).v() == lit.v();
        assert(d.contains(d[j]));
        crate::literal::lemma_lit_ext(d[j], if d[j].pos() == lit.pos() { lit } else { lit.neg() });
    }
}

proof fn lemma_assigned_drop(m: Matrix, n: Matrix, c: Seq<Lit>, lit: Lit)
    requires
        assigned(m, n, lit),
        c.contains(lit),
    ensures
        assigned(m.push(c), n, lit),
{
    assert forall|a: Assignment| lit_true(a, lit) implies #[trigger] matrix_true(a, n) == matrix_true(a, m.push(c)) by {
        lemma_push_true(a, m, c);
        let j = choose|j: int| 0 <= j < c.len() && c[j] == lit;
        assert(lit_true(a, c[j]));
        assert(clause_true(a, c));
    }
}

/// An assigned literal can be made true without touching the rest.
proof fn lemma_assigned_sat(m: Matrix, n: Matrix, lit: Lit, a: Assignment) -> (b: Assignment)
    requires
        assigned(m, n, lit),
        matrix_true(a, n),
    ensures
        matrix_true(b, m),
        lit_true(b, lit),
{
    let b = set_var(a, lit.v(), lit.pos());
    lemma_matrix_coincide(n, a, b);
    assert(lit_true(b, lit));
    assert(matrix_true(b, n) == matrix_true(b, m));
    b
}

/// Deciding one of the two values decides the clauses.
proof fn lemma_split(m: Matrix, yes: Matrix, no: Matrix, lit: Lit)
    requires
        assigned(m, yes, lit),
        assigned(m, no, lit.neg()),
    ensures
        satisfiable(m) == (satisfiable(yes) || satisfiable(no)),
{
    if satisfiable(m) {
        let a = choose|a: Assignment| #[trigger] matrix_true(a, m);
        if lit_true(a, lit) {
            assert(matrix_true(a, yes) == matrix_true(a, m));
        } else {
            assert(lit_true(a, lit.neg()));
            assert(matrix_true(a, no) == matrix_true(a, m));
        }
    }
    if satisfiable(yes) {
        let a = choose|a: Assignment| #[trigger] matrix_true(a, yes);
        let b = lemma_assigned_sat(m, yes, lit, a);
    }
    if satisfiable(no) {
        let a = choose|a: Assignment| #[trigger] matrix_true(a, no);
        let b = lemma_assigned_sat(m, no, lit.neg(), a);
    }
}

/// A unit clause decides its literal.
proof fn lemma_unit(m: Matrix, n: Matrix, i: int)
    requires
        0 <= i < m.len(),
        m[i].len() == 1,
        assigned(m, n, m[i][0]),
    ensures
        satisfiable(m) == satisfiable(n),
{
    let lit = m[i][0];
    if satisfiable(m) {
        let a = choose|a: Assignment| #[trigger] matrix_true(a, m);
        assert(clause_true(a, m[i]));
        assert(lit_true(a, lit));
        assert(matrix_true(a, n) == matrix_true(a, m));
    }
    if satisfiable(n) {
        let a = choose|a: Assignment| #[trigger] matrix_true(a, n);
        let b = lemma_assigned_sat(m, n, lit, a);
    }
}

/// The first clause without literals, if there is one, or else the first
/// with a single one.
fn find_short(clauses: &Vec<Vec<Lit>>) -> (found: Option<usize>)
    ensures
        match found {
            Some(i) => i < clauses@.len() && clauses@[i as int]@.len() <= 1 && (clauses@[i as int]@.len() == 1 ==> forall|j: int|
                0 <= j < clauses@.len() ==> (#[trigger] clauses@[j])@.len() > 0) && (clauses@[i as int]@.len() == 1 ==> forall|j: int|
                0 <= j < i ==> (#[trigger] clauses@[j])@.len() != 1),
            None => forall|j: int| 0 <= j < clauses@.len() ==> (#[trigger] clauses@[j])@.len() > 1,
        },
{
    let mut unit: Option<usize> = None;
    let mut k: usize = 0;
    while k < clauses.len()
        invariant
            k <= clauses@.len(),
            forall|j: int| 0 <= j < k ==> (#[trigger] clauses@[j])@.len() > 0,
            match unit {
                Some(i) => i < k && clauses@[i as int]@.len() == 1 && forall|j: int| 0 <= j < i ==> (#[trigger] clauses@[j])@.len() != 1,
                None => forall|j: int| 0 <= j < k ==> (#[trigger] clauses@[j])@.len() > 1,
            },
        decreases clauses.len() - k,
    {
        if clauses[k].len() == 0 {
            return Some(k);
        }
        if clauses[k].len() == 1 && unit.is_none() {
            unit = Some(k);
        }
        k += 1;
    }
    unit
}

/// Decides satisfiability of the clause set with unit propagation and case
/// splitting. Returns `None` if the budget is exhausted.
pub fn dpll(clauses: Vec<Vec<Lit>>, budget: &mut u32) -> (result: Option<bool>)
    ensures
        *final(budget) <= *old(budget),
        result matches Some(sat) ==> sat == satisfiable(matrix_of(clauses@)),
        result is None ==> *final(budget) == 0,
        result is Some <==> *old(budget) >= cost(matrix_of(clauses@)),
        result is Some ==> *final(budget) == *old(budget) - cost(matrix_of(clauses@)),
        *old(budget) >= steps(weight(matrix_of(clauses@))) ==> result is Some && *old(budget) - *final(budget) <= steps(
            weight(matrix_of(clauses@)),
        ),
    decreases *old(budget),
{
    let ghost given = matrix_of(clauses@);
    let mut rest = clauses;
    let ghost start = *budget;
    // unit propagation
    loop
        invariant_except_break
            *budget <= start,
            start == *old(budget),
            given == matrix_of(clauses@),
            satisfiable(matrix_of(rest@)) == satisfiable(given),
            weight(matrix_of(rest@)) <= weight(given),
            start - *budget + cost(matrix_of(rest@)) == cost(given),
            start >= steps(weight(given)) ==> start - *budget + steps(weight(matrix_of(rest@))) <= steps(weight(given)),
        ensures
            *budget < start,
            start == *old(budget),
            given == matrix_of(clauses@),
            satisfiable(matrix_of(rest@)) == satisfiable(given),
            weight(matrix_of(rest@)) <= weight(given),
            start >= steps(weight(given)) ==> start - *budget + steps(weight(matrix_of(rest@))) <= steps(weight(given)) + 1,
            rest@.len() > 0,
            rest@[0]@.len() > 1,
            forall|j: int| 0 <= j < rest@.len() ==> (#[trigger] rest@[j])@.len() > 1,
            start - *budget + cost(matrix_of(rest@)) == cost(given) + 1,
        decreases *budget,
    {
        let ghost m = matrix_of(rest@);
        proof {
            lemma_steps(0, weight(m));
        }
        if rest.len() == 0 {
            proof {
                let a: Assignment = |x: Var| true;
                assert(matrix_true(a, m));
            }
            return Some(true);
        }
        let short = find_short(&rest);
        proof {
            match short {
                Some(i) => {
                    if m[i as int].len() == 0 {
                        assert(has_length(m, 0));
                    } else {
                        assert(m[i as int].len() == 1);
                        assert(has_length(m, 1));
                        assert forall|j: int| 0 <= j < m.len() implies (#[trigger] m[j]).len() > 0 by {
                            assert(m[j] == rest@[j]@);
                        }
                        assert forall|j: int| 0 <= j < i implies (#[trigger] m[j]).len() != 1 by {
                            assert(m[j] == rest@[j]@);
                        }
                        lemma_first_unit(m, 0, i as int);
                    }
                },
                None => {
                    assert forall|j: int| 0 <= j < m.len() implies (#[trigger] m[j]).len() > 1 by {
                        assert(m[j] == rest@[j]@);
                    }
                },
            }
        }
        match short {
            Some(i) => {
                if rest[i].len() == 0 {
                    proof {
                        assert forall|a: Assignment| !#[trigger] matrix_true(a, m) by {
                            if matrix_true(a, m) {
                                assert(clause_true(a, m[i as int]));
                            }
                        }
                    }
                    return Some(false);
                }
            },
            None => {},
        }
        if *budget == 0 {
            return None;
        }
        *budget = *budget - 1;
        match short {
            Some(i) => {
                let lit = rest[i][0];
                let next = assign(&rest, lit);
                proof {
                    lemma_unit(m, matrix_of(next@), i as int);
                    assert(clause_mentions(m[i as int], lit.v()));
                    assert(mentions(m, lit.v()));
                    lemma_steps(weight(matrix_of(next@)), (weight(m) - 1) as nat);
                }
                rest = next;
            },
            None => {
                break;
            },
        }
    }
    // case split on the first literal of the first clause
    let lit = rest[0][0];
    let ghost m = matrix_of(rest@);
    let positive = assign(&rest, lit);
    let negative = assign(&rest, lit.negated());
    let ghost yes = matrix_of(positive@);
    let ghost no = matrix_of(negative@);
    proof {
        assert forall|j: int| 0 <= j < m.len() implies (#[trigger] m[j]).len() > 1 by {
            assert(m[j] == rest@[j]@);
        }
        assert(!has_length(m, 0) && !has_length(m, 1));
        assert(m[0][0] == lit);
        lemma_split(m, yes, no, lit);
        assert(clause_mentions(m[0], lit.v()));
        assert(mentions(m, lit.v()));
        lemma_steps(weight(yes), (weight(m) - 1) as nat);
        lemma_steps(weight(no), (weight(m) - 1) as nat);
    }
    match dpll(positive, budget) {
        None => None,
        Some(true) => Some(true),
        Some(false) => dpll(negative, budget),
    }
}

/// Fallback for clause sets too large for the budgeted DPLL.
pub fn solve_with_sat_solver(clauses: &Vec<Vec<Lit>>) -> (result: Option<bool>)
    ensures
        result matches Some(sat) ==> sat == satisfiable(matrix_of(clauses@)),
        clauses_ok(matrix_of(clauses@)) ==> result is Some,
{
    let ghost m = matrix_of(clauses@);
    let mut solver = SatSolver::new();
    load_clauses(&mut solver, clauses);
    assert(solver.clauses() =~= m);
    match solver.solve() {
        SatOutcome::Sat(model) => {
            proof {
                let a = crate::incdet::determinacy::model_assignment(model@);
                lemma_model_assignment(model@);
                assert(matrix_true(a, m));
            }
            Some(true)
        },
        SatOutcome::Unsat => {
            proof {
                assert forall|a: Assignment| !#[trigger] matrix_true(a, m) by {
                    assert(crate::semantics::cube_true(a, Seq::<Lit>::empty()));
                }
            }
            Some(false)
        },
        SatOutcome::OutOfRange => None,
    }
}

/// An assignment that makes the literals true.
pub open spec fn model_assignment(lits: Seq<Lit>) -> Assignment {
    |x: Var| exists|i: int| 0 <= i < lits.len() && (#[trigger] lits[i]).v() == x && lits[i].pos()
}

/// Literals that do not contradict each other hold together.
pub proof fn lemma_model_assignment(lits: Seq<Lit>)
    requires
        crate::sat::consistent(lits),
    ensures
        crate::semantics::cube_true(model_assignment(lits), lits),
{
    let a = model_assignment(lits);
    assert forall|i: int| 0 <= i < lits.len() implies lit_true(a, #[trigger] lits[i]) by {
        let x = lits[i].v();
        if a(x) {
            let j = choose|j: int| 0 <= j < lits.len() && (#[trigger] lits[j]).v() == x && lits[j].pos();
            assert(lits[i].v() == lits[j].v());
        }
    }
}

/// Whether the clauses can be satisfied: by DPLL within its budget, else
/// by the SAT solver; `None` if the latter cannot number a variable.
pub fn decide(clauses: &Vec<Vec<Lit>>) -> (result: Option<bool>)
    ensures
        result matches Some(sat) ==> sat == satisfiable(matrix_of(clauses@)),
        clauses_ok(matrix_of(clauses@)) ==> result is Some,
{
    let mut budget: u32 = DPLL_BUDGET;
    match dpll(copy_clauses(clauses), &mut budget) {
        Some(sat) => Some(sat),
        None => solve_with_sat_solver(clauses),
    }
}

} // verus!
