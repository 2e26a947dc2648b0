//! Simplification of a formula to a fixpoint with the standard sound
//! rules.
//!
//! * **Universal reduction**: a universal literal with no existential
//!   literal of a later block in its clause is dropped: the universal
//!   player moves last on it, so it can always falsify it.
//! * **Unit propagation**: after universal reduction every unit clause is
//!   existential and forces its literal.
//! * **Pure literals**: an existential occurring in one polarity only
//!   takes that polarity; a universal occurring in one polarity only takes
//!   the opposite one.
use crate::datastructure::{LitSet, VarMap, VarSet};
use crate::literal::{Lit, Var};
use crate::normal::{copy_clauses, copy_vars};
use crate::qcnf::{lemma_matrix_push, matrix_of, prefix_of, QCNF};
use crate::quantifier::QuantTy;
use crate::reduction::{
    bound_only_by, drops_unmentioned, lemma_drop_unmentioned, lemma_falsify, lemma_force_existential, lemma_force_universal,
    lemma_universal_reduction, losing,
};
use crate::sat::consistent;
use crate::semantics::{
    bound, bound_by, clause_mentions, clause_true, cube_true, lemma_closed_truth, lemma_has_model, lemma_mono, lit_true, matrix_true,
    mentions, prefix_distinct, qbf, reach, Assignment, Matrix, Prefix,
};
use vstd::prelude::*;

verus! {

broadcast use crate::literal::group_literal;

/// Every variable of the matrix is bound.
pub open spec fn closed_formula(p: Prefix, m: Matrix) -> bool {
    forall|x: Var| #[trigger] mentions(m, x) ==> bound(p, x)
}

/// The two clauses have the same literals.
pub open spec fn same_lits(c: Seq<Lit>, d: Seq<Lit>) -> bool {
    forall|l: Lit| #[trigger] c.contains(l) <==> d.contains(l)
}

/// The literals are ordered by DIMACS number, each once.
pub open spec fn sorted(c: Seq<Lit>) -> bool {
    forall|i: int, j: int| 0 <= i < j < c.len() ==> (#[trigger] c[i]).dimacs() < (#[trigger] c[j]).dimacs()
}

/// A clause with a subset of the literals implies the clause.
pub proof fn lemma_subclause(a: Assignment, d: Seq<Lit>, c: Seq<Lit>)
    requires
        forall|i: int| 0 <= i < d.len() ==> c.contains(#[trigger] d[i]),
        clause_true(a, d),
    ensures
        clause_true(a, c),
{
    let i = choose|i: int| 0 <= i < d.len() && lit_true(a, #[trigger] d[i]);
    assert(c.contains(d[i]));
    let j = choose|j: int| 0 <= j < c.len() && c[j] == d[i];
    assert(lit_true(a, c[j]));
}

/// A clause with a subset of the literals mentions a subset of the
/// variables.
pub proof fn lemma_submentions(d: Seq<Lit>, c: Seq<Lit>, x: Var)
    requires
        forall|i: int| 0 <= i < d.len() ==> c.contains(#[trigger] d[i]),
        clause_mentions(d, x),
    ensures
        clause_mentions(c, x),
{
    let i = choose|i: int| 0 <= i < d.len() && (#[trigger] d[i]).v() == x;
    assert(c.contains(d[i]));
    let j = choose|j: int| 0 <= j < c.len() && c[j] == d[i];
    assert(c[j].v() == x);
}

/// Whether the clause contains the literal.
pub(crate) fn contains_lit(clause: &Vec<Lit>, lit: Lit) -> (found: bool)
    ensures
        found == clause@.contains(lit),
{
    let mut k: usize = 0;
    while k < clause.len()
        invariant
            k <= clause@.len(),
            forall|i: int| 0 <= i < k ==> clause@[i] != lit,
        decreases clause.len() - k,
    {
        if clause[k] == lit {
            assert(clause@[k as int] == lit);
            return true;
        }
        k += 1;
    }
    false
}

/// The literals of the clause by increasing DIMACS number, each once.
pub(crate) fn sort_dedup(clause: &Vec<Lit>) -> (result: Vec<Lit>)
    ensures
        sorted(result@),
        same_lits(result@, clause@),
        result@.len() <= clause@.len(),
{
    let mut result: Vec<Lit> = Vec::new();
    let mut k: usize = 0;
    while k < clause.len()
        invariant
            k <= clause@.len(),
            sorted(result@),
            same_lits(result@, clause@.take(k as int)),
            result@.len() <= k,
        decreases clause.len() - k,
    {
        let lit = clause[k];
        let number = lit.to_dimacs();
        let mut at: usize = 0;
        while at < result.len() && result[at].to_dimacs() < number
            invariant
                at <= result@.len(),
                number == lit.dimacs(),
                forall|i: int| 0 <= i < at ==> (#[trigger] result@[i]).dimacs() < number,
            decreases result.len() - at,
        {
            at += 1;
        }
        let ghost before = result@;
        let ghost part = clause@.take(k as int);
        let ghost next = clause@.take(k as int + 1);
        proof {
            assert(next =~= part.push(lit));
            assert forall|l: Lit| #[trigger] next.contains(l) <==> part.contains(l) || l == lit by {
                crate::datastructure::lemma_push_contains(part, lit, l);
            }
        }
        if at < result.len() && result[at].to_dimacs() == number {
            proof {
                crate::literal::law_dimacs_is_injective(result@[at as int], lit);
                assert(result@.contains(lit));
                assert forall|l: Lit| #[trigger] result@.contains(l) <==> next.contains(l) by {}
            }
        } else {
            result.insert(at, lit);
            proof {
                let r = result@;
                assert forall|i: int, j: int| 0 <= i < j < r.len() implies (#[trigger] r[i]).dimacs() < (#[trigger] r[j]).dimacs() by {
                    let bi = if i < at { i } else { i - 1 };
                    let bj = if j < at { j } else { j - 1 };
                    if i < at {
                        assert(r[i] == before[i]);
                        if j > at {
                            assert(r[j] == before[j - 1]);
                        } else if j < at {
                            assert(r[j] == before[j]);
                        }
                    } else if i == at {
                        assert(r[j] == before[j - 1]);
                        if j - 1 > at {
                            assert(before[at as int].dimacs() < before[j - 1].dimacs());
                        }
                    } else {
                        assert(r[i] == before[i - 1]);
                        assert(r[j] == before[j - 1]);
                    }
                }
                assert forall|l: Lit| #[trigger] r.contains(l) <==> next.contains(l) by {
                    if before.contains(l) {
                        let i = choose|i: int| 0 <= i < before.len() && before[i] == l;
                        assert(r[if i < at { i } else { i + 1 }] == l);
                    }
                    if r.contains(l) {
                        let i = choose|i: int| 0 <= i < r.len() && r[i] == l;
                        if i != at {
                            assert(before[if i < at { i } else { i - 1 }] == l);
                        }
                    }
                    assert(r[at as int] == lit);
                    assert(part.contains(l) <==> before.contains(l));
                }
            }
        }
        k += 1;
    }
    assert(clause@.take(clause@.len() as int) =~= clause@);
    result
}

/// The block of every bound variable.
pub(crate) fn block_table(prefix: &Vec<(QuantTy, Vec<Var>)>) -> (table: VarMap<(usize, QuantTy)>)
    ensures
        forall|x: Var| #[trigger] table@.contains_key(x) <==> bound(prefix_of(prefix@), x),
        forall|x: Var| #[trigger]
            table@.contains_key(x) ==> table@[x].0 < prefix@.len() && prefix@[table@[x].0 as int].1@.contains(x)
                && table@[x].1 == prefix@[table@[x].0 as int].0,
{
    let ghost p = prefix_of(prefix@);
    let mut table: VarMap<(usize, QuantTy)> = VarMap::new();
    let mut i: usize = 0;
    while i < prefix.len()
        invariant
            i <= prefix@.len(),
            p == prefix_of(prefix@),
            forall|k: int, x: Var| 0 <= k < i && #[trigger] p[k].1.contains(x) ==> table@.contains_key(x),
            forall|x: Var| #[trigger]
                table@.contains_key(x) ==> table@[x].0 < prefix@.len() && prefix@[table@[x].0 as int].1@.contains(x)
                    && table@[x].1 == prefix@[table@[x].0 as int].0,
        decreases prefix.len() - i,
    {
        let mut j: usize = 0;
        while j < prefix[i].1.len()
            invariant
                i < prefix@.len(),
                j <= prefix@[i as int].1@.len(),
                p == prefix_of(prefix@),
                forall|k: int, x: Var| 0 <= k < i && #[trigger] p[k].1.contains(x) ==> table@.contains_key(x),
                forall|k: int| 0 <= k < j ==> table@.contains_key(#[trigger] prefix@[i as int].1@[k]),
                forall|x: Var| #[trigger]
                    table@.contains_key(x) ==> table@[x].0 < prefix@.len() && prefix@[table@[x].0 as int].1@.contains(x)
                        && table@[x].1 == prefix@[table@[x].0 as int].0,
            decreases prefix@[i as int].1@.len() - j,
        {
            let var = prefix[i].1[j];
            assert(prefix@[i as int].1@.contains(prefix@[i as int].1@[j as int]));
            table.insert(var, (i, prefix[i].0));
            j += 1;
        }
        proof {
            assert forall|k: int, x: Var| 0 <= k < i + 1 && #[trigger] p[k].1.contains(x) implies table@.contains_key(x) by {
                if k == i {
                    let n = choose|n: int| 0 <= n < p[k].1.len() && p[k].1[n] == x;
                    assert(table@.contains_key(prefix@[i as int].1@[n]));
                }
            }
        }
        i += 1;
    }
    proof {
        assert forall|x: Var| #[trigger] table@.contains_key(x) <==> bound(p, x) by {
            if table@.contains_key(x) {
                assert(p[table@[x].0 as int].1.contains(x));
            }
            if bound(p, x) {
                let k = choose|k: int| 0 <= k < p.len() && (#[trigger] p[k]).1.contains(x);
                assert(table@.contains_key(x));
            }
        }
    }
    table
}

/// What the clause rules make of a clause.
enum Reduced {
    /// The clause holds under every assignment.
    Tautology,
    /// The clause has no existential literal.
    Universal,
    /// The literals that stay.
    Clause(Vec<Lit>),
}

/// The table names the block of each variable.
spec fn table_ok(table: Map<Var, (usize, QuantTy)>, p: Prefix) -> bool {
    &&& forall|x: Var| #[trigger] table.contains_key(x) <==> bound(p, x)
    &&& forall|x: Var| #[trigger]
        table.contains_key(x) ==> table[x].0 < p.len() && p[table[x].0 as int].1.contains(x) && table[x].1
            == p[table[x].0 as int].0
}

/// A variable of a distinct prefix is bound in the block that the table
/// names, and nowhere else.
proof fn lemma_table(table: Map<Var, (usize, QuantTy)>, p: Prefix, x: Var)
    requires
        table_ok(table, p),
        prefix_distinct(p),
        table.contains_key(x),
    ensures
        forall|k: int| 0 <= k < p.len() && (#[trigger] p[k]).1.contains(x) ==> k == table[x].0,
        bound_only_by(p, table[x].1, x),
        bound_by(p, table[x].1, x),
        forall|split: int| 0 <= split <= p.len() ==> (#[trigger] bound(p.skip(split), x) <==> split <= table[x].0),
        forall|split: int| 0 <= split <= p.len() ==> #[trigger] bound_only_by(p.skip(split), table[x].1, x),
{
    let b = table[x].0 as int;
    assert(p[b].1.contains(x));
    assert forall|k: int| 0 <= k < p.len() && (#[trigger] p[k]).1.contains(x) implies k == b by {
        if k < b {
            assert(!p[b].1.contains(x));
        } else if b < k {
            assert(!p[k].1.contains(x));
        }
    }
    assert forall|split: int| 0 <= split <= p.len() implies (#[trigger] bound(p.skip(split), x) <==> split <= b) by {
        let s = p.skip(split);
        if bound(s, x) {
            let k = choose|k: int| 0 <= k < s.len() && (#[trigger] s[k]).1.contains(x);
            assert(p[k + split] == s[k]);
            assert(p[k + split].1.contains(x));
        }
        if split <= b {
            assert(s[b - split] == p[b]);
        }
    }
    assert forall|split: int| 0 <= split <= p.len() implies #[trigger] bound_only_by(p.skip(split), table[x].1, x) by {
        let s = p.skip(split);
        assert forall|k: int| 0 <= k < s.len() && (#[trigger] s[k]).1.contains(x) implies s[k].0 == table[x].1 by {
            assert(p[k + split] == s[k]);
            assert(p[k + split].1.contains(x));
        }
    }
}

/// The reduced clause is a part of the clause with an existential literal
/// and may be added to any matrix that contains the clause.
spec fn clause_reduces(p: Prefix, c: Seq<Lit>, d: Seq<Lit>) -> bool {
    &&& forall|i: int| 0 <= i < d.len() ==> c.contains(#[trigger] d[i])
    &&& has_existential(p, d)
    &&& ends_existentially(p, d)
    &&& forall|m: Matrix, a: Assignment| #[trigger] qbf(p, m, a) && m.contains(c) ==> qbf(p, m.push(d), a)
}

/// Applies the clause rules: removes duplicates, recognizes tautologies,
/// and drops the universal literals behind the innermost existential one.
fn reduce_clause(clause: &Vec<Lit>, table: &VarMap<(usize, QuantTy)>, Ghost(p): Ghost<Prefix>) -> (result: Reduced)
    requires
        table_ok(table@, p),
        prefix_distinct(p),
        forall|i: int| 0 <= i < clause@.len() ==> bound(p, (#[trigger] clause@[i]).v()),
    ensures
        match result {
            Reduced::Tautology => forall|a: Assignment| #[trigger] clause_true(a, clause@),
            Reduced::Universal => consistent(clause@) && forall|i: int|
                0 <= i < clause@.len() ==> bound_only_by(p, QuantTy::Forall, (#[trigger] clause@[i]).v()),
            Reduced::Clause(lits) => clause_reduces(p, clause@, lits@) && sorted(lits@) && consistent(lits@) && lits@.len() <= clause@.len(),
        },
{
    let sorted = sort_dedup(clause);
    let mut k: usize = 0;
    while k < sorted.len()
        invariant
            k <= sorted@.len(),
            same_lits(sorted@, clause@),
            forall|i: int| 0 <= i < k ==> !sorted@.contains((#[trigger] sorted@[i]).neg()),
        decreases sorted.len() - k,
    {
        let opposite = sorted[k].negated();
        if contains_lit(&sorted, opposite) {
            proof {
                let l = sorted@[k as int];
                assert(sorted@.contains(l));
                assert forall|a: Assignment| #[trigger] clause_true(a, clause@) by {
                    assert(clause@.contains(l) && clause@.contains(opposite));
                    let i = choose|i: int| 0 <= i < clause@.len() && clause@[i] == l;
                    let j = choose|j: int| 0 <= j < clause@.len() && clause@[j] == opposite;
                    assert(lit_true(a, clause@[i]) || lit_true(a, clause@[j]));
                }
            }
            return Reduced::Tautology;
        }
        k += 1;
    }
    proof {
        assert forall|i: int, j: int|
            0 <= i < clause@.len() && 0 <= j < clause@.len() && #[trigger] clause@[i].v() == #[trigger] clause@[j].v()
            implies clause@[i].pos() == clause@[j].pos() by {
            if clause@[i].pos() != clause@[j].pos() {
                crate::literal::lemma_lit_ext(clause@[i].neg(), clause@[j]);
                assert(clause@.contains(clause@[i]) && clause@.contains(clause@[j]));
                assert(sorted@.contains(clause@[i]) && sorted@.contains(clause@[j]));
                let n = choose|n: int| 0 <= n < sorted@.len() && sorted@[n] == clause@[i];
                assert(!sorted@.contains(sorted@[n].neg()));
            }
        }
    }
    // the innermost block of an existential literal
    let mut innermost: Option<usize> = None;
    let mut k: usize = 0;
    while k < sorted.len()
        invariant
            k <= sorted@.len(),
            same_lits(sorted@, clause@),
            table_ok(table@, p),
            forall|i: int| 0 <= i < clause@.len() ==> bound(p, (#[trigger] clause@[i]).v()),
            innermost is None ==> forall|i: int| 0 <= i < k ==> table@[(#[trigger] sorted@[i]).v()].1 == QuantTy::Forall,
            innermost is Some ==> innermost->0 < p.len() && p[innermost->0 as int].0 == QuantTy::Exists,
            innermost is Some ==> forall|i: int|
                0 <= i < k && table@[(#[trigger] sorted@[i]).v()].1 == QuantTy::Exists ==> table@[sorted@[i].v()].0
                    <= innermost->0,
            innermost is Some ==> exists|i: int|
                0 <= i < k && table@[(#[trigger] sorted@[i]).v()] == (innermost->0, QuantTy::Exists),
        decreases sorted.len() - k,
    {
        let lit = sorted[k];
        proof {
            assert(sorted@.contains(lit));
            let i = choose|i: int| 0 <= i < clause@.len() && clause@[i] == lit;
            assert(bound(p, clause@[i].v()));
            assert(table@.contains_key(lit.v()));
        }
        if let Some((block, quant)) = table.get(lit.var()) {
            if quant == QuantTy::Exists {
                match innermost {
                    Some(known) => {
                        if block > known {
                            innermost = Some(block);
                        }
                    },
                    None => {
                        innermost = Some(block);
                    },
                }
            }
        }
        k += 1;
    }
    proof {
        assert forall|l: Lit| #[trigger] clause@.contains(l) implies table@.contains_key(l.v()) by {
            let i = choose|i: int| 0 <= i < clause@.len() && clause@[i] == l;
            assert(bound(p, clause@[i].v()));
        }
    }
    let limit = match innermost {
        Some(limit) => limit,
        None => {
            proof {
                assert forall|i: int| 0 <= i < clause@.len() implies bound_only_by(
                    p,
                    QuantTy::Forall,
                    (#[trigger] clause@[i]).v(),
                ) by {
                    assert(clause@.contains(clause@[i]));
                    assert(sorted@.contains(clause@[i]));
                    let n = choose|n: int| 0 <= n < sorted@.len() && sorted@[n] == clause@[i];
                    lemma_table(table@, p, sorted@[n].v());
                }
            }
            return Reduced::Universal;
        },
    };
    proof {
        assert forall|i: int| 0 <= i < sorted@.len() implies table@.contains_key((#[trigger] sorted@[i]).v()) by {
            assert(sorted@.contains(sorted@[i]));
        }
    }
    let mut lits: Vec<Lit> = Vec::new();
    let mut k: usize = 0;
    while k < sorted.len()
        invariant
            k <= sorted@.len(),
            table_ok(table@, p),
            crate::simplify::sorted(sorted@),
            crate::simplify::sorted(lits@),
            lits@.len() <= k,
            forall|i: int| 0 <= i < lits@.len() && k < sorted@.len() ==> (#[trigger] lits@[i]).dimacs() < sorted@[k as int].dimacs(),
            forall|i: int| 0 <= i < sorted@.len() ==> table@.contains_key((#[trigger] sorted@[i]).v()),
            forall|i: int| 0 <= i < lits@.len() ==> sorted@.contains(#[trigger] lits@[i]),
            forall|i: int| 0 <= i < lits@.len() ==> table@[(#[trigger] lits@[i]).v()].1 == QuantTy::Exists || table@[lits@[i].v()].0
                < limit,
            forall|i: int|
                0 <= i < k ==> lits@.contains(#[trigger] sorted@[i]) || (table@[sorted@[i].v()].1 == QuantTy::Forall
                    && table@[sorted@[i].v()].0 >= limit),
        decreases sorted.len() - k,
    {
        let lit = sorted[k];
        let ghost before = lits@;
        assert(table@.contains_key(sorted@[k as int].v()));
        assert(k + 1 < sorted@.len() ==> sorted@[k as int].dimacs() < sorted@[k + 1].dimacs());
        let keep = match table.get(lit.var()) {
            Some((block, quant)) => quant == QuantTy::Exists || block < limit,
            None => true,
        };
        if keep {
            lits.push(lit);
            assert(sorted@.contains(sorted@[k as int]));
        }
        proof {
            assert forall|i: int| 0 <= i < k + 1 implies lits@.contains(#[trigger] sorted@[i]) || (table@[sorted@[i].v()].1
                == QuantTy::Forall && table@[sorted@[i].v()].0 >= limit) by {
                if i < k {
                    if before.contains(sorted@[i]) {
                        let n = choose|n: int| 0 <= n < before.len() && before[n] == sorted@[i];
                        assert(lits@[n] == sorted@[i]);
                    }
                } else if keep {
                    assert(lits@[before.len() as int] == sorted@[i]);
                }
            }
        }
        k += 1;
    }
    proof {
        let d = lits@;
        let c = clause@;
        let split = limit + 1;
        assert forall|i: int| 0 <= i < d.len() implies c.contains(#[trigger] d[i]) by {
            assert(sorted@.contains(d[i]));
        }
        let w = choose|i: int| 0 <= i < sorted@.len() && table@[(#[trigger] sorted@[i]).v()] == (limit, QuantTy::Exists);
        assert(d.contains(sorted@[w]));
        let e = choose|e: int| 0 <= e < d.len() && d[e] == sorted@[w];
        lemma_table(table@, p, d[e].v());
        assert(bound_only_by(p, QuantTy::Exists, d[e].v()));
        assert forall|m: Matrix, a: Assignment| #[trigger] qbf(p, m, a) && m.contains(c) implies qbf(p, m.push(d), a) by {
            assert forall|i: int| 0 <= i < c.len() implies d.contains(#[trigger] c[i]) || bound(p.skip(split), c[i].v())
                && bound_only_by(p.skip(split), QuantTy::Forall, c[i].v()) by {
                assert(c.contains(c[i]));
                assert(sorted@.contains(c[i]));
                let n = choose|n: int| 0 <= n < sorted@.len() && sorted@[n] == c[i];
                lemma_table(table@, p, c[i].v());
                if !d.contains(c[i]) {
                    let x = c[i].v();
                    assert(p[table@[x].0 as int].0 == QuantTy::Forall);
                    assert(table@[x].0 != limit);
                    assert(bound(p.skip(split), x));
                }
            }
            assert forall|x: Var| #[trigger] clause_mentions(d, x) implies !bound(p.skip(split), x) by {
                let i = choose|i: int| 0 <= i < d.len() && (#[trigger] d[i]).v() == x;
                assert(c.contains(d[i]));
                assert(sorted@.contains(d[i]));
                let n = choose|n: int| 0 <= n < sorted@.len() && sorted@[n] == d[i];
                lemma_table(table@, p, x);
                if table@[x].1 == QuantTy::Exists {
                    assert(table@[sorted@[n].v()].0 <= limit);
                }
            }
            lemma_universal_reduction(p, split as int, m, c, d, a);
        }
        assert(has_existential(p, d));
        assert(ends_existentially(p, d)) by {
            let y = d[e].v();
            assert forall|i: int, g: int, h: int|
                #![trigger d[i], p[g], p[h]]
                0 <= i < d.len() && 0 <= g < p.len() && 0 <= h < p.len() && p[g].1.contains(d[i].v()) && p[h].1.contains(y)
                implies g <= h by {
                assert(c.contains(d[i]));
                assert(sorted@.contains(d[i]));
                let n = choose|n: int| 0 <= n < sorted@.len() && sorted@[n] == d[i];
                assert(table@.contains_key(sorted@[n].v()));
                lemma_table(table@, p, d[i].v());
                assert(g == table@[d[i].v()].0);
                assert(h == table@[y].0);
                if table@[d[i].v()].1 == QuantTy::Exists {
                    assert(table@[sorted@[n].v()].0 <= limit);
                }
            }
        }
        assert(clause_reduces(p, c, d));
        assert forall|i: int, j: int| 0 <= i < d.len() && 0 <= j < d.len() && #[trigger] d[i].v() == #[trigger] d[j].v() implies d[i].pos()
            == d[j].pos() by {
            assert(c.contains(d[i]) && c.contains(d[j]));
            let a = choose|a: int| 0 <= a < c.len() && c[a] == d[i];
            let b = choose|b: int| 0 <= b < c.len() && c[b] == d[j];
            assert(c[a].v() == c[b].v());
        }
    }
    Reduced::Clause(lits)
}

/// No literal of the clause is bound behind all its existential literals.
pub open spec fn ends_existentially(p: Prefix, c: Seq<Lit>) -> bool {
    exists|j: int| #![trigger c[j]]
        0 <= j < c.len() && bound_only_by(p, QuantTy::Exists, c[j].v()) && forall|i: int, g: int, h: int|
            #![trigger c[i], p[g], p[h]]
            0 <= i < c.len() && 0 <= g < p.len() && 0 <= h < p.len() && p[g].1.contains(c[i].v()) && p[h].1.contains(
                c[j].v(),
            ) ==> g <= h
}

/// No rule applies to the clause: it has no literal twice, no literal with
/// its negation, and no literal behind its existential ones.
pub open spec fn tidy_clause(p: Prefix, c: Seq<Lit>) -> bool {
    sorted(c) && consistent(c) && ends_existentially(p, c)
}

/// No rule applies: every clause is tidy and no unit, and every literal
/// that occurs does so in both polarities.
#[verifier::opaque]
pub open spec fn settled(p: Prefix, m: Matrix) -> bool {
    &&& forall|i: int| 0 <= i < m.len() ==> tidy_clause(p, #[trigger] m[i]) && m[i].len() >= 2
    &&& forall|l: Lit| #[trigger] occurs(m, l) ==> occurs(m, l.neg())
}

/// The clause is a part of a clause of the matrix.
pub open spec fn part_of(m: Matrix, d: Seq<Lit>) -> bool {
    exists|i: int| 0 <= i < m.len() && covers(#[trigger] m[i], d)
}

/// The first clause has every literal of the second.
pub open spec fn covers(c: Seq<Lit>, d: Seq<Lit>) -> bool {
    forall|j: int| 0 <= j < d.len() ==> c.contains(#[trigger] d[j])
}

/// Every clause is a part of a clause of the first matrix.
pub open spec fn parts_of(m: Matrix, n: Matrix) -> bool {
    forall|j: int| 0 <= j < n.len() ==> part_of(m, #[trigger] n[j])
}

/// The prefix has the blocks of another with no other variables.
pub open spec fn sub_blocks(p: Prefix, r: Prefix) -> bool {
    &&& r.len() == p.len()
    &&& forall|i: int| 0 <= i < p.len() ==> (#[trigger] r[i]).0 == p[i].0
    &&& forall|i: int, x: Var| 0 <= i < p.len() && #[trigger] r[i].1.contains(x) ==> p[i].1.contains(x)
}

proof fn lemma_settled(p: Prefix, m: Matrix, table: Map<Var, (usize, QuantTy)>, existential: Seq<Lit>, universal: Seq<Lit>)
    requires
        forall|i: int| 0 <= i < m.len() ==> tidy_clause(p, #[trigger] m[i]) && m[i].len() >= 2,
        pure_listed(table, m, existential, universal),
        existential.len() == 0,
        universal.len() == 0,
    ensures
        settled(p, m),
{
    reveal(settled);
    reveal(pure_listed);
    assert forall|l: Lit| #[trigger] occurs(m, l) implies occurs(m, l.neg()) by {
        if !occurs(m, l.neg()) {
            assert(placed(table, existential, universal, l));
        }
    }
}

proof fn lemma_parts_trans(m: Matrix, n: Matrix, o: Matrix)
    requires
        parts_of(m, n),
        parts_of(n, o),
    ensures
        parts_of(m, o),
{
    assert forall|j: int| 0 <= j < o.len() implies part_of(m, #[trigger] o[j]) by {
        assert(part_of(n, o[j]));
        let i = choose|i: int| 0 <= i < n.len() && covers(#[trigger] n[i], o[j]);
        assert(part_of(m, n[i]));
        let h = choose|h: int| 0 <= h < m.len() && covers(#[trigger] m[h], n[i]);
        assert forall|k: int| 0 <= k < o[j].len() implies m[h].contains(#[trigger] o[j][k]) by {
            assert(n[i].contains(o[j][k]));
            let g = choose|g: int| 0 <= g < n[i].len() && n[i][g] == o[j][k];
            assert(m[h].contains(n[i][g]));
        }
        assert(covers(m[h], o[j]));
    }
}

/// Fewer variables in the blocks leave a clause as tidy as it is.
proof fn lemma_tidy_blocks(p: Prefix, r: Prefix, c: Seq<Lit>)
    requires
        tidy_clause(p, c),
        sub_blocks(p, r),
    ensures
        tidy_clause(r, c),
{
    let j = choose|j: int| #![trigger c[j]]
        0 <= j < c.len() && bound_only_by(p, QuantTy::Exists, c[j].v()) && forall|i: int, g: int, h: int|
            #![trigger c[i], p[g], p[h]]
            0 <= i < c.len() && 0 <= g < p.len() && 0 <= h < p.len() && p[g].1.contains(c[i].v()) && p[h].1.contains(
                c[j].v(),
            ) ==> g <= h;
    assert(bound_only_by(r, QuantTy::Exists, c[j].v())) by {
        assert forall|k: int| 0 <= k < r.len() && (#[trigger] r[k]).1.contains(c[j].v()) implies r[k].0 == QuantTy::Exists by {
            assert(p[k].1.contains(c[j].v()));
            assert(p[k].0 == QuantTy::Exists);
        }
    }
    assert forall|i: int, g: int, h: int|
        #![trigger c[i], r[g], r[h]]
        0 <= i < c.len() && 0 <= g < r.len() && 0 <= h < r.len() && r[g].1.contains(c[i].v()) && r[h].1.contains(c[j].v()) implies g <= h by {
        assert(p[g].1.contains(c[i].v()) && p[h].1.contains(c[j].v()));
    }
}

/// Every clause of the matrix has an existential literal.
pub(crate) open spec fn each_existential(p: Prefix, m: Matrix) -> bool {
    forall|i: int| 0 <= i < m.len() ==> has_existential(p, #[trigger] m[i])
}

/// Some literal of the clause is existential.
pub(crate) open spec fn has_existential(p: Prefix, c: Seq<Lit>) -> bool {
    exists|j: int| 0 <= j < c.len() && bound_only_by(p, QuantTy::Exists, (#[trigger] c[j]).v())
}

/// Applies the clause rules to every clause; `None` when a clause has no
/// existential literal, which refutes the formula.
pub(crate) fn reduce_matrix(prefix: &Vec<(QuantTy, Vec<Var>)>, matrix: &Vec<Vec<Lit>>) -> (result: Option<Vec<Vec<Lit>>>)
    requires
        prefix_distinct(prefix_of(prefix@)),
        closed_formula(prefix_of(prefix@), matrix_of(matrix@)),
    ensures
        match result {
            None => forall|a: Assignment| !#[trigger] qbf(prefix_of(prefix@), matrix_of(matrix@), a),
            Some(reduced) => {
                &&& forall|a: Assignment| #[trigger]
                    qbf(prefix_of(prefix@), matrix_of(matrix@), a) == qbf(prefix_of(prefix@), matrix_of(reduced@), a)
                &&& forall|a: Assignment| #[trigger]
                    matrix_true(a, matrix_of(reduced@)) ==> matrix_true(a, matrix_of(matrix@))
                &&& forall|x: Var| #[trigger] mentions(matrix_of(reduced@), x) ==> mentions(matrix_of(matrix@), x)
                &&& each_existential(prefix_of(prefix@), matrix_of(reduced@))
                &&& forall|i: int| 0 <= i < reduced@.len() ==> ends_existentially(prefix_of(prefix@), (#[trigger] reduced@[i])@)
                &&& forall|i: int| 0 <= i < reduced@.len() ==> tidy_clause(prefix_of(prefix@), #[trigger] matrix_of(reduced@)[i])
                &&& parts_of(matrix_of(matrix@), matrix_of(reduced@))
                &&& size_of(matrix_of(reduced@)) <= size_of(matrix_of(matrix@))
            },
        },
{
    let ghost p = prefix_of(prefix@);
    let ghost m = matrix_of(matrix@);
    let table = block_table(prefix);
    let mut reduced: Vec<Vec<Lit>> = Vec::new();
    assert(m + matrix_of(reduced@) =~= m);
    let mut k: usize = 0;
    while k < matrix.len()
        invariant
            k <= matrix@.len(),
            p == prefix_of(prefix@),
            m == matrix_of(matrix@),
            prefix_distinct(p),
            closed_formula(p, m),
            table_ok(table@, p),
            forall|a: Assignment| #[trigger] qbf(p, m, a) ==> qbf(p, m + matrix_of(reduced@), a),
            forall|a: Assignment| #[trigger] matrix_true(a, matrix_of(reduced@)) ==> matrix_true(a, m.take(k as int)),
            forall|x: Var| #[trigger] mentions(matrix_of(reduced@), x) ==> mentions(m, x),
            each_existential(p, matrix_of(reduced@)),
            forall|i: int| 0 <= i < reduced@.len() ==> ends_existentially(p, (#[trigger] reduced@[i])@),
            forall|i: int| 0 <= i < reduced@.len() ==> tidy_clause(p, #[trigger] matrix_of(reduced@)[i]),
            parts_of(m, matrix_of(reduced@)),
            size_of(matrix_of(reduced@)) <= size_of(m.take(k as int)),
        decreases matrix.len() - k,
    {
        let ghost c = m[k as int];
        let ghost red = matrix_of(reduced@);
        proof {
            assert(m.take(k as int + 1) =~= m.take(k as int).push(c));
            lemma_size_push(m.take(k as int), c);
            assert forall|i: int| 0 <= i < c.len() implies bound(p, (#[trigger] c[i]).v()) by {
                assert(clause_mentions(c, c[i].v()));
                assert(mentions(m, c[i].v()));
            }
        }
        match reduce_clause(&matrix[k], &table, Ghost(p)) {
            Reduced::Tautology => {
                proof {
                    assert forall|a: Assignment| #[trigger] matrix_true(a, red) implies matrix_true(a, m.take(k as int + 1)) by {
                        lemma_push_true(a, m.take(k as int), c);
                    }
                }
            },
            Reduced::Universal => {
                proof {
                    assert forall|a: Assignment| !#[trigger] qbf(p, m, a) by {
                        assert(m.contains(c));
                        assert forall|i: int| 0 <= i < c.len() implies losing(p, a, #[trigger] c[i]) by {
                            assert(bound(p, c[i].v()));
                        }
                        lemma_falsify(p, m, c, a);
                    }
                }
                return None;
            },
            Reduced::Clause(lits) => {
                let ghost d = lits@;
                reduced.push(lits);
                proof {
                    let next = matrix_of(reduced@);
                    assert(next =~= red.push(d));
                    lemma_size_push(red, d);
                    assert(covers(m[k as int], d));
                    assert forall|i: int| 0 <= i < next.len() implies part_of(m, #[trigger] next[i]) && tidy_clause(p, next[i]) by {
                        if i < red.len() {
                            assert(next[i] == red[i]);
                        }
                    }
                    assert(m + next =~= (m + red).push(d));
                    assert forall|a: Assignment| #[trigger] qbf(p, m, a) implies qbf(p, m + next, a) by {
                        assert((m + red)[k as int] == c);
                        assert((m + red).contains(c));
                        assert(qbf(p, m + red, a));
                    }
                    assert forall|a: Assignment| #[trigger] matrix_true(a, next) implies matrix_true(a, m.take(k as int + 1)) by {
                        lemma_push_true(a, red, d);
                        lemma_subclause(a, d, c);
                        lemma_push_true(a, m.take(k as int), c);
                    }
                    assert forall|x: Var| #[trigger] mentions(next, x) implies mentions(m, x) by {
                        lemma_matrix_push(red, d, x);
                        if clause_mentions(d, x) {
                            lemma_submentions(d, c, x);
                        }
                    }
                    assert forall|i: int| 0 <= i < next.len() implies has_existential(p, #[trigger] next[i]) by {
                        if i < red.len() {
                            assert(next[i] == red[i]);
                        }
                    }
                }
            },
        }
        k += 1;
    }
    proof {
        let red = matrix_of(reduced@);
        assert(m.take(m.len() as int) =~= m);
        assert forall|a: Assignment| #[trigger] qbf(p, m, a) == qbf(p, red, a) by {
            if qbf(p, m, a) {
                assert(qbf(p, m + red, a));
                assert forall|b: Assignment| #[trigger] reach(p, a, b) && matrix_true(b, m + red) implies matrix_true(b, red) by {
                    assert forall|i: int| 0 <= i < red.len() implies clause_true(b, #[trigger] red[i]) by {
                        assert((m + red)[m.len() + i] == red[i]);
                    }
                }
                lemma_mono(p, m + red, red, a);
            }
            if qbf(p, red, a) {
                lemma_mono(p, red, m, a);
            }
        }
    }
    Some(reduced)
}

/// A matrix with one more clause holds if both hold.
pub proof fn lemma_push_true(a: Assignment, m: Matrix, c: Seq<Lit>)
    ensures
        matrix_true(a, m.push(c)) == (matrix_true(a, m) && clause_true(a, c)),
{
    let n = m.push(c);
    assert(n[m.len() as int] == c);
    if matrix_true(a, n) {
        assert forall|i: int| 0 <= i < m.len() implies clause_true(a, #[trigger] m[i]) by {
            assert(n[i] == m[i]);
        }
    }
    if matrix_true(a, m) && clause_true(a, c) {
        assert forall|i: int| 0 <= i < n.len() implies clause_true(a, #[trigger] n[i]) by {
            if i < m.len() {
                assert(n[i] == m[i]);
            }
        }
    }
}

/// The literal occurs in the matrix.
pub open spec fn occurs(m: Matrix, l: Lit) -> bool {
    exists|i: int| 0 <= i < m.len() && (#[trigger] m[i]).contains(l)
}

/// The literals that a round forces, by quantifier.
struct Forced {
    existential: Vec<Lit>,
    universal: Vec<Lit>,
}

/// The literal occurs, and it is a unit clause or its negation does not
/// occur.
spec fn forces_existential(p: Prefix, m: Matrix, l: Lit) -> bool {
    &&& occurs(m, l)
    &&& bound_only_by(p, QuantTy::Exists, l.v())
    &&& m.contains(seq![l]) || !occurs(m, l.neg())
}

/// The negation occurs, the literal does not.
spec fn forces_universal(p: Prefix, m: Matrix, l: Lit) -> bool {
    &&& occurs(m, l.neg())
    &&& bound_only_by(p, QuantTy::Forall, l.v())
    &&& !occurs(m, l)
}

impl Forced {
    spec fn wf(self, p: Prefix, m: Matrix) -> bool {
        &&& forall|i: int| 0 <= i < self.existential@.len() ==> forces_existential(p, m, #[trigger] self.existential@[i])
        &&& forall|i: int| 0 <= i < self.universal@.len() ==> forces_universal(p, m, #[trigger] self.universal@[i])
    }

    spec fn contains(self, l: Lit) -> bool {
        self.existential@.contains(l) || self.universal@.contains(l)
    }
}

/// Every literal that occurs.
fn occurring_lits(matrix: &Vec<Vec<Lit>>) -> (seen: LitSet)
    ensures
        forall|l: Lit| #[trigger] seen@.contains(l) <==> occurs(matrix_of(matrix@), l),
{
    let ghost m = matrix_of(matrix@);
    let mut seen = LitSet::new();
    let mut i: usize = 0;
    while i < matrix.len()
        invariant
            i <= matrix@.len(),
            m == matrix_of(matrix@),
            forall|l: Lit| #[trigger] seen@.contains(l) ==> occurs(m, l),
            forall|k: int, l: Lit| 0 <= k < i && #[trigger] m[k].contains(l) ==> seen@.contains(l),
        decreases matrix.len() - i,
    {
        let mut j: usize = 0;
        while j < matrix[i].len()
            invariant
                i < matrix@.len(),
                j <= matrix@[i as int]@.len(),
                m == matrix_of(matrix@),
                forall|l: Lit| #[trigger] seen@.contains(l) ==> occurs(m, l),
                forall|k: int, l: Lit| 0 <= k < i && #[trigger] m[k].contains(l) ==> seen@.contains(l),
                forall|k: int| 0 <= k < j ==> seen@.contains(#[trigger] matrix@[i as int]@[k]),
            decreases matrix@[i as int]@.len() - j,
        {
            let lit = matrix[i][j];
            proof {
                assert(m[i as int].contains(m[i as int][j as int]));
                assert(occurs(m, lit));
            }
            seen.insert(lit);
            j += 1;
        }
        proof {
            assert forall|k: int, l: Lit| 0 <= k < i + 1 && #[trigger] m[k].contains(l) implies seen@.contains(l) by {
                if k == i {
                    let n = choose|n: int| 0 <= n < m[k].len() && m[k][n] == l;
                    assert(seen@.contains(matrix@[i as int]@[n]));
                }
            }
        }
        i += 1;
    }
    seen
}

/// The unit literals, each once; `None` when two contradict each other.
fn unit_literals(matrix: &Vec<Vec<Lit>>, Ghost(p): Ghost<Prefix>) -> (result: Option<Vec<Lit>>)
    requires
        each_existential(p, matrix_of(matrix@)),
    ensures
        match result {
            None => exists|l: Lit| #[trigger] matrix_of(matrix@).contains(seq![l]) && matrix_of(matrix@).contains(seq![l.neg()]),
            Some(units) => {
                &&& consistent(units@)
                &&& forall|i: int| 0 <= i < units@.len() ==> forces_existential(p, matrix_of(matrix@), #[trigger] units@[i])
                &&& forall|i: int| 0 <= i < matrix@.len() && (#[trigger] matrix_of(matrix@)[i]).len() == 1 ==> units@.contains(
                    matrix_of(matrix@)[i][0],
                )
            },
        },
{
    let ghost m = matrix_of(matrix@);
    let mut set = LitSet::new();
    let mut units: Vec<Lit> = Vec::new();
    let mut i: usize = 0;
    while i < matrix.len()
        invariant
            i <= matrix@.len(),
            m == matrix_of(matrix@),
            each_existential(p, m),
            consistent(units@),
            forall|l: Lit| #[trigger] set@.contains(l) <==> units@.contains(l),
            forall|k: int| 0 <= k < units@.len() ==> m.contains(seq![#[trigger] units@[k]]),
            forall|k: int| 0 <= k < units@.len() ==> forces_existential(p, m, #[trigger] units@[k]),
            forall|k: int| 0 <= k < i && (#[trigger] m[k]).len() == 1 ==> units@.contains(m[k][0]),
        decreases matrix.len() - i,
    {
        assert(m[i as int] == matrix@[i as int]@);
        if matrix[i].len() == 1 {
            let lit = matrix[i][0];
            let opposite = lit.negated();
            proof {
                assert(m[i as int] =~= seq![lit]);
                assert(m.contains(seq![lit]));
                assert(has_existential(p, m[i as int]));
                assert(m[i as int][0] == lit);
                assert(m[i as int].contains(lit));
                assert(occurs(m, lit));
            }
            if set.contains(opposite) {
                proof {
                    let k = choose|k: int| 0 <= k < units@.len() && units@[k] == opposite;
                    assert(m.contains(seq![units@[k]]));
                    assert(m.contains(seq![lit]) && m.contains(seq![lit.neg()]));
                }
                return None;
            }
            if !set.contains(lit) {
                let ghost before = units@;
                units.push(lit);
                set.insert(lit);
                proof {
                    assert forall|l: Lit| #[trigger] set@.contains(l) <==> units@.contains(l) by {
                        crate::datastructure::lemma_push_contains(before, lit, l);
                    }
                    assert forall|k: int| 0 <= k < i + 1 && (#[trigger] m[k]).len() == 1 implies units@.contains(m[k][0]) by {
                        crate::datastructure::lemma_push_contains(before, lit, m[k][0]);
                    }
                    assert forall|a: int, b: int|
                        0 <= a < units@.len() && 0 <= b < units@.len() && #[trigger] units@[a].v() == #[trigger] units@[b].v()
                        implies units@[a].pos() == units@[b].pos() by {
                        if a < before.len() && b < before.len() {
                            assert(before[a].v() == before[b].v());
                        } else if a < before.len() {
                            assert(before.contains(before[a]));
                            if before[a].pos() != lit.pos() {
                                crate::literal::lemma_lit_ext(before[a], opposite);
                            }
                        } else if b < before.len() {
                            assert(before.contains(before[b]));
                            if before[b].pos() != lit.pos() {
                                crate::literal::lemma_lit_ext(before[b], opposite);
                            }
                        }
                    }
                }
            }
        }
        i += 1;
    }
    Some(units)
}

/// The pure literal is listed: with its polarity if it is existential, and
/// with the opposite if it is universal.
spec fn placed(table: Map<Var, (usize, QuantTy)>, existential: Seq<Lit>, universal: Seq<Lit>, l: Lit) -> bool {
    if table.contains_key(l.v()) && table[l.v()].1 == QuantTy::Forall {
        universal.contains(l.neg())
    } else {
        existential.contains(l)
    }
}

/// Every literal that occurs in one polarity alone is listed.
#[verifier::opaque]
spec fn pure_listed(table: Map<Var, (usize, QuantTy)>, m: Matrix, existential: Seq<Lit>, universal: Seq<Lit>) -> bool {
    forall|l: Lit| #[trigger] occurs(m, l) && !occurs(m, l.neg()) ==> placed(table, existential, universal, l)
}

/// The pure literals, each once: existential ones with the polarity they
/// occur in, universal ones with the opposite.
fn pure_literals(matrix: &Vec<Vec<Lit>>, table: &VarMap<(usize, QuantTy)>, Ghost(p): Ghost<Prefix>) -> (forced: Forced)
    requires
        prefix_distinct(p),
        table_ok(table@, p),
        closed_formula(p, matrix_of(matrix@)),
    ensures
        forced.wf(p, matrix_of(matrix@)),
        consistent(forced.existential@),
        consistent(forced.universal@),
        pure_listed(table@, matrix_of(matrix@), forced.existential@, forced.universal@),
{
    let ghost m = matrix_of(matrix@);
    let seen = occurring_lits(matrix);
    let mut added = LitSet::new();
    let mut existential: Vec<Lit> = Vec::new();
    let mut universal: Vec<Lit> = Vec::new();
    let mut i: usize = 0;
    while i < matrix.len()
        invariant
            i <= matrix@.len(),
            m == matrix_of(matrix@),
            prefix_distinct(p),
            table_ok(table@, p),
            closed_formula(p, m),
            forall|l: Lit| #[trigger] seen@.contains(l) <==> occurs(m, l),
            forall|k: int| 0 <= k < existential@.len() ==> forces_existential(p, m, #[trigger] existential@[k]) && !occurs(
                m,
                existential@[k].neg(),
            ),
            forall|k: int| 0 <= k < universal@.len() ==> forces_universal(p, m, #[trigger] universal@[k]),
            forall|l: Lit| #[trigger] added@.contains(l) ==> placed(table@, existential@, universal@, l),
            forall|r: int, c: int|
                0 <= r < i && 0 <= c < m[r].len() && !occurs(m, (#[trigger] m[r][c]).neg()) ==> placed(
                    table@,
                    existential@,
                    universal@,
                    m[r][c],
                ),
        decreases matrix.len() - i,
    {
        let mut j: usize = 0;
        while j < matrix[i].len()
            invariant
                forall|l: Lit| #[trigger] added@.contains(l) ==> placed(table@, existential@, universal@, l),
                forall|r: int, c: int|
                    0 <= r < i && 0 <= c < m[r].len() && !occurs(m, (#[trigger] m[r][c]).neg()) ==> placed(
                        table@,
                        existential@,
                        universal@,
                        m[r][c],
                    ),
                forall|c: int|
                    0 <= c < j && !occurs(m, (#[trigger] m[i as int][c]).neg()) ==> placed(table@, existential@, universal@, m[i as int][c]),
                i < matrix@.len(),
                j <= matrix@[i as int]@.len(),
                m == matrix_of(matrix@),
                prefix_distinct(p),
                table_ok(table@, p),
                closed_formula(p, m),
                forall|l: Lit| #[trigger] seen@.contains(l) <==> occurs(m, l),
                forall|k: int| 0 <= k < existential@.len() ==> forces_existential(p, m, #[trigger] existential@[k]) && !occurs(
                    m,
                    existential@[k].neg(),
                ),
                forall|k: int| 0 <= k < universal@.len() ==> forces_universal(p, m, #[trigger] universal@[k]),
            decreases matrix@[i as int]@.len() - j,
        {
            let lit = matrix[i][j];
            let opposite = lit.negated();
            proof {
                assert(m[i as int][j as int] == lit);
                assert(m[i as int].contains(lit));
                assert(occurs(m, lit));
                assert(clause_mentions(m[i as int], lit.v()));
                assert(mentions(m, lit.v()));
                assert(bound(p, lit.v()));
                assert(table@.contains_key(lit.v()));
                lemma_table(table@, p, lit.v());
            }
            let ghost (held_e, held_u) = (existential@, universal@);
            let ghost known = added@;
            if !seen.contains(opposite) && added.insert(lit) {
                match table.get(lit.var()) {
                    Some((block, QuantTy::Forall)) => {
                        universal.push(opposite);
                    },
                    _ => {
                        existential.push(lit);
                    },
                }
                proof {
                    if existential@.len() > held_e.len() {
                        assert(existential@[held_e.len() as int] == lit);
                    } else {
                        assert(universal@[held_u.len() as int] == opposite);
                    }
                    assert(placed(table@, existential@, universal@, lit));
                }
            }
            proof {
                assert forall|l: Lit| #[trigger] placed(table@, held_e, held_u, l) implies placed(table@, existential@, universal@, l) by {
                    if existential@.len() > held_e.len() {
                        crate::datastructure::lemma_push_contains(held_e, lit, l);
                    } else if universal@.len() > held_u.len() {
                        crate::datastructure::lemma_push_contains(held_u, opposite, l.neg());
                    }
                }
                assert forall|l: Lit| #[trigger] added@.contains(l) implies placed(table@, existential@, universal@, l) by {
                    if known.contains(l) {
                        assert(placed(table@, held_e, held_u, l));
                    }
                }
                assert forall|r: int, c: int| 0 <= r < i && 0 <= c < m[r].len() && !occurs(m, (#[trigger] m[r][c]).neg()) implies placed(
                    table@,
                    existential@,
                    universal@,
                    m[r][c],
                ) by {
                    assert(placed(table@, held_e, held_u, m[r][c]));
                }
                assert forall|c: int| 0 <= c < j + 1 && !occurs(m, (#[trigger] m[i as int][c]).neg()) implies placed(
                    table@,
                    existential@,
                    universal@,
                    m[i as int][c],
                ) by {
                    if c < j {
                        assert(placed(table@, held_e, held_u, m[i as int][c]));
                    } else {
                        assert(added@.contains(lit));
                    }
                }
            }
            j += 1;
        }
        i += 1;
    }
    proof {
        assert forall|a: int, b: int|
            0 <= a < existential@.len() && 0 <= b < existential@.len() && #[trigger] existential@[a].v()
                == #[trigger] existential@[b].v() implies existential@[a].pos() == existential@[b].pos() by {
            if existential@[a].pos() != existential@[b].pos() {
                crate::literal::lemma_lit_ext(existential@[a].neg(), existential@[b]);
                assert(forces_existential(p, m, existential@[b]));
                assert(!occurs(m, existential@[a].neg()));
            }
        }
        assert forall|a: int, b: int|
            0 <= a < universal@.len() && 0 <= b < universal@.len() && #[trigger] universal@[a].v()
                == #[trigger] universal@[b].v() implies universal@[a].pos() == universal@[b].pos() by {
            if universal@[a].pos() != universal@[b].pos() {
                crate::literal::lemma_lit_ext(universal@[a].neg(), universal@[b]);
                assert(forces_universal(p, m, universal@[a]));
                assert(forces_universal(p, m, universal@[b]));
            }
        }
        assert(pure_listed(table@, m, existential@, universal@)) by {
            reveal(pure_listed);
            assert forall|l: Lit| #[trigger] occurs(m, l) && !occurs(m, l.neg()) implies placed(table@, existential@, universal@, l) by {
                let r = choose|r: int| 0 <= r < m.len() && (#[trigger] m[r]).contains(l);
                let c = choose|c: int| 0 <= c < m[r].len() && m[r][c] == l;
                assert(!occurs(m, m[r][c].neg()));
            }
        }
    }
    Forced { existential, universal }
}

/// The clause contains a literal of the set.
pub(crate) open spec fn hit(c: Seq<Lit>, f: Set<Lit>) -> bool {
    exists|j: int| 0 <= j < c.len() && f.contains(#[trigger] c[j])
}

/// The second clause is the first one without the literals whose negation
/// is in the set.
pub(crate) open spec fn filtered(c: Seq<Lit>, d: Seq<Lit>, f: Set<Lit>) -> bool {
    &&& forall|j: int| 0 <= j < d.len() ==> c.contains(#[trigger] d[j]) && !f.contains(d[j].neg())
    &&& forall|j: int| 0 <= j < c.len() ==> d.contains(#[trigger] c[j]) || f.contains(c[j].neg())
}

/// The second matrix is the first one with the literals of the set made
/// true.
pub(crate) open spec fn applied(m: Matrix, n: Matrix, f: Set<Lit>) -> bool {
    &&& forall|i: int| 0 <= i < m.len() ==> hit(#[trigger] m[i], f) || kept(m[i], n, f)
    &&& forall|j: int| 0 <= j < n.len() ==> derived(m, #[trigger] n[j], f)
}

pub(crate) open spec fn kept(c: Seq<Lit>, n: Matrix, f: Set<Lit>) -> bool {
    exists|j: int| 0 <= j < n.len() && filtered(c, #[trigger] n[j], f)
}

pub(crate) open spec fn derived(m: Matrix, d: Seq<Lit>, f: Set<Lit>) -> bool {
    exists|i: int| 0 <= i < m.len() && !hit(#[trigger] m[i], f) && filtered(m[i], d, f)
}

/// The clause has a literal of the set, or the negation of one.
pub(crate) open spec fn touched(c: Seq<Lit>, f: Set<Lit>) -> bool {
    exists|j: int| 0 <= j < c.len() && (f.contains(#[trigger] c[j]) || f.contains(c[j].neg()))
}

/// Makes the literals of the set true: satisfied clauses are dropped and
/// falsified literals deleted. Also tells whether a clause became empty.
pub(crate) fn apply_forced(matrix: &Vec<Vec<Lit>>, forced: &LitSet) -> (result: (Vec<Vec<Lit>>, bool))
    ensures
        applied(matrix_of(matrix@), matrix_of(result.0@), forced@),
        result.1 <==> matrix_of(result.0@).contains(Seq::empty()),
        parts_of(matrix_of(matrix@), matrix_of(result.0@)),
        size_of(matrix_of(result.0@)) <= size_of(matrix_of(matrix@)),
        (exists|i: int| 0 <= i < matrix@.len() && touched(#[trigger] matrix_of(matrix@)[i], forced@)) ==> size_of(matrix_of(result.0@))
            < size_of(matrix_of(matrix@)),
{
    let ghost m = matrix_of(matrix@);
    let ghost f = forced@;
    let mut next: Vec<Vec<Lit>> = Vec::new();
    let mut empty = false;
    let mut i: usize = 0;
    while i < matrix.len()
        invariant
            i <= matrix@.len(),
            m == matrix_of(matrix@),
            f == forced@,
            forall|k: int| 0 <= k < i ==> hit(#[trigger] m[k], f) || kept(m[k], matrix_of(next@), f),
            forall|j: int| 0 <= j < next@.len() ==> derived(m, (#[trigger] next@[j])@, f),
            empty <==> matrix_of(next@).contains(Seq::empty()),
            parts_of(m, matrix_of(next@)),
            size_of(matrix_of(next@)) <= size_of(m.take(i as int)),
            (exists|k: int| 0 <= k < i && touched(#[trigger] m[k], f)) ==> size_of(matrix_of(next@)) < size_of(m.take(i as int)),
        decreases matrix.len() - i,
    {
        let mut satisfied = false;
        let mut lits: Vec<Lit> = Vec::new();
        let ghost c = m[i as int];
        proof {
            assert(m.take(i as int + 1) =~= m.take(i as int).push(c));
            lemma_size_push(m.take(i as int), c);
        }
        let mut j: usize = 0;
        while j < matrix[i].len() && !satisfied
            invariant
                i < matrix@.len(),
                c == matrix@[i as int]@,
                f == forced@,
                j <= c.len(),
                lits@.len() <= j,
                (exists|k: int| 0 <= k < j && f.contains((#[trigger] c[k]).neg())) ==> lits@.len() < j,
                satisfied ==> hit(c, f),
                !satisfied ==> forall|k: int| 0 <= k < j ==> !f.contains(#[trigger] c[k]),
                forall|k: int| 0 <= k < lits@.len() ==> c.contains(#[trigger] lits@[k]) && !f.contains(lits@[k].neg()),
                !satisfied ==> forall|k: int| 0 <= k < j ==> lits@.contains(#[trigger] c[k]) || f.contains(c[k].neg()),
            decreases c.len() - j,
        {
            let lit = matrix[i][j];
            let ghost before = lits@;
            if forced.contains(lit) {
                satisfied = true;
                assert(f.contains(c[j as int]));
            } else if !forced.contains(lit.negated()) {
                lits.push(lit);
                assert(c.contains(c[j as int]));
                proof {
                    assert forall|k: int| 0 <= k < j + 1 implies lits@.contains(#[trigger] c[k]) || f.contains(c[k].neg()) by {
                        if k < j {
                            if before.contains(c[k]) {
                                let n = choose|n: int| 0 <= n < before.len() && before[n] == c[k];
                                assert(lits@[n] == c[k]);
                            }
                        } else {
                            assert(lits@[before.len() as int] == c[k]);
                        }
                    }
                }
            }
            j += 1;
        }
        let ghost old_next = matrix_of(next@);
        if !satisfied {
            let is_empty = lits.len() == 0;
            let ghost d = lits@;
            assert(!hit(c, f));
            assert(filtered(c, d, f));
            let ghost was_empty = empty;
            next.push(lits);
            if is_empty {
                empty = true;
            }
            proof {
                let new = matrix_of(next@);
                assert(new =~= old_next.push(d));
                lemma_size_push(old_next, d);
                crate::datastructure::lemma_push_contains(old_next, d, Seq::empty());
                assert(covers(m[i as int], d));
                assert forall|j: int| 0 <= j < new.len() implies part_of(m, #[trigger] new[j]) by {
                    if j < old_next.len() {
                        assert(new[j] == old_next[j]);
                    }
                }
                assert(new[old_next.len() as int] == d);
                assert(filtered(m[i as int], new[old_next.len() as int], f));
                assert(derived(m, d, f)) by {
                    assert(!hit(m[i as int], f) && filtered(m[i as int], d, f));
                }
                assert forall|k: int| 0 <= k < i implies hit(#[trigger] m[k], f) || kept(m[k], new, f) by {
                    if !hit(m[k], f) {
                        let n = choose|n: int| 0 <= n < old_next.len() && filtered(m[k], #[trigger] old_next[n], f);
                        assert(new[n] == old_next[n]);
                        assert(filtered(m[k], new[n], f));
                    }
                }
                if empty {
                    if is_empty {
                        assert(d =~= Seq::empty());
                        assert(new[old_next.len() as int] == Seq::<Lit>::empty());
                    } else {
                        let n = choose|n: int| 0 <= n < old_next.len() && old_next[n] == Seq::<Lit>::empty();
                        assert(new[n] == Seq::<Lit>::empty());
                    }
                }
            }
        }
        i += 1;
    }
    assert(m.take(m.len() as int) =~= m);
    (next, empty)
}

/// The set holds the forced literals.
spec fn forced_set(forced: Forced, f: Set<Lit>) -> bool {
    forall|l: Lit| #[trigger] f.contains(l) <==> forced.contains(l)
}

/// With the fixed existential literals the smaller matrix implies the
/// matrix.
proof fn lemma_applied_lifts(p: Prefix, m: Matrix, n: Matrix, forced: Forced, f: Set<Lit>, b: Assignment)
    requires
        forced.wf(p, m),
        forced_set(forced, f),
        applied(m, n, f),
        matrix_true(b, n),
        cube_true(b, forced.existential@),
    ensures
        matrix_true(b, m),
{
    let e = forced.existential@;
    let u = forced.universal@;
    assert forall|i: int| 0 <= i < m.len() implies clause_true(b, #[trigger] m[i]) by {
        if hit(m[i], f) {
            let j = choose|j: int| 0 <= j < m[i].len() && f.contains(#[trigger] m[i][j]);
            let l = m[i][j];
            assert(m[i].contains(l));
            assert(occurs(m, l));
            assert(forced.contains(l));
            if u.contains(l) {
                let k = choose|k: int| 0 <= k < u.len() && u[k] == l;
                assert(forces_universal(p, m, u[k]));
            } else {
                let k = choose|k: int| 0 <= k < e.len() && e[k] == l;
                assert(lit_true(b, e[k]));
                assert(lit_true(b, m[i][j]));
            }
        } else {
            assert(kept(m[i], n, f));
            let j = choose|j: int| 0 <= j < n.len() && filtered(m[i], #[trigger] n[j], f);
            assert(clause_true(b, n[j]));
            lemma_subclause(b, n[j], m[i]);
        }
    }
}

/// The smaller matrix mentions no forced variable.
proof fn lemma_applied_mentions(m: Matrix, n: Matrix, forced: Forced, f: Set<Lit>, x: Var)
    requires
        forced_set(forced, f),
        applied(m, n, f),
        mentions(n, x),
    ensures
        mentions(m, x),
        !clause_mentions(forced.existential@, x),
        !clause_mentions(forced.universal@, x),
{
    let e = forced.existential@;
    let u = forced.universal@;
    let j = choose|j: int| 0 <= j < n.len() && clause_mentions(#[trigger] n[j], x);
    let k = choose|k: int| 0 <= k < n[j].len() && (#[trigger] n[j][k]).v() == x;
    let l = n[j][k];
    assert(derived(m, n[j], f));
    let i = choose|i: int| 0 <= i < m.len() && !hit(#[trigger] m[i], f) && filtered(m[i], n[j], f);
    assert(m[i].contains(l));
    let h = choose|h: int| 0 <= h < m[i].len() && m[i][h] == l;
    assert(m[i][h].v() == x);
    assert(clause_mentions(m[i], x));
    assert(!f.contains(m[i][h]));
    assert(!f.contains(l.neg()));
    assert(!forced.contains(l) && !forced.contains(l.neg()));
    if clause_mentions(e, x) {
        let g = choose|g: int| 0 <= g < e.len() && (#[trigger] e[g]).v() == x;
        assert(e.contains(e[g]));
        if e[g].pos() == l.pos() {
            crate::literal::lemma_lit_ext(e[g], l);
        } else {
            crate::literal::lemma_lit_ext(e[g], l.neg());
        }
    }
    if clause_mentions(u, x) {
        let g = choose|g: int| 0 <= g < u.len() && (#[trigger] u[g]).v() == x;
        assert(u.contains(u[g]));
        if u[g].pos() == l.pos() {
            crate::literal::lemma_lit_ext(u[g], l);
        } else {
            crate::literal::lemma_lit_ext(u[g], l.neg());
        }
    }
}

/// A literal whose negation is forced does not hold where the matrix and
/// the forced universal literals do.
proof fn lemma_forced_false(p: Prefix, m: Matrix, forced: Forced, b: Assignment, l: Lit)
    requires
        forced.wf(p, m),
        matrix_true(b, m),
        cube_true(b, forced.universal@),
        occurs(m, l),
        forced.contains(l.neg()),
    ensures
        !lit_true(b, l),
{
    let e = forced.existential@;
    let u = forced.universal@;
    if u.contains(l.neg()) {
        let g = choose|g: int| 0 <= g < u.len() && u[g] == l.neg();
        assert(lit_true(b, u[g]));
    } else {
        let g = choose|g: int| 0 <= g < e.len() && e[g] == l.neg();
        assert(forces_existential(p, m, e[g]));
        assert(e[g].neg() == l);
        let h = choose|h: int| 0 <= h < m.len() && m[h] == seq![e[g]];
        assert(clause_true(b, m[h]));
        assert(m[h][0] == e[g]);
    }
}

/// With the forced universal literals the matrix implies the smaller one.
#[verifier::rlimit(60)]
proof fn lemma_applied_follows(p: Prefix, m: Matrix, n: Matrix, forced: Forced, f: Set<Lit>, b: Assignment)
    requires
        forced.wf(p, m),
        forced_set(forced, f),
        applied(m, n, f),
        matrix_true(b, m),
        cube_true(b, forced.universal@),
    ensures
        matrix_true(b, n),
{
    assert forall|j: int| 0 <= j < n.len() implies clause_true(b, #[trigger] n[j]) by {
        assert(derived(m, n[j], f));
        let i = choose|i: int| 0 <= i < m.len() && !hit(#[trigger] m[i], f) && filtered(m[i], n[j], f);
        assert(clause_true(b, m[i]));
        let k = choose|k: int| 0 <= k < m[i].len() && lit_true(b, #[trigger] m[i][k]);
        let l = m[i][k];
        assert(m[i].contains(l));
        assert(occurs(m, l));
        if f.contains(l.neg()) {
            assert(forced.contains(l.neg()));
            lemma_forced_false(p, m, forced, b, l);
        }
        assert(n[j].contains(m[i][k]));
        let h = choose|h: int| 0 <= h < n[j].len() && n[j][h] == l;
        assert(lit_true(b, n[j][h]));
    }
}

/// What making forced literals true does to the formula.
proof fn lemma_applied(p: Prefix, m: Matrix, n: Matrix, forced: Forced, f: Set<Lit>)
    requires
        closed_formula(p, m),
        forced.wf(p, m),
        consistent(forced.existential@),
        consistent(forced.universal@),
        forced_set(forced, f),
        applied(m, n, f),
    ensures
        forall|b: Assignment| #[trigger] matrix_true(b, n) && cube_true(b, forced.existential@) ==> matrix_true(b, m),
        forall|x: Var| #[trigger] mentions(n, x) ==> mentions(m, x),
        forall|x: Var| #[trigger] mentions(n, x) ==> !clause_mentions(forced.existential@, x),
        forall|x: Var| #[trigger] mentions(n, x) ==> !clause_mentions(forced.universal@, x),
        forall|a: Assignment| #[trigger] qbf(p, m, a) == qbf(p, n, a),
{
    let e = forced.existential@;
    let u = forced.universal@;
    assert forall|b: Assignment| #[trigger] matrix_true(b, n) && cube_true(b, e) implies matrix_true(b, m) by {
        lemma_applied_lifts(p, m, n, forced, f, b);
    }
    assert forall|x: Var| #[trigger] mentions(n, x) implies mentions(m, x) && !clause_mentions(e, x) && !clause_mentions(u, x) by {
        lemma_applied_mentions(m, n, forced, f, x);
    }
    assert forall|b: Assignment| #[trigger] matrix_true(b, m) && cube_true(b, u) implies matrix_true(b, n) by {
        lemma_applied_follows(p, m, n, forced, f, b);
    }
    assert forall|a: Assignment| #[trigger] qbf(p, m, a) == qbf(p, n, a) by {
        assert forall|i: int| 0 <= i < e.len() implies bound_only_by(p, QuantTy::Exists, (#[trigger] e[i]).v()) && (!bound(
            p,
            e[i].v(),
        ) ==> lit_true(a, e[i])) by {
            assert(forces_existential(p, m, e[i]));
            lemma_occurs_bound(p, m, e[i]);
        }
        assert forall|i: int| 0 <= i < u.len() implies bound_only_by(p, QuantTy::Forall, (#[trigger] u[i]).v()) && (!bound(
            p,
            u[i].v(),
        ) ==> lit_true(a, u[i])) by {
            assert(forces_universal(p, m, u[i]));
            lemma_occurs_bound(p, m, u[i].neg());
        }
        if qbf(p, m, a) {
            lemma_force_universal(p, u, m, n, a);
        }
        if qbf(p, n, a) {
            lemma_force_existential(p, e, n, m, a);
        }
    }
}

proof fn lemma_occurs_bound(p: Prefix, m: Matrix, l: Lit)
    requires
        closed_formula(p, m),
        occurs(m, l),
    ensures
        mentions(m, l.v()),
        bound(p, l.v()),
{
    let i = choose|i: int| 0 <= i < m.len() && (#[trigger] m[i]).contains(l);
    let j = choose|j: int| 0 <= j < m[i].len() && m[i][j] == l;
    assert(m[i][j].v() == l.v());
    assert(clause_mentions(m[i], l.v()));
    assert(mentions(m, l.v()));
}

/// The blocks restricted to the variables that are in the set, or to those
/// that are not.
pub(crate) fn retain_vars(prefix: &Vec<(QuantTy, Vec<Var>)>, set: &VarSet, keep: bool) -> (result: Vec<(QuantTy, Vec<Var>)>)
    ensures
        result@.len() == prefix@.len(),
        forall|i: int| 0 <= i < prefix@.len() ==> (#[trigger] result@[i]).0 == prefix@[i].0,
        forall|i: int, x: Var|
            0 <= i < prefix@.len() ==> (#[trigger] result@[i].1@.contains(x) <==> prefix@[i].1@.contains(x)
                && set@.contains(x) == keep),
        prefix_distinct(prefix_of(prefix@)) ==> prefix_distinct(prefix_of(result@)),
{
    let ghost p = prefix_of(prefix@);
    let mut result: Vec<(QuantTy, Vec<Var>)> = Vec::new();
    let mut i: usize = 0;
    while i < prefix.len()
        invariant
            i <= prefix@.len(),
            p == prefix_of(prefix@),
            result@.len() == i,
            forall|k: int| 0 <= k < i ==> (#[trigger] result@[k]).0 == prefix@[k].0,
            forall|k: int, x: Var|
                0 <= k < i ==> (#[trigger] result@[k].1@.contains(x) <==> prefix@[k].1@.contains(x) && set@.contains(x) == keep),
            prefix_distinct(p) ==> forall|k: int| 0 <= k < i ==> (#[trigger] result@[k]).1@.no_duplicates(),
        decreases prefix.len() - i,
    {
        let vars = retain_block(&prefix[i].1, set, keep);
        proof {
            if prefix_distinct(p) {
                assert(p[i as int].1.no_duplicates());
            }
        }
        result.push((prefix[i].0, vars));
        i += 1;
    }
    proof {
        if prefix_distinct(p) {
            let r = prefix_of(result@);
            assert forall|k: int| 0 <= k < r.len() implies (#[trigger] r[k]).1.no_duplicates() by {
                assert(result@[k].1@.no_duplicates());
            }
            assert forall|a: int, b: int, x: Var|
                0 <= a < b < r.len() && #[trigger] r[a].1.contains(x) implies !#[trigger] r[b].1.contains(x) by {
                assert(result@[a].1@.contains(x));
                assert(p[a].1.contains(x));
                assert(!p[b].1.contains(x));
                assert(result@[b].1@.contains(x) <==> prefix@[b].1@.contains(x) && set@.contains(x) == keep);
            }
        }
    }
    result
}

fn retain_block(vars: &Vec<Var>, set: &VarSet, keep: bool) -> (result: Vec<Var>)
    ensures
        forall|x: Var| #[trigger] result@.contains(x) <==> vars@.contains(x) && set@.contains(x) == keep,
        vars@.no_duplicates() ==> result@.no_duplicates(),
{
    let mut result: Vec<Var> = Vec::new();
    let mut k: usize = 0;
    while k < vars.len()
        invariant
            k <= vars@.len(),
            forall|x: Var| #[trigger] result@.contains(x) <==> vars@.take(k as int).contains(x) && set@.contains(x) == keep,
            vars@.no_duplicates() ==> result@.no_duplicates(),
        decreases vars.len() - k,
    {
        let var = vars[k];
        let ghost before = result@;
        let ghost part = vars@.take(k as int);
        proof {
            assert(vars@.take(k as int + 1) =~= part.push(var));
        }
        if set.contains(var) == keep {
            result.push(var);
            proof {
                if vars@.no_duplicates() {
                    assert(!part.contains(var)) by {
                        if part.contains(var) {
                            let n = choose|n: int| 0 <= n < part.len() && part[n] == var;
                            assert(vars@[n] == vars@[k as int]);
                        }
                    }
                    assert(!before.contains(var));
                    assert forall|a: int, b: int| 0 <= a < b < result@.len() implies result@[a] != result@[b] by {
                        if b == before.len() {
                            assert(before.contains(before[a]));
                        }
                    }
                }
            }
        }
        proof {
            assert forall|x: Var| #[trigger] result@.contains(x) <==> vars@.take(k as int + 1).contains(x) && set@.contains(x) == keep by {
                crate::datastructure::lemma_push_contains(part, var, x);
                crate::datastructure::lemma_push_contains(before, var, x);
            }
        }
        k += 1;
    }
    assert(vars@.take(vars@.len() as int) =~= vars@);
    result
}

/// The number of clauses and literals.
pub open spec fn size_of(m: Matrix) -> nat
    decreases m.len(),
{
    if m.len() == 0 {
        0
    } else {
        size_of(m.drop_last()) + m.last().len() + 1
    }
}

/// One more clause.
pub proof fn lemma_size_push(m: Matrix, c: Seq<Lit>)
    ensures
        size_of(m.push(c)) == size_of(m) + c.len() + 1,
{
    assert(m.push(c).drop_last() =~= m);
}

/// The number of clauses and literals.
fn weight(matrix: &Vec<Vec<Lit>>) -> (weight: u128)
    ensures
        weight == size_of(matrix_of(matrix@)),
{
    let ghost m = matrix_of(matrix@);
    let mut weight: u128 = 0;
    let mut k: usize = 0;
    assert(m.take(0) =~= Matrix::empty());
    while k < matrix.len()
        invariant
            k <= matrix@.len(),
            m == matrix_of(matrix@),
            weight == size_of(m.take(k as int)),
            weight <= k * 0x1_0000_0000_0000_0000,
        decreases matrix.len() - k,
    {
        proof {
            assert(m.take(k as int + 1).drop_last() =~= m.take(k as int));
            assert(m.take(k as int + 1).last() == matrix@[k as int]@);
        }
        let len = matrix[k].len();
        proof {
            assert(len + 1 <= 0x1_0000_0000_0000_0000);
            assert((k + 1) * 0x1_0000_0000_0000_0000 == k * 0x1_0000_0000_0000_0000 + 0x1_0000_0000_0000_0000) by (nonlinear_arith);
            assert((k + 1) * 0x1_0000_0000_0000_0000 <= 0xffff_ffff_ffff_ffff * 0x1_0000_0000_0000_0000) by (nonlinear_arith)
                requires
                    k + 1 <= 0xffff_ffff_ffff_ffff,
            ;
        }
        weight = weight + len as u128 + 1;
        k += 1;
    }
    assert(m.take(m.len() as int) =~= m);
    weight
}

/// The variables that occur.
pub(crate) fn occurring_vars(matrix: &Vec<Vec<Lit>>) -> (seen: VarSet)
    ensures
        forall|x: Var| #[trigger] seen@.contains(x) <==> mentions(matrix_of(matrix@), x),
{
    let ghost m = matrix_of(matrix@);
    let mut seen = VarSet::new();
    let mut i: usize = 0;
    while i < matrix.len()
        invariant
            i <= matrix@.len(),
            m == matrix_of(matrix@),
            forall|x: Var| #[trigger] seen@.contains(x) ==> mentions(m, x),
            forall|k: int, x: Var| 0 <= k < i && #[trigger] clause_mentions(m[k], x) ==> seen@.contains(x),
        decreases matrix.len() - i,
    {
        let mut j: usize = 0;
        while j < matrix[i].len()
            invariant
                i < matrix@.len(),
                j <= matrix@[i as int]@.len(),
                m == matrix_of(matrix@),
                forall|x: Var| #[trigger] seen@.contains(x) ==> mentions(m, x),
                forall|k: int, x: Var| 0 <= k < i && #[trigger] clause_mentions(m[k], x) ==> seen@.contains(x),
                forall|k: int| 0 <= k < j ==> seen@.contains((#[trigger] matrix@[i as int]@[k]).v()),
            decreases matrix@[i as int]@.len() - j,
        {
            let var = matrix[i][j].var();
            proof {
                assert(m[i as int][j as int].v() == var);
                assert(clause_mentions(m[i as int], var));
                assert(mentions(m, var));
            }
            seen.insert(var);
            j += 1;
        }
        proof {
            assert forall|k: int, x: Var| 0 <= k < i + 1 && #[trigger] clause_mentions(m[k], x) implies seen@.contains(x) by {
                if k == i {
                    let n = choose|n: int| 0 <= n < m[k].len() && (#[trigger] m[k][n]).v() == x;
                    assert(seen@.contains(matrix@[i as int]@[n].v()));
                }
            }
        }
        i += 1;
    }
    proof {
        assert forall|x: Var| #[trigger] mentions(m, x) implies seen@.contains(x) by {
            let k = choose|k: int| 0 <= k < m.len() && clause_mentions(#[trigger] m[k], x);
            assert(clause_mentions(m[k], x));
        }
    }
    seen
}

/// What a simplified instance has in common with the instance: its truth,
/// and that the literals fixed on the way lift its satisfying assignments.
pub open spec fn simplifies(p: Prefix, m: Matrix, r: Prefix, n: Matrix, fixed: Seq<Lit>) -> bool {
    &&& prefix_distinct(r)
    &&& r.len() == p.len()
    &&& closed_formula(r, n)
    &&& forall|a: Assignment| #[trigger] qbf(p, m, a) == qbf(r, n, a)
    &&& forall|b: Assignment| #[trigger] matrix_true(b, n) && cube_true(b, fixed) ==> matrix_true(b, m)
    &&& consistent(fixed)
    &&& forall|x: Var| #[trigger] clause_mentions(fixed, x) ==> bound_by(p, QuantTy::Exists, x) && !bound(r, x) && !mentions(n, x)
    &&& forall|q: QuantTy, x: Var| #[trigger] bound_by(r, q, x) ==> bound_by(p, q, x)
    &&& forall|x: Var| #[trigger] mentions(n, x) ==> mentions(m, x)
    &&& forall|x: Var| #[trigger] bound(r, x) ==> mentions(n, x)
}

/// Simplifies an instance without free variables to a fixpoint, and
/// returns the existential literals that were fixed on the way; `None`
/// when the instance is refuted outright. An empty matrix means
/// satisfiable.
pub fn simplify(qcnf: &QCNF) -> (result: Option<(QCNF, Vec<Lit>)>)
    requires
        qcnf.wf(),
        closed_formula(qcnf.blocks(), qcnf.clauses()),
    ensures
        match result {
            None => !qcnf.truth(),
            Some((reduced, fixed)) => {
                &&& simplifies(qcnf.blocks(), qcnf.clauses(), reduced.blocks(), reduced.clauses(), fixed@)
                &&& reduced.truth() == qcnf.truth()
                &&& settled(reduced.blocks(), reduced.clauses())
                &&& parts_of(qcnf.clauses(), reduced.clauses())
                &&& sub_blocks(qcnf.blocks(), reduced.blocks())
                &&& size_of(reduced.clauses()) <= size_of(qcnf.clauses())
            },
        },
{
    let ghost p0 = qcnf.blocks();
    let ghost m0 = qcnf.clauses();
    let mut prefix = copy_prefix(&qcnf.prefix);
    let mut matrix = copy_clauses(&qcnf.matrix);
    let mut fixed: Vec<Lit> = Vec::new();
    let mut size = weight(&matrix);
    let ghost mut p = p0;
    let ghost mut m = m0;
    let mut open = true;
    proof {
        assert forall|j: int| 0 <= j < m.len() implies part_of(m0, #[trigger] m[j]) by {
            assert(covers(m0[j], m[j]));
        }
    }
    while open
        invariant
            p == prefix_of(prefix@),
            m == matrix_of(matrix@),
            p0 == qcnf.blocks(),
            m0 == qcnf.clauses(),
            prefix_distinct(p),
            p.len() == p0.len(),
            closed_formula(p, m),
            closed_formula(p0, m0),
            forall|a: Assignment| #[trigger] qbf(p0, m0, a) == qbf(p, m, a),
            forall|b: Assignment| #[trigger] matrix_true(b, m) && cube_true(b, fixed@) ==> matrix_true(b, m0),
            consistent(fixed@),
            forall|x: Var| #[trigger] clause_mentions(fixed@, x) ==> bound_by(p0, QuantTy::Exists, x) && !bound(p, x) && !mentions(m, x),
            forall|q: QuantTy, x: Var| #[trigger] bound_by(p, q, x) ==> bound_by(p0, q, x),
            forall|x: Var| #[trigger] mentions(m, x) ==> mentions(m0, x),
            size >= size_of(m),
            open ==> size == size_of(m),
            size_of(m) <= size_of(m0),
            parts_of(m0, m),
            sub_blocks(p0, p),
            !open ==> settled(p, m),
        decreases size, (if open { 1int } else { 0int }),
    {
        match round(&prefix, &matrix) {
            None => {
                proof {
                    if qcnf.truth() {
                        let a = choose|a: Assignment| #[trigger] qbf(p0, m0, a);
                        assert(qbf(p, m, a));
                    }
                }
                return None;
            },
            Some((next_prefix, next_matrix, mut more)) => {
                let next_size = weight(&next_matrix);
                let ghost r = prefix_of(next_prefix@);
                let ghost n = matrix_of(next_matrix@);
                let ghost old_fixed = fixed@;
                let ghost new_fixed = more@;
                fixed.append(&mut more);
                prefix = next_prefix;
                matrix = next_matrix;
                proof {
                    lemma_fixed_step(p0, m0, p, m, r, n, old_fixed, new_fixed);
                    assert(fixed@ == old_fixed + new_fixed);
                    lemma_parts_trans(m0, m, n);
                    p = r;
                    m = n;
                }
                if next_size < size {
                    size = next_size;
                } else {
                    open = false;
                }
            },
        }
    }
    let occurring = occurring_vars(&matrix);
    let last = retain_vars(&prefix, &occurring, true);
    let result = QCNF { prefix: last, matrix };
    proof {
        let r = result.blocks();
        assert forall|i: int, x: Var| 0 <= i < p.len() && #[trigger] r[i].1.contains(x) implies p[i].1.contains(x) by {
            assert(last@[i].1@.contains(x));
        }
        assert forall|i: int, x: Var| 0 <= i < p.len() && #[trigger] p[i].1.contains(x) && mentions(m, x) implies r[i].1.contains(x) by {
            assert(last@[i].1@.contains(x) <==> prefix@[i].1@.contains(x) && occurring@.contains(x));
        }
        assert forall|i: int| 0 <= i < p.len() implies (#[trigger] p[i]).0 == r[i].0 by {
            assert(last@[i].0 == prefix@[i].0);
        }
        assert(drops_unmentioned(p, r, m));
        assert(sub_blocks(p, r));
        assert forall|i: int| 0 <= i < m.len() implies tidy_clause(r, #[trigger] m[i]) && m[i].len() >= 2 by {
            reveal(settled);
            lemma_tidy_blocks(p, r, m[i]);
        }
        assert(settled(r, m)) by {
            reveal(settled);
        }
        assert forall|i: int, x: Var| 0 <= i < p0.len() && #[trigger] r[i].1.contains(x) implies p0[i].1.contains(x) by {
            assert(p[i].1.contains(x));
        }
        assert(sub_blocks(p0, r));
        assert forall|a: Assignment| #[trigger] qbf(p0, m0, a) == qbf(r, m, a) by {
            lemma_drop_unmentioned(p, r, m, a);
            assert(qbf(p0, m0, a) == qbf(p, m, a));
        }
        lemma_drops_bound(p, r, m);
        assert(closed_formula(r, m));
        assert forall|x: Var| #[trigger] bound(r, x) implies mentions(m, x) by {
            let i = choose|i: int| 0 <= i < r.len() && (#[trigger] r[i]).1.contains(x);
            assert(last@[i].1@.contains(x));
        }
        let zero = |x: Var| false;
        lemma_closed_truth(p0, m0, zero);
        lemma_closed_truth(r, m, zero);
        assert(qbf(p0, m0, zero) == qbf(r, m, zero));
    }
    Some((result, fixed))
}

/// Dropping variables that do not occur keeps the others bound as they
/// were.
proof fn lemma_drops_bound(p: Prefix, r: Prefix, m: Matrix)
    requires
        drops_unmentioned(p, r, m),
    ensures
        forall|x: Var| #[trigger] bound(r, x) ==> bound(p, x),
        forall|x: Var| #[trigger] mentions(m, x) && bound(p, x) ==> bound(r, x),
        forall|q: QuantTy, x: Var| #[trigger] bound_by(r, q, x) ==> bound_by(p, q, x),
{
    assert forall|x: Var| #[trigger] bound(r, x) implies bound(p, x) by {
        let i = choose|i: int| 0 <= i < r.len() && (#[trigger] r[i]).1.contains(x);
        assert(p[i].1.contains(x));
    }
    assert forall|x: Var| #[trigger] mentions(m, x) && bound(p, x) implies bound(r, x) by {
        let i = choose|i: int| 0 <= i < p.len() && (#[trigger] p[i]).1.contains(x);
        assert(r[i].1.contains(x));
    }
    assert forall|q: QuantTy, x: Var| #[trigger] bound_by(r, q, x) implies bound_by(p, q, x) by {
        let i = choose|i: int| 0 <= i < r.len() && (#[trigger] r[i]).0 == q && r[i].1.contains(x);
        assert(p[i].0 == q && p[i].1.contains(x));
    }
}

/// One more round keeps what the rounds before it established.
proof fn lemma_fixed_step(
    p0: Prefix,
    m0: Matrix,
    p: Prefix,
    m: Matrix,
    r: Prefix,
    n: Matrix,
    fixed: Seq<Lit>,
    more: Seq<Lit>,
)
    requires
        forall|b: Assignment| #[trigger] matrix_true(b, m) && cube_true(b, fixed) ==> matrix_true(b, m0),
        forall|b: Assignment| #[trigger] matrix_true(b, n) && cube_true(b, more) ==> matrix_true(b, m),
        consistent(fixed),
        consistent(more),
        forall|x: Var| #[trigger] clause_mentions(fixed, x) ==> bound_by(p0, QuantTy::Exists, x) && !bound(p, x) && !mentions(m, x),
        forall|x: Var| #[trigger] clause_mentions(more, x) ==> bound_by(p, QuantTy::Exists, x) && !bound(r, x) && !mentions(n, x),
        forall|q: QuantTy, x: Var| #[trigger] bound_by(p, q, x) ==> bound_by(p0, q, x),
        forall|x: Var| #[trigger] bound(r, x) ==> bound(p, x),
        forall|x: Var| #[trigger] mentions(n, x) ==> mentions(m, x),
    ensures
        forall|b: Assignment| #[trigger] matrix_true(b, n) && cube_true(b, fixed + more) ==> matrix_true(b, m0),
        consistent(fixed + more),
        forall|x: Var| #[trigger] clause_mentions(fixed + more, x) ==> bound_by(p0, QuantTy::Exists, x) && !bound(r, x) && !mentions(n, x),
{
    let all = fixed + more;
    assert forall|b: Assignment| #[trigger] matrix_true(b, n) && cube_true(b, all) implies matrix_true(b, m0) by {
        assert forall|i: int| 0 <= i < fixed.len() implies lit_true(b, #[trigger] fixed[i]) by {
            assert(all[i] == fixed[i]);
        }
        assert forall|i: int| 0 <= i < more.len() implies lit_true(b, #[trigger] more[i]) by {
            assert(all[fixed.len() + i] == more[i]);
        }
        assert(cube_true(b, more));
        assert(matrix_true(b, m));
        assert(cube_true(b, fixed));
    }
    assert forall|x: Var| #[trigger] clause_mentions(all, x) implies clause_mentions(fixed, x) || clause_mentions(more, x) by {
        let i = choose|i: int| 0 <= i < all.len() && (#[trigger] all[i]).v() == x;
        if i < fixed.len() {
            assert(fixed[i].v() == x);
        } else {
            assert(more[i - fixed.len()].v() == x);
        }
    }
    assert forall|i: int, j: int|
        0 <= i < all.len() && 0 <= j < all.len() && #[trigger] all[i].v() == #[trigger] all[j].v() implies all[i].pos()
        == all[j].pos() by {
        let f = fixed.len();
        if i < f && j < f {
            assert(fixed[i].v() == fixed[j].v());
        } else if i >= f && j >= f {
            assert(more[i - f].v() == more[j - f].v());
        } else {
            let x = all[i].v();
            let a = if i < f { i } else { j };
            let b = if i < f { j } else { i };
            assert(fixed[a].v() == x);
            assert(clause_mentions(fixed, x));
            assert(more[b - f].v() == x);
            assert(clause_mentions(more, x));
            assert(bound_by(p, QuantTy::Exists, x));
            let k = choose|k: int| 0 <= k < p.len() && (#[trigger] p[k]).0 == QuantTy::Exists && p[k].1.contains(x);
            assert(bound(p, x));
        }
    }
    assert forall|x: Var| #[trigger] clause_mentions(all, x) implies bound_by(p0, QuantTy::Exists, x) && !bound(r, x) && !mentions(n, x) by {
        if clause_mentions(fixed, x) {
            assert(!bound(p, x));
        } else {
            assert(bound_by(p, QuantTy::Exists, x));
        }
    }
}

/// One round of the rules: the clause rules, then the forced literals.
#[verifier::rlimit(60)]
fn round(prefix: &Vec<(QuantTy, Vec<Var>)>, matrix: &Vec<Vec<Lit>>) -> (result: Option<(Vec<(QuantTy, Vec<Var>)>, Vec<Vec<Lit>>, Vec<Lit>)>)
    requires
        prefix_distinct(prefix_of(prefix@)),
        closed_formula(prefix_of(prefix@), matrix_of(matrix@)),
    ensures
        match result {
            None => forall|a: Assignment| !#[trigger] qbf(prefix_of(prefix@), matrix_of(matrix@), a),
            Some((r, n, more)) => {
                let p = prefix_of(prefix@);
                let m = matrix_of(matrix@);
                &&& prefix_distinct(prefix_of(r@))
                &&& r@.len() == prefix@.len()
                &&& closed_formula(prefix_of(r@), matrix_of(n@))
                &&& forall|a: Assignment| #[trigger] qbf(p, m, a) == qbf(prefix_of(r@), matrix_of(n@), a)
                &&& forall|b: Assignment| #[trigger] matrix_true(b, matrix_of(n@)) && cube_true(b, more@) ==> matrix_true(b, m)
                &&& consistent(more@)
                &&& forall|x: Var| #[trigger] clause_mentions(more@, x) ==> bound_by(p, QuantTy::Exists, x) && !bound(
                    prefix_of(r@),
                    x,
                ) && !mentions(matrix_of(n@), x)
                &&& forall|q: QuantTy, x: Var| #[trigger] bound_by(prefix_of(r@), q, x) ==> bound_by(p, q, x)
                &&& forall|x: Var| #[trigger] bound(prefix_of(r@), x) ==> bound(p, x)
                &&& forall|x: Var| #[trigger] mentions(matrix_of(n@), x) ==> mentions(m, x)
                &&& parts_of(m, matrix_of(n@))
                &&& sub_blocks(p, prefix_of(r@))
                &&& size_of(matrix_of(n@)) <= size_of(m)
                &&& size_of(matrix_of(n@)) == size_of(m) ==> prefix_of(r@) == p && settled(p, matrix_of(n@))
            },
        },
{
    let ghost p = prefix_of(prefix@);
    let ghost m0 = matrix_of(matrix@);
    let reduced = match reduce_matrix(prefix, matrix) {
        None => {
            return None;
        },
        Some(reduced) => reduced,
    };
    let ghost m = matrix_of(reduced@);
    let units = match unit_literals(&reduced, Ghost(p)) {
        None => {
            proof {
                let l = choose|l: Lit| #[trigger] m.contains(seq![l]) && m.contains(seq![l.neg()]);
                assert forall|a: Assignment| !#[trigger] qbf(p, m0, a) by {
                    assert(qbf(p, m0, a) == qbf(p, m, a));
                    if qbf(p, m, a) {
                        let b = lemma_has_model(p, m, a);
                        let i = choose|i: int| 0 <= i < m.len() && m[i] == seq![l];
                        let j = choose|j: int| 0 <= j < m.len() && m[j] == seq![l.neg()];
                        assert(clause_true(b, m[i]) && clause_true(b, m[j]));
                        assert(m[i][0] == l && m[j][0] == l.neg());
                    }
                }
            }
            return None;
        },
        Some(units) => units,
    };
    let ghost unit_lits = units@;
    let ghost mut places: Map<Var, (usize, QuantTy)> = Map::empty();
    let forced = if units.len() > 0 {
        let none: Vec<Lit> = Vec::new();
        Forced { existential: units, universal: none }
    } else {
        let table = block_table(prefix);
        proof {
            places = table@;
        }
        pure_literals(&reduced, &table, Ghost(p))
    };
    if forced.existential.len() == 0 && forced.universal.len() == 0 {
        let same = copy_prefix(prefix);
        proof {
            assert forall|i: int| 0 <= i < m.len() implies tidy_clause(p, #[trigger] m[i]) && m[i].len() >= 2 by {
                assert(has_existential(p, m[i]));
                if m[i].len() == 1 {
                    assert(unit_lits.contains(m[i][0]));
                }
            }
            lemma_settled(p, m, places, forced.existential@, forced.universal@);
        }
        return Some((same, reduced, forced.existential));
    }
    let ghost e = forced.existential@;
    match force(prefix, &reduced, &forced) {
        None => {
            proof {
                assert forall|a: Assignment| !#[trigger] qbf(p, m0, a) by {
                    assert(qbf(p, m0, a) == qbf(p, m, a));
                }
            }
            None
        },
        Some((rest, next)) => {
            proof {
                let n = matrix_of(next@);
                let r = prefix_of(rest@);
                lemma_parts_trans(m0, m, n);
                assert forall|a: Assignment| #[trigger] qbf(p, m0, a) == qbf(r, n, a) by {
                    assert(qbf(p, m0, a) == qbf(p, m, a));
                }
                assert forall|b: Assignment| #[trigger] matrix_true(b, n) && cube_true(b, e) implies matrix_true(b, m0) by {
                    assert(matrix_true(b, m));
                }
            }
            Some((rest, next, forced.existential))
        },
    }
}

/// Makes the forced literals of a round true and takes their variables out
/// of the blocks; `None` when a clause becomes empty.
#[verifier::rlimit(60)]
fn force(prefix: &Vec<(QuantTy, Vec<Var>)>, matrix: &Vec<Vec<Lit>>, forced: &Forced) -> (result: Option<(Vec<(QuantTy, Vec<Var>)>, Vec<Vec<Lit>>)>)
    requires
        prefix_distinct(prefix_of(prefix@)),
        closed_formula(prefix_of(prefix@), matrix_of(matrix@)),
        forced.wf(prefix_of(prefix@), matrix_of(matrix@)),
        consistent(forced.existential@),
        consistent(forced.universal@),
        forced.existential@.len() > 0 || forced.universal@.len() > 0,
    ensures
        match result {
            None => forall|a: Assignment| !#[trigger] qbf(prefix_of(prefix@), matrix_of(matrix@), a),
            Some((r, n)) => {
                let p = prefix_of(prefix@);
                let m = matrix_of(matrix@);
                let e = forced.existential@;
                &&& prefix_distinct(prefix_of(r@))
                &&& closed_formula(prefix_of(r@), matrix_of(n@))
                &&& forall|a: Assignment| #[trigger] qbf(p, m, a) == qbf(prefix_of(r@), matrix_of(n@), a)
                &&& forall|b: Assignment| #[trigger] matrix_true(b, matrix_of(n@)) && cube_true(b, e) ==> matrix_true(b, m)
                &&& forall|x: Var| #[trigger] clause_mentions(e, x) ==> bound_by(p, QuantTy::Exists, x) && !bound(prefix_of(r@), x)
                    && !mentions(matrix_of(n@), x)
                &&& forall|q: QuantTy, x: Var| #[trigger] bound_by(prefix_of(r@), q, x) ==> bound_by(p, q, x)
                &&& forall|x: Var| #[trigger] bound(prefix_of(r@), x) ==> bound(p, x)
                &&& forall|x: Var| #[trigger] mentions(matrix_of(n@), x) ==> mentions(m, x)
                &&& parts_of(m, matrix_of(n@))
                &&& sub_blocks(p, prefix_of(r@))
                &&& size_of(matrix_of(n@)) < size_of(m)
            },
        },
{
    let ghost p = prefix_of(prefix@);
    let ghost m = matrix_of(matrix@);
    let mut set = LitSet::from_lits(&forced.existential);
    let ghost first = set@;
    let mut k: usize = 0;
    while k < forced.universal.len()
        invariant
            k <= forced.universal@.len(),
            forall|l: Lit| #[trigger] first.contains(l) <==> forced.existential@.contains(l),
            forall|l: Lit| #[trigger] set@.contains(l) <==> first.contains(l) || forced.universal@.take(k as int).contains(l),
        decreases forced.universal.len() - k,
    {
        let lit = forced.universal[k];
        set.insert(lit);
        proof {
            let part = forced.universal@.take(k as int);
            assert(forced.universal@.take(k as int + 1) =~= part.push(lit));
            assert forall|l: Lit| #[trigger] forced.universal@.take(k as int + 1).contains(l) <==> part.contains(l) || l == lit by {
                crate::datastructure::lemma_push_contains(part, lit, l);
            }
        }
        k += 1;
    }
    assert(forced.universal@.take(forced.universal@.len() as int) =~= forced.universal@);
    let (next, empty) = apply_forced(matrix, &set);
    let ghost n = matrix_of(next@);
    proof {
        lemma_forced_touch(p, m, *forced, set@);
        assert(closed_formula(p, m));
        lemma_applied(p, m, n, *forced, set@);
    }
    if empty {
        proof {
            assert forall|a: Assignment| !#[trigger] qbf(p, m, a) by {
                assert(qbf(p, m, a) == qbf(p, n, a));
                if qbf(p, n, a) {
                    let b = lemma_has_model(p, n, a);
                    let i = choose|i: int| 0 <= i < n.len() && n[i] == Seq::<Lit>::empty();
                    assert(clause_true(b, n[i]));
                }
            }
        }
        return None;
    }
    let mut gone = VarSet::new();
    let ghost e = forced.existential@;
    let ghost u = forced.universal@;
    add_vars(&mut gone, &forced.existential);
    add_vars(&mut gone, &forced.universal);
    let rest = retain_vars(prefix, &gone, false);
    proof {
        let r = prefix_of(rest@);
        assert forall|i: int, x: Var| 0 <= i < p.len() && #[trigger] r[i].1.contains(x) implies p[i].1.contains(x) by {
            assert(rest@[i].1@.contains(x));
        }
        assert forall|i: int, x: Var| 0 <= i < p.len() && #[trigger] p[i].1.contains(x) && mentions(n, x) implies r[i].1.contains(x) by {
            assert(rest@[i].1@.contains(x) <==> prefix@[i].1@.contains(x) && gone@.contains(x) == false);
        }
        assert forall|i: int| 0 <= i < p.len() implies (#[trigger] p[i]).0 == r[i].0 by {
            assert(rest@[i].0 == prefix@[i].0);
        }
        assert(drops_unmentioned(p, r, n));
        lemma_drops_bound(p, r, n);
        assert forall|a: Assignment| #[trigger] qbf(p, m, a) == qbf(r, n, a) by {
            lemma_drop_unmentioned(p, r, n, a);
            assert(qbf(p, m, a) == qbf(p, n, a));
        }
        assert forall|x: Var| #[trigger] clause_mentions(e, x) implies bound_by(p, QuantTy::Exists, x) && !bound(r, x) && !mentions(n, x) by {
            let i = choose|i: int| 0 <= i < e.len() && (#[trigger] e[i]).v() == x;
            assert(forces_existential(p, m, e[i]));
            lemma_occurs_bound(p, m, e[i]);
            let k = choose|k: int| 0 <= k < p.len() && (#[trigger] p[k]).1.contains(x);
            assert(p[k].0 == QuantTy::Exists);
            if bound(r, x) {
                let h = choose|h: int| 0 <= h < r.len() && (#[trigger] r[h]).1.contains(x);
                assert(rest@[h].1@.contains(x));
            }
        }
    }
    Some((rest, next))
}

/// Literals that are forced occur, or their negations do.
proof fn lemma_forced_touch(p: Prefix, m: Matrix, forced: Forced, f: Set<Lit>)
    requires
        forced.wf(p, m),
        forced_set(forced, f),
        forced.existential@.len() > 0 || forced.universal@.len() > 0,
    ensures
        exists|i: int| 0 <= i < m.len() && touched(#[trigger] m[i], f),
{
    if forced.existential@.len() > 0 {
        let l = forced.existential@[0];
        assert(forced.existential@.contains(l));
        assert(forced.contains(l));
        assert(forces_existential(p, m, l));
        let i = choose|i: int| 0 <= i < m.len() && (#[trigger] m[i]).contains(l);
        let j = choose|j: int| 0 <= j < m[i].len() && m[i][j] == l;
        assert(f.contains(m[i][j]));
        assert(touched(m[i], f));
    } else {
        let l = forced.universal@[0];
        assert(forced.universal@.contains(l));
        assert(forced.contains(l));
        assert(forces_universal(p, m, l));
        let i = choose|i: int| 0 <= i < m.len() && (#[trigger] m[i]).contains(l.neg());
        let j = choose|j: int| 0 <= j < m[i].len() && m[i][j] == l.neg();
        assert(f.contains(m[i][j].neg()));
        assert(touched(m[i], f));
    }
}

/// Adds the variables of the literals to the set.
fn add_vars(set: &mut VarSet, lits: &Vec<Lit>)
    ensures
        forall|x: Var| #[trigger] final(set)@.contains(x) <==> old(set)@.contains(x) || clause_mentions(lits@, x),
{
    let ghost before = set@;
    let mut k: usize = 0;
    while k < lits.len()
        invariant
            k <= lits@.len(),
            forall|x: Var| #[trigger] set@.contains(x) <==> before.contains(x) || clause_mentions(lits@.take(k as int), x),
        decreases lits.len() - k,
    {
        let lit = lits[k];
        set.insert(lit.var());
        proof {
            let part = lits@.take(k as int);
            assert(lits@.take(k as int + 1) =~= part.push(lit));
            assert forall|x: Var| #[trigger] clause_mentions(lits@.take(k as int + 1), x) <==> clause_mentions(part, x) || x == lit.v() by {
                crate::qcnf::lemma_clause_push(part, lit, x);
            }
        }
        k += 1;
    }
    assert(lits@.take(lits@.len() as int) =~= lits@);
}

/// A copy of a prefix.
pub(crate) fn copy_prefix(prefix: &Vec<(QuantTy, Vec<Var>)>) -> (copy: Vec<(QuantTy, Vec<Var>)>)
    ensures
        prefix_of(copy@) == prefix_of(prefix@),
        copy@.len() == prefix@.len(),
{
    let mut copy: Vec<(QuantTy, Vec<Var>)> = Vec::new();
    let mut k: usize = 0;
    while k < prefix.len()
        invariant
            k <= prefix@.len(),
            copy@.len() == k,
            forall|i: int| 0 <= i < k ==> (#[trigger] copy@[i]).0 == prefix@[i].0 && copy@[i].1@ == prefix@[i].1@,
        decreases prefix.len() - k,
    {
        copy.push((prefix[k].0, copy_vars(&prefix[k].1)));
        k += 1;
    }
    assert(prefix_of(copy@) =~= prefix_of(prefix@));
    copy
}

} // verus!
