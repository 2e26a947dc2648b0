//! The parity chain: a family of 2QBF instances in which every existential
//! variable is uniquely determined.
use crate::incremental::lemma_concat_true;
use crate::literal::{lemma_lit_of, lemma_var_index, lemma_var_of, lit_of, var_of, Lit, Var};
use crate::qcir::formula::{push_clause, push_three};
use crate::qcnf::{matrix_of, prefix_of, QCNF};
use crate::quantifier::QuantTy;
use crate::semantics::{
    agree_off, clause_true, formula_true, lemma_exists_block, lemma_forall_block, lit_true, matrix_true, prefix_distinct, qbf, with_block,
    Assignment, Matrix, Prefix,
};
use vstd::prelude::*;

verus! {

broadcast use crate::literal::group_literal;

/// The longest chain whose variables can be numbered.
pub const CHAIN_LIMIT: u32 = 1_073_741_823;

/// The literal of a variable number.
pub open spec fn numbered(number: int, polarity: bool) -> Lit {
    lit_of(var_of(number), polarity)
}

/// The variables from a number on.
pub open spec fn numbered_vars(from: int, count: int) -> Seq<Var> {
    Seq::new(count as nat, |i: int| var_of(from + i))
}

/// The clauses by which the first link equals the first input.
pub open spec fn first_link(n: int) -> Matrix {
    seq![seq![numbered(1, false), numbered(n + 1, true)], seq![numbered(1, true), numbered(n + 1, false)]]
}

/// The clauses by which a later link is the exclusive or of the link
/// before it and its input.
pub open spec fn next_link(n: int, i: int) -> Matrix {
    seq![
        seq![numbered(n + i - 1, true), numbered(i, true), numbered(n + i, false)],
        seq![numbered(n + i - 1, false), numbered(i, false), numbered(n + i, false)],
        seq![numbered(n + i - 1, false), numbered(i, true), numbered(n + i, true)],
        seq![numbered(n + i - 1, true), numbered(i, false), numbered(n + i, true)],
    ]
}

/// The clauses of the first links.
pub open spec fn links(n: int, count: int) -> Matrix
    decreases count,
{
    if count <= 1 {
        first_link(n)
    } else {
        links(n, count - 1) + next_link(n, count)
    }
}

/// The clauses of a chain, with its last link forced to be true on demand.
pub open spec fn chain_clauses(n: int, forced: bool) -> Matrix {
    if forced {
        links(n, n).push(seq![numbered(2 * n, true)])
    } else {
        links(n, n)
    }
}

/// The inputs are universal and the links existential.
pub open spec fn chain_prefix(n: int) -> Prefix {
    seq![(QuantTy::Forall, numbered_vars(1, n)), (QuantTy::Exists, numbered_vars(n + 1, n))]
}

/// The parity of the first inputs.
pub open spec fn parity_of(a: Assignment, count: int) -> bool
    decreases count,
{
    if count <= 0 {
        false
    } else {
        parity_of(a, count - 1) != a(var_of(count))
    }
}

proof fn lemma_number(number: int)
    requires
        1 <= number <= 2 * CHAIN_LIMIT,
    ensures
        var_of(number).dimacs() == number,
        numbered(number, true).v() == var_of(number),
        numbered(number, true).pos(),
        numbered(number, false).v() == var_of(number),
        !numbered(number, false).pos(),
{
    lemma_var_index(number - 1);
    lemma_lit_of(var_of(number), true);
    lemma_lit_of(var_of(number), false);
}

proof fn lemma_two(a: Assignment, l: Lit, m: Lit)
    ensures
        clause_true(a, seq![l, m]) == (lit_true(a, l) || lit_true(a, m)),
{
    let c = seq![l, m];
    assert(c[0] == l && c[1] == m);
}

proof fn lemma_three(a: Assignment, l: Lit, m: Lit, n: Lit)
    ensures
        clause_true(a, seq![l, m, n]) == (lit_true(a, l) || lit_true(a, m) || lit_true(a, n)),
{
    let c = seq![l, m, n];
    assert(c[0] == l && c[1] == m && c[2] == n);
}

proof fn lemma_first_link(n: int, a: Assignment)
    requires
        1 <= n <= CHAIN_LIMIT,
    ensures
        matrix_true(a, first_link(n)) == (a(var_of(n + 1)) == a(var_of(1))),
{
    lemma_number(1);
    lemma_number(n + 1);
    lemma_two(a, numbered(1, false), numbered(n + 1, true));
    lemma_two(a, numbered(1, true), numbered(n + 1, false));
    let m = first_link(n);
    assert(m.len() == 2);
    assert(matrix_true(a, m) == (clause_true(a, m[0]) && clause_true(a, m[1])));
}

proof fn lemma_next_link(n: int, i: int, a: Assignment)
    requires
        2 <= i <= n <= CHAIN_LIMIT,
    ensures
        matrix_true(a, next_link(n, i)) == (a(var_of(n + i)) == (a(var_of(n + i - 1)) != a(var_of(i)))),
{
    lemma_number(i);
    lemma_number(n + i);
    lemma_number(n + i - 1);
    lemma_three(a, numbered(n + i - 1, true), numbered(i, true), numbered(n + i, false));
    lemma_three(a, numbered(n + i - 1, false), numbered(i, false), numbered(n + i, false));
    lemma_three(a, numbered(n + i - 1, false), numbered(i, true), numbered(n + i, true));
    lemma_three(a, numbered(n + i - 1, true), numbered(i, false), numbered(n + i, true));
    let m = next_link(n, i);
    assert(m.len() == 4);
    assert(matrix_true(a, m) == (clause_true(a, m[0]) && clause_true(a, m[1]) && clause_true(a, m[2]) && clause_true(a, m[3])));
}

/// Every link is determined: the clauses hold exactly where each link is
/// the parity of the inputs up to it.
pub proof fn law_links_are_parities(n: int, count: int, a: Assignment)
    requires
        1 <= count <= n <= CHAIN_LIMIT,
    ensures
        matrix_true(a, links(n, count)) == (forall|i: int| 1 <= i <= count ==> a(var_of(n + i)) == #[trigger] parity_of(a, i)),
    decreases count,
{
    if count == 1 {
        lemma_first_link(n, a);
        assert(parity_of(a, 0) == false);
        assert(parity_of(a, 1) == a(var_of(1)));
    } else {
        law_links_are_parities(n, count - 1, a);
        lemma_next_link(n, count, a);
        lemma_concat_true(a, links(n, count - 1), next_link(n, count));
        assert(parity_of(a, count) == (parity_of(a, count - 1) != a(var_of(count))));
        assert(n + (count - 1) == n + count - 1);
    }
}

pub(crate) proof fn lemma_same_parity(a: Assignment, b: Assignment, count: int)
    requires
        forall|i: int| 1 <= i <= count ==> a(#[trigger] var_of(i)) == b(var_of(i)),
    ensures
        parity_of(a, count) == parity_of(b, count),
    decreases count,
{
    if count > 0 {
        lemma_same_parity(a, b, count - 1);
    }
}

proof fn lemma_even(a: Assignment, count: int)
    requires
        forall|i: int| 1 <= i <= count ==> !a(#[trigger] var_of(i)),
    ensures
        !parity_of(a, count),
    decreases count,
{
    if count > 0 {
        lemma_even(a, count - 1);
    }
}

proof fn lemma_numbered_contains(from: int, count: int, x: Var)
    requires
        1 <= from,
        0 <= count,
        from + count <= 2 * CHAIN_LIMIT + 1,
    ensures
        numbered_vars(from, count).contains(x) == (from <= x.dimacs() < from + count),
{
    let vars = numbered_vars(from, count);
    lemma_var_of(x);
    if from <= x.dimacs() < from + count {
        assert(vars[x.dimacs() - from] == x);
    }
    if vars.contains(x) {
        let i = choose|i: int| 0 <= i < vars.len() && vars[i] == x;
        lemma_number(from + i);
    }
}

/// A chain is true, and forcing its last link makes it false: inputs that
/// are all false leave every link false.
pub proof fn law_chain_truth(n: int, forced: bool)
    requires
        1 <= n <= CHAIN_LIMIT,
    ensures
        formula_true(chain_prefix(n), chain_clauses(n, forced)) == !forced,
{
    let m = chain_clauses(n, forced);
    let p = chain_prefix(n);
    let outer = numbered_vars(1, n);
    let inner = numbered_vars(n + 1, n);
    let none: Prefix = Seq::empty();
    let rest = with_block(QuantTy::Exists, inner, none);
    assert(p =~= with_block(QuantTy::Forall, outer, rest));
    if forced {
        assert forall|a: Assignment| !#[trigger] qbf(p, m, a) by {
            lemma_forall_block(outer, rest, m, a);
            let b: Assignment = |x: Var| !(1 <= x.dimacs() <= n) && a(x);
            assert(agree_off(a, b, outer)) by {
                assert forall|x: Var| !outer.contains(x) implies a(x) == #[trigger] b(x) by {
                    lemma_numbered_contains(1, n, x);
                }
            }
            lemma_exists_block(inner, none, m, b);
            assert forall|c: Assignment| #[trigger] agree_off(b, c, inner) implies !qbf(none, m, c) by {
                assert forall|i: int| 1 <= i <= n implies !c(#[trigger] var_of(i)) by {
                    lemma_number(i);
                    lemma_numbered_contains(n + 1, n, var_of(i));
                    assert(b(var_of(i)) == c(var_of(i)));
                }
                lemma_even(c, n);
                law_links_are_parities(n, n, c);
                lemma_number(2 * n);
                if matrix_true(c, m) {
                    let l = links(n, n);
                    assert forall|i: int| 0 <= i < l.len() implies clause_true(c, #[trigger] l[i]) by {
                        assert(m[i] == l[i]);
                    }
                    assert(matrix_true(c, l));
                    assert(c(var_of(n + n)) == parity_of(c, n));
                    let unit = seq![numbered(2 * n, true)];
                    assert(m[l.len() as int] == unit);
                    assert(clause_true(c, unit));
                    let k = choose|k: int| 0 <= k < unit.len() && lit_true(c, #[trigger] unit[k]);
                    assert(unit[k] == numbered(2 * n, true));
                    assert(n + n == 2 * n);
                    assert(false);
                }
            }
        }
    } else {
        let a: Assignment = |x: Var| false;
        lemma_forall_block(outer, rest, m, a);
        assert forall|b: Assignment| #[trigger] agree_off(a, b, outer) implies qbf(rest, m, b) by {
            lemma_exists_block(inner, none, m, b);
            let c: Assignment = |x: Var|
                if n < x.dimacs() <= 2 * n {
                    parity_of(b, x.dimacs() - n)
                } else {
                    b(x)
                };
            assert forall|x: Var| !inner.contains(x) implies b(x) == #[trigger] c(x) by {
                lemma_numbered_contains(n + 1, n, x);
            }
            assert(agree_off(b, c, inner));
            assert forall|i: int| 1 <= i <= n implies c(var_of(n + i)) == #[trigger] parity_of(c, i) by {
                lemma_number(n + i);
                assert forall|j: int| 1 <= j <= i implies b(#[trigger] var_of(j)) == c(var_of(j)) by {
                    lemma_number(j);
                }
                lemma_same_parity(b, c, i);
            }
            law_links_are_parities(n, n, c);
            assert(qbf(none, m, c));
        }
        assert(qbf(p, m, a));
    }
}

/// The variables of two blocks numbered in a row are distinct.
pub(crate) proof fn lemma_blocks_distinct(k: int, m: int)
    requires
        0 <= k,
        0 <= m,
        k + m <= 2 * CHAIN_LIMIT,
    ensures
        prefix_distinct(seq![(QuantTy::Forall, numbered_vars(1, k)), (QuantTy::Exists, numbered_vars(k + 1, m))]),
{
    let p = seq![(QuantTy::Forall, numbered_vars(1, k)), (QuantTy::Exists, numbered_vars(k + 1, m))];
    assert forall|i: int| 0 <= i < p.len() implies (#[trigger] p[i]).1.no_duplicates() by {
        let (from, count) = if i == 0 {
            (1int, k)
        } else {
            (k + 1, m)
        };
        let vars = numbered_vars(from, count);
        assert(p[i].1 == vars);
        assert forall|j: int, l: int| 0 <= j < vars.len() && 0 <= l < vars.len() && j != l implies vars[j] != vars[l] by {
            lemma_number(from + j);
            lemma_number(from + l);
        }
    }
    assert forall|i: int, j: int, x: Var| 0 <= i < j < p.len() && #[trigger] p[i].1.contains(x) implies !#[trigger] p[j].1.contains(x) by {
        lemma_numbered_contains(1, k, x);
        lemma_numbered_contains(k + 1, m, x);
    }
}

pub(crate) fn literal(number: u32, polarity: bool) -> (lit: Lit)
    requires
        1 <= number <= 2 * CHAIN_LIMIT,
    ensures
        lit == numbered(number as int, polarity),
{
    let lit = Lit::from_var(Var::from_dimacs(number as i32), polarity);
    proof {
        lemma_number(number as int);
        lemma_var_of(lit.v());
        crate::literal::lemma_lit_ext(lit, numbered(number as int, polarity));
    }
    lit
}

pub(crate) fn block(from: u32, count: u32) -> (vars: Vec<Var>)
    requires
        1 <= from,
        from + count <= 2 * CHAIN_LIMIT + 1,
    ensures
        vars@ == numbered_vars(from as int, count as int),
{
    let mut vars: Vec<Var> = Vec::new();
    let mut k: u32 = 0;
    while k < count
        invariant
            k <= count,
            1 <= from,
            from + count <= 2 * CHAIN_LIMIT + 1,
            vars@.len() == k,
            forall|i: int| 0 <= i < k ==> #[trigger] vars@[i] == var_of(from + i),
        decreases count - k,
    {
        let x = Var::from_dimacs((from + k) as i32);
        proof {
            lemma_var_of(x);
        }
        vars.push(x);
        k += 1;
    }
    assert(vars@ =~= numbered_vars(from as int, count as int));
    vars
}

/// The parity chain over `n` universal inputs: the first link equals the
/// first input, and every later one is the exclusive or of the link before
/// it and its input. With `unsat` the last link is forced to be true,
/// which no chain can be for every input.
pub fn parity(n: u32, unsat: bool) -> (qcnf: QCNF)
    requires
        1 <= n <= CHAIN_LIMIT,
    ensures
        qcnf.wf(),
        qcnf.blocks() == chain_prefix(n as int),
        qcnf.clauses() == chain_clauses(n as int, unsat),
        qcnf.truth() == !unsat,
{
    let mut matrix: Vec<Vec<Lit>> = Vec::new();
    let first: Vec<Lit> = vec![literal(1, false), literal(n + 1, true)];
    assert(first@ =~= first_link(n as int)[0]);
    push_clause(&mut matrix, first);
    let second: Vec<Lit> = vec![literal(1, true), literal(n + 1, false)];
    assert(second@ =~= first_link(n as int)[1]);
    push_clause(&mut matrix, second);
    assert(matrix_of(matrix@) =~= links(n as int, 1));
    let mut i: u32 = 1;
    while i < n
        invariant
            1 <= i <= n <= CHAIN_LIMIT,
            matrix_of(matrix@) == links(n as int, i as int),
        decreases n - i,
    {
        let ghost before = matrix_of(matrix@);
        i += 1;
        let (input, link, last) = (i, n + i, n + i - 1);
        push_three(&mut matrix, literal(last, true), literal(input, true), literal(link, false));
        push_three(&mut matrix, literal(last, false), literal(input, false), literal(link, false));
        push_three(&mut matrix, literal(last, false), literal(input, true), literal(link, true));
        push_three(&mut matrix, literal(last, true), literal(input, false), literal(link, true));
        assert(matrix_of(matrix@) =~= before + next_link(n as int, i as int));
    }
    if unsat {
        let unit: Vec<Lit> = vec![literal(2 * n, true)];
        assert(unit@ =~= seq![numbered(2 * n, true)]);
        push_clause(&mut matrix, unit);
    }
    let mut prefix: Vec<(QuantTy, Vec<Var>)> = Vec::new();
    prefix.push((QuantTy::Forall, block(1, n)));
    prefix.push((QuantTy::Exists, block(n + 1, n)));
    proof {
        let p = prefix_of(prefix@);
        assert(p =~= chain_prefix(n as int));
        law_chain_truth(n as int, unsat);
        lemma_blocks_distinct(n as int, n as int);
    }
    QCNF { prefix, matrix }
}

} // verus!
