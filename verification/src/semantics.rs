//! The meaning of quantified Boolean formulas.
//!
//! A formula is a prefix of quantifier blocks over a matrix of clauses. Its
//! truth is the value of the game in which the blocks are played from the
//! outermost to the innermost: the universal player wants a clause
//! falsified, the existential player wants every clause satisfied.
use crate::literal::{Lit, Var};
use crate::quantifier::QuantTy;
use vstd::prelude::*;

verus! {

/// A total assignment of the variables.
pub type Assignment = spec_fn(Var) -> bool;

/// A quantifier prefix, outermost block first.
pub type Prefix = Seq<(QuantTy, Seq<Var>)>;

/// A conjunction of clauses.
pub type Matrix = Seq<Seq<Lit>>;

/// The literal holds under the assignment.
pub open spec fn lit_true(a: Assignment, l: Lit) -> bool {
    a(l.v()) == l.pos()
}

/// Some literal of the clause holds.
pub open spec fn clause_true(a: Assignment, c: Seq<Lit>) -> bool {
    exists|i: int| 0 <= i < c.len() && lit_true(a, #[trigger] c[i])
}

/// Every literal of the cube holds.
pub open spec fn cube_true(a: Assignment, c: Seq<Lit>) -> bool {
    forall|i: int| 0 <= i < c.len() ==> lit_true(a, #[trigger] c[i])
}

/// Every clause of the matrix holds.
pub open spec fn matrix_true(a: Assignment, m: Matrix) -> bool {
    forall|i: int| 0 <= i < m.len() ==> clause_true(a, #[trigger] m[i])
}

/// The two assignments differ on the given variables at most.
pub open spec fn agree_off(a: Assignment, b: Assignment, vs: Seq<Var>) -> bool {
    forall|x: Var| !vs.contains(x) ==> a(x) == #[trigger] b(x)
}

/// The formula holds when the variables outside the prefix are assigned
/// by `a`.
pub open spec fn qbf(p: Prefix, m: Matrix, a: Assignment) -> bool
    decreases p.len(),
{
    if p.len() == 0 {
        matrix_true(a, m)
    } else {
        match p[0].0 {
            QuantTy::Forall => forall|b: Assignment|
                #[trigger] agree_off(a, b, p[0].1) ==> qbf(p.drop_first(), m, b),
            QuantTy::Exists => exists|b: Assignment| #[trigger]
                agree_off(a, b, p[0].1) && qbf(p.drop_first(), m, b),
        }
    }
}

/// The formula is true: free variables are existential and outermost.
pub open spec fn formula_true(p: Prefix, m: Matrix) -> bool {
    exists|a: Assignment| #[trigger] qbf(p, m, a)
}

/// The prefix binds the variable.
pub open spec fn bound(p: Prefix, x: Var) -> bool {
    exists|i: int| 0 <= i < p.len() && (#[trigger] p[i]).1.contains(x)
}

/// The prefix binds the variable in a block of the given quantifier.
pub open spec fn bound_by(p: Prefix, q: QuantTy, x: Var) -> bool {
    exists|i: int| 0 <= i < p.len() && (#[trigger] p[i]).0 == q && p[i].1.contains(x)
}

/// The clause mentions the variable.
pub open spec fn clause_mentions(c: Seq<Lit>, x: Var) -> bool {
    exists|j: int| 0 <= j < c.len() && (#[trigger] c[j]).v() == x
}

/// The matrix mentions the variable.
pub open spec fn mentions(m: Matrix, x: Var) -> bool {
    exists|i: int| 0 <= i < m.len() && clause_mentions(#[trigger] m[i], x)
}

/// No block binds a variable twice and no two blocks bind the same one.
pub open spec fn prefix_distinct(p: Prefix) -> bool {
    &&& forall|i: int| 0 <= i < p.len() ==> (#[trigger] p[i]).1.no_duplicates()
    &&& forall|i: int, j: int, x: Var|
        0 <= i < j < p.len() && #[trigger] p[i].1.contains(x) ==> !#[trigger] p[j].1.contains(x)
}

/// `b` on the given variables and `a` elsewhere.
pub open spec fn overlay(a: Assignment, b: Assignment, vs: Seq<Var>) -> Assignment {
    |x: Var| if vs.contains(x) { b(x) } else { a(x) }
}

/// The assignments differ on variables that the prefix binds at most.
pub open spec fn reach(p: Prefix, a: Assignment, b: Assignment) -> bool {
    forall|x: Var| !bound(p, x) ==> a(x) == #[trigger] b(x)
}

/// A prefix binds what its first block or its remainder binds.
pub proof fn lemma_bound_first(p: Prefix, x: Var)
    requires
        p.len() > 0,
    ensures
        bound(p, x) == (p[0].1.contains(x) || bound(p.drop_first(), x)),
{
    let r = p.drop_first();
    if bound(p, x) {
        let i = choose|i: int| 0 <= i < p.len() && (#[trigger] p[i]).1.contains(x);
        if i > 0 {
            assert(r[i - 1] == p[i]);
        }
    }
    if bound(r, x) {
        let i = choose|i: int| 0 <= i < r.len() && (#[trigger] r[i]).1.contains(x);
        assert(p[i + 1] == r[i]);
    }
}

/// A clause has the same value under assignments that agree on its
/// variables.
pub proof fn lemma_clause_coincide(c: Seq<Lit>, a: Assignment, b: Assignment)
    requires
        forall|x: Var| #[trigger] clause_mentions(c, x) ==> a(x) == b(x),
    ensures
        clause_true(a, c) == clause_true(b, c),
{
    assert forall|i: int| 0 <= i < c.len() implies lit_true(a, #[trigger] c[i]) == lit_true(
        b,
        c[i],
    ) by {
        assert(clause_mentions(c, c[i].v()));
    }
    if clause_true(a, c) {
        let i = choose|i: int| 0 <= i < c.len() && lit_true(a, #[trigger] c[i]);
        assert(lit_true(b, c[i]));
    }
    if clause_true(b, c) {
        let i = choose|i: int| 0 <= i < c.len() && lit_true(b, #[trigger] c[i]);
        assert(lit_true(a, c[i]));
    }
}

/// A matrix has the same value under assignments that agree on its
/// variables.
pub proof fn lemma_matrix_coincide(m: Matrix, a: Assignment, b: Assignment)
    requires
        forall|x: Var| #[trigger] mentions(m, x) ==> a(x) == b(x),
    ensures
        matrix_true(a, m) == matrix_true(b, m),
{
    assert forall|i: int| 0 <= i < m.len() implies clause_true(a, #[trigger] m[i]) == clause_true(
        b,
        m[i],
    ) by {
        assert forall|x: Var| #[trigger] clause_mentions(m[i], x) implies a(x) == b(x) by {
            assert(mentions(m, x));
        }
        lemma_clause_coincide(m[i], a, b);
    }
}

proof fn lemma_coincide_dir(p: Prefix, m: Matrix, a: Assignment, b: Assignment)
    requires
        forall|x: Var| #[trigger] mentions(m, x) && !bound(p, x) ==> a(x) == b(x),
        qbf(p, m, a),
    ensures
        qbf(p, m, b),
    decreases p.len(),
{
    if p.len() == 0 {
        lemma_matrix_coincide(m, a, b);
    } else {
        let vs = p[0].1;
        let r = p.drop_first();
        match p[0].0 {
            QuantTy::Forall => {
                assert forall|c: Assignment| #[trigger] agree_off(b, c, vs) implies qbf(r, m, c) by {
                    let d = overlay(a, c, vs);
                    assert(agree_off(a, d, vs));
                    assert(qbf(r, m, d));
                    assert forall|x: Var| #[trigger] mentions(m, x) && !bound(r, x) implies d(x)
                        == c(x) by {
                        lemma_bound_first(p, x);
                    }
                    lemma_coincide_dir(r, m, d, c);
                }
            },
            QuantTy::Exists => {
                let c = choose|c: Assignment| #[trigger] agree_off(a, c, vs) && qbf(r, m, c);
                let d = overlay(b, c, vs);
                assert(agree_off(b, d, vs));
                assert forall|x: Var| #[trigger] mentions(m, x) && !bound(r, x) implies c(x)
                    == d(x) by {
                    lemma_bound_first(p, x);
                }
                lemma_coincide_dir(r, m, c, d);
            },
        }
    }
}

/// The value of a formula depends on its free variables alone.
pub proof fn lemma_coincide(p: Prefix, m: Matrix, a: Assignment, b: Assignment)
    requires
        forall|x: Var| #[trigger] mentions(m, x) && !bound(p, x) ==> a(x) == b(x),
    ensures
        qbf(p, m, a) == qbf(p, m, b),
{
    if qbf(p, m, a) {
        lemma_coincide_dir(p, m, a, b);
    }
    if qbf(p, m, b) {
        lemma_coincide_dir(p, m, b, a);
    }
}

/// A step of the game stays within what the prefix binds.
pub proof fn lemma_reach_step(p: Prefix, a: Assignment, b: Assignment, c: Assignment)
    requires
        p.len() > 0,
        agree_off(a, b, p[0].1),
        reach(p.drop_first(), b, c),
    ensures
        reach(p, a, c),
{
    assert forall|x: Var| !bound(p, x) implies a(x) == #[trigger] c(x) by {
        lemma_bound_first(p, x);
        assert(a(x) == b(x));
    }
}

/// A matrix that follows wherever the game can lead is won whenever the
/// original one is.
pub proof fn lemma_mono(p: Prefix, m: Matrix, n: Matrix, a: Assignment)
    requires
        forall|b: Assignment| #[trigger] reach(p, a, b) && matrix_true(b, m) ==> matrix_true(b, n),
        qbf(p, m, a),
    ensures
        qbf(p, n, a),
    decreases p.len(),
{
    if p.len() == 0 {
        assert(reach(p, a, a));
    } else {
        let vs = p[0].1;
        let r = p.drop_first();
        assert forall|b: Assignment| #[trigger] agree_off(a, b, vs) && qbf(r, m, b) implies qbf(
            r,
            n,
            b,
        ) by {
            assert forall|c: Assignment| #[trigger] reach(r, b, c) && matrix_true(
                c,
                m,
            ) implies matrix_true(c, n) by {
                lemma_reach_step(p, a, b, c);
            }
            lemma_mono(r, m, n, b);
        }
    }
}

/// A formula that holds has a satisfying assignment.
pub proof fn lemma_has_model(p: Prefix, m: Matrix, a: Assignment) -> (b: Assignment)
    requires
        qbf(p, m, a),
    ensures
        reach(p, a, b),
        matrix_true(b, m),
    decreases p.len(),
{
    if p.len() == 0 {
        a
    } else {
        let vs = p[0].1;
        let r = p.drop_first();
        let b = match p[0].0 {
            QuantTy::Forall => a,
            QuantTy::Exists => choose|b: Assignment| #[trigger]
                agree_off(a, b, vs) && qbf(r, m, b),
        };
        assert(agree_off(a, b, vs));
        let c = lemma_has_model(r, m, b);
        lemma_reach_step(p, a, b, c);
        c
    }
}

/// `a` with one variable set.
pub open spec fn set_var(a: Assignment, x: Var, value: bool) -> Assignment {
    |y: Var| if y == x { value } else { a(y) }
}

/// A prefix with one more block in front.
pub open spec fn with_block(q: QuantTy, vs: Seq<Var>, t: Prefix) -> Prefix {
    seq![(q, vs)] + t
}

/// The first block of an extended prefix can be taken off again.
pub proof fn lemma_with_block(q: QuantTy, vs: Seq<Var>, t: Prefix)
    ensures
        with_block(q, vs, t).len() == t.len() + 1,
        with_block(q, vs, t)[0] == (q, vs),
        with_block(q, vs, t)[0].0 == q,
        with_block(q, vs, t)[0].1 == vs,
        with_block(q, vs, t).drop_first() == t,
{
    assert(with_block(q, vs, t).drop_first() =~= t);
}

/// What an outermost universal block means.
pub proof fn lemma_forall_block(vs: Seq<Var>, t: Prefix, m: Matrix, a: Assignment)
    ensures
        qbf(with_block(QuantTy::Forall, vs, t), m, a) == (forall|b: Assignment|
            #[trigger] agree_off(a, b, vs) ==> qbf(t, m, b)),
{
    lemma_with_block(QuantTy::Forall, vs, t);
    let p = with_block(QuantTy::Forall, vs, t);
    assert(p[0].1 == vs);
    assert(p.drop_first() == t);
    if qbf(p, m, a) {
        assert forall|b: Assignment| #[trigger] agree_off(a, b, vs) implies qbf(t, m, b) by {
            assert(agree_off(a, b, p[0].1));
        }
    }
}

/// What an outermost existential block means.
pub proof fn lemma_exists_block(vs: Seq<Var>, t: Prefix, m: Matrix, a: Assignment)
    ensures
        qbf(with_block(QuantTy::Exists, vs, t), m, a) == (exists|b: Assignment|
            #[trigger] agree_off(a, b, vs) && qbf(t, m, b)),
{
    lemma_with_block(QuantTy::Exists, vs, t);
    let p = with_block(QuantTy::Exists, vs, t);
    assert(p[0].1 == vs);
    assert(p.drop_first() == t);
    if exists|b: Assignment| #[trigger] agree_off(a, b, vs) && qbf(t, m, b) {
        let b = choose|b: Assignment| #[trigger] agree_off(a, b, vs) && qbf(t, m, b);
        assert(agree_off(a, b, p[0].1));
    }
}

/// An empty block quantifies nothing.
pub proof fn lemma_empty_block(q: QuantTy, t: Prefix, m: Matrix, a: Assignment)
    ensures
        qbf(with_block(q, Seq::empty(), t), m, a) == qbf(t, m, a),
{
    let e = Seq::<Var>::empty();
    lemma_forall_block(e, t, m, a);
    lemma_exists_block(e, t, m, a);
    assert(agree_off(a, a, e));
    assert forall|b: Assignment| #[trigger] agree_off(a, b, e) implies b == a by {
        assert forall|x: Var| a(x) == #[trigger] b(x) by {
            assert(!e.contains(x));
        }
        assert(b =~= a);
    }
}

/// Two adjacent blocks of one quantifier are one block.
pub proof fn lemma_merge_blocks(
    q: QuantTy,
    v1: Seq<Var>,
    v2: Seq<Var>,
    t: Prefix,
    m: Matrix,
    a: Assignment,
)
    ensures
        qbf(with_block(q, v1 + v2, t), m, a) == qbf(with_block(q, v1, with_block(q, v2, t)), m, a),
{
    let v = v1 + v2;
    let inner = with_block(q, v2, t);
    lemma_forall_block(v, t, m, a);
    lemma_exists_block(v, t, m, a);
    lemma_forall_block(v1, inner, m, a);
    lemma_exists_block(v1, inner, m, a);
    assert forall|b: Assignment| #[trigger] qbf(inner, m, b) == match q {
        QuantTy::Forall => forall|c: Assignment| #[trigger] agree_off(b, c, v2) ==> qbf(t, m, c),
        QuantTy::Exists => exists|c: Assignment| #[trigger] agree_off(b, c, v2) && qbf(t, m, c),
    } by {
        lemma_forall_block(v2, t, m, b);
        lemma_exists_block(v2, t, m, b);
    }
    assert forall|x: Var| v.contains(x) <==> v1.contains(x) || v2.contains(x) by {
        lemma_concat_contains(v1, v2, x);
    }
    assert forall|b: Assignment, c: Assignment| #[trigger]
        agree_off(a, b, v1) && #[trigger] agree_off(b, c, v2) implies agree_off(a, c, v) by {
        assert forall|x: Var| !v.contains(x) implies a(x) == #[trigger] c(x) by {
            assert(a(x) == b(x));
        }
    }
    assert forall|c: Assignment| #[trigger] agree_off(a, c, v) implies agree_off(
        a,
        overlay(a, c, v1),
        v1,
    ) && agree_off(overlay(a, c, v1), c, v2) by {}
    match q {
        QuantTy::Forall => {
            if qbf(with_block(q, v, t), m, a) {
                assert forall|b: Assignment| #[trigger] agree_off(a, b, v1) implies qbf(inner, m, b) by {
                    assert forall|c: Assignment| #[trigger] agree_off(b, c, v2) implies qbf(t, m, c) by {
                        assert(agree_off(a, c, v));
                    }
                }
            }
            if qbf(with_block(q, v1, inner), m, a) {
                assert forall|c: Assignment| #[trigger] agree_off(a, c, v) implies qbf(t, m, c) by {
                    let b = overlay(a, c, v1);
                    assert(agree_off(a, b, v1));
                    assert(qbf(inner, m, b));
                    assert(agree_off(b, c, v2));
                }
            }
        },
        QuantTy::Exists => {
            if qbf(with_block(q, v, t), m, a) {
                let c = choose|c: Assignment| #[trigger] agree_off(a, c, v) && qbf(t, m, c);
                let b = overlay(a, c, v1);
                assert(agree_off(b, c, v2));
                assert(qbf(inner, m, b));
                assert(agree_off(a, b, v1));
            }
            if qbf(with_block(q, v1, inner), m, a) {
                let b = choose|b: Assignment| #[trigger] agree_off(a, b, v1) && qbf(inner, m, b);
                let c = choose|c: Assignment| #[trigger] agree_off(b, c, v2) && qbf(t, m, c);
                assert(agree_off(a, c, v));
            }
        },
    }
}

/// A block of one variable tries both values.
pub proof fn lemma_single_block(q: QuantTy, x: Var, t: Prefix, m: Matrix, a: Assignment)
    ensures
        qbf(with_block(q, seq![x], t), m, a) == match q {
            QuantTy::Forall => qbf(t, m, set_var(a, x, false)) && qbf(t, m, set_var(a, x, true)),
            QuantTy::Exists => qbf(t, m, set_var(a, x, false)) || qbf(t, m, set_var(a, x, true)),
        },
{
    let v = seq![x];
    lemma_forall_block(v, t, m, a);
    lemma_exists_block(v, t, m, a);
    assert(v[0] == x);
    assert forall|y: Var| v.contains(y) <==> y == x by {}
    let f = set_var(a, x, false);
    let s = set_var(a, x, true);
    assert(agree_off(a, f, v));
    assert(agree_off(a, s, v));
    assert forall|b: Assignment| #[trigger] agree_off(a, b, v) implies b == f || b == s by {
        if b(x) {
            assert forall|y: Var| s(y) == #[trigger] b(y) by {}
            assert(b =~= s);
        } else {
            assert forall|y: Var| f(y) == #[trigger] b(y) by {}
            assert(b =~= f);
        }
    }
}

/// Formulas that agree everywhere agree behind any prefix.
pub proof fn lemma_congruence(h: Prefix, t: Prefix, m: Matrix, u: Prefix, n: Matrix, a: Assignment)
    requires
        forall|b: Assignment| #[trigger] qbf(t, m, b) == qbf(u, n, b),
    ensures
        qbf(h + t, m, a) == qbf(h + u, n, a),
    decreases h.len(),
{
    if h.len() == 0 {
        assert(h + t =~= t);
        assert(h + u =~= u);
        assert(qbf(t, m, a) == qbf(u, n, a));
    } else {
        let r = h.drop_first();
        assert((h + t).drop_first() =~= r + t);
        assert((h + u).drop_first() =~= r + u);
        assert forall|b: Assignment| #[trigger] agree_off(a, b, h[0].1) implies qbf(r + t, m, b)
            == qbf(r + u, n, b) by {
            lemma_congruence(r, t, m, u, n, b);
        }
    }
}

/// A concatenation contains what one of its parts contains.
pub proof fn lemma_concat_contains<T>(s: Seq<T>, t: Seq<T>, x: T)
    ensures
        (s + t).contains(x) <==> s.contains(x) || t.contains(x),
{
    let u = s + t;
    if s.contains(x) {
        let i = choose|i: int| 0 <= i < s.len() && s[i] == x;
        assert(u[i] == x);
    }
    if t.contains(x) {
        let i = choose|i: int| 0 <= i < t.len() && t[i] == x;
        assert(u[s.len() + i] == x);
    }
    if u.contains(x) {
        let i = choose|i: int| 0 <= i < u.len() && u[i] == x;
        if i < s.len() {
            assert(s[i] == x);
        } else {
            assert(t[i - s.len()] == x);
        }
    }
}

/// A concatenation of prefixes binds what one of them binds.
pub proof fn lemma_bound_concat(p: Prefix, r: Prefix, x: Var)
    ensures
        bound(p + r, x) == (bound(p, x) || bound(r, x)),
{
    let u = p + r;
    if bound(p, x) {
        let i = choose|i: int| 0 <= i < p.len() && (#[trigger] p[i]).1.contains(x);
        assert(u[i] == p[i]);
    }
    if bound(r, x) {
        let i = choose|i: int| 0 <= i < r.len() && (#[trigger] r[i]).1.contains(x);
        assert(u[p.len() + i] == r[i]);
    }
    if bound(u, x) {
        let i = choose|i: int| 0 <= i < u.len() && (#[trigger] u[i]).1.contains(x);
        if i < p.len() {
            assert(p[i] == u[i]);
        } else {
            assert(r[i - p.len()] == u[i]);
        }
    }
}

/// A formula is true exactly if it holds with its free variables bound by
/// an outermost existential block.
pub proof fn lemma_close_free(p: Prefix, m: Matrix, free: Seq<Var>, a: Assignment)
    requires
        forall|x: Var| #[trigger] mentions(m, x) && !bound(p, x) ==> free.contains(x),
    ensures
        formula_true(p, m) == qbf(with_block(QuantTy::Exists, free, p), m, a),
{
    lemma_exists_block(free, p, m, a);
    if formula_true(p, m) {
        let b = choose|b: Assignment| #[trigger] qbf(p, m, b);
        let c = overlay(a, b, free);
        assert(agree_off(a, c, free));
        lemma_coincide(p, m, b, c);
    }
}

/// A formula without free variables is true exactly if it holds under any
/// assignment.
pub proof fn lemma_closed_truth(p: Prefix, m: Matrix, a: Assignment)
    requires
        forall|x: Var| #[trigger] mentions(m, x) ==> bound(p, x),
    ensures
        formula_true(p, m) == qbf(p, m, a),
{
    if formula_true(p, m) {
        let b = choose|b: Assignment| #[trigger] qbf(p, m, b);
        lemma_coincide(p, m, b, a);
    }
}

} // verus!
