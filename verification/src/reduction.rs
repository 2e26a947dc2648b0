//! Transformations of a formula that keep its truth.
use crate::literal::{Lit, Var};
use crate::quantifier::QuantTy;
use crate::sat::consistent;
use crate::semantics::{
    agree_off, bound, clause_mentions, clause_true, cube_true, lemma_bound_first,
    lemma_clause_coincide, lemma_coincide, lemma_mono, lit_true, matrix_true, mentions, overlay, qbf, reach,
    Assignment, Matrix, Prefix,
};
use vstd::prelude::*;

verus! {

broadcast use crate::literal::group_literal;

/// Every block that binds the variable has the given quantifier.
pub open spec fn bound_only_by(p: Prefix, q: QuantTy, x: Var) -> bool {
    forall|k: int| 0 <= k < p.len() && (#[trigger] p[k]).1.contains(x) ==> p[k].0 == q
}

/// The prefix without its first block binds a variable by the same
/// quantifiers.
pub(crate) proof fn lemma_only_rest(p: Prefix, q: QuantTy, x: Var)
    requires
        p.len() > 0,
        bound_only_by(p, q, x),
    ensures
        bound_only_by(p.drop_first(), q, x),
{
    let r = p.drop_first();
    assert forall|k: int| 0 <= k < r.len() && (#[trigger] r[k]).1.contains(x) implies r[k].0 == q by {
        assert(r[k] == p[k + 1]);
    }
}

/// The literal is lost to the universal player: it is universal, or false
/// already.
pub open spec fn losing(p: Prefix, a: Assignment, l: Lit) -> bool {
    if bound(p, l.v()) {
        bound_only_by(p, QuantTy::Forall, l.v())
    } else {
        !lit_true(a, l)
    }
}

/// The universal player falsifies a clause of lost literals.
pub proof fn lemma_falsify(p: Prefix, m: Matrix, c: Seq<Lit>, a: Assignment)
    requires
        m.contains(c),
        consistent(c),
        forall|i: int| 0 <= i < c.len() ==> losing(p, a, #[trigger] c[i]),
    ensures
        !qbf(p, m, a),
    decreases p.len(),
{
    if p.len() == 0 {
        let i = choose|i: int| 0 <= i < m.len() && m[i] == c;
        assert forall|j: int| 0 <= j < c.len() implies !lit_true(a, #[trigger] c[j]) by {
            assert(losing(p, a, c[j]));
            assert(!bound(p, c[j].v()));
        }
        assert(!clause_true(a, m[i]));
    } else if qbf(p, m, a) {
        let vs = p[0].1;
        let r = p.drop_first();
        let b = match p[0].0 {
            QuantTy::Forall => |x: Var|
                if vs.contains(x) && clause_mentions(c, x) {
                    !c[choose|j: int| 0 <= j < c.len() && (#[trigger] c[j]).v() == x].pos()
                } else {
                    a(x)
                },
            QuantTy::Exists => choose|b: Assignment| #[trigger] agree_off(a, b, vs) && qbf(r, m, b),
        };
        assert(agree_off(a, b, vs));
        assert(qbf(r, m, b));
        assert forall|i: int| 0 <= i < c.len() implies losing(r, b, #[trigger] c[i]) by {
            let x = c[i].v();
            assert(losing(p, a, c[i]));
            lemma_bound_first(p, x);
            if bound(r, x) {
                lemma_only_rest(p, QuantTy::Forall, x);
            } else if vs.contains(x) {
                assert(p[0].1.contains(x));
                assert(p[0].0 == QuantTy::Forall);
                assert(clause_mentions(c, x));
                let j = choose|j: int| 0 <= j < c.len() && (#[trigger] c[j]).v() == x;
                assert(c[j].v() == c[i].v());
            } else {
                assert(a(x) == b(x));
            }
        }
        lemma_falsify(r, m, c, b);
    }
}

/// Universal reduction: where the literals that the reduced clause leaves
/// out are bound behind all others, and by universal blocks, the reduced
/// clause may be added.
pub proof fn lemma_universal_reduction(p: Prefix, split: int, m: Matrix, c: Seq<Lit>, d: Seq<Lit>, a: Assignment)
    requires
        0 <= split <= p.len(),
        m.contains(c),
        consistent(c),
        forall|i: int|
            0 <= i < c.len() ==> d.contains(#[trigger] c[i]) || bound(p.skip(split), c[i].v()) && bound_only_by(
                p.skip(split),
                QuantTy::Forall,
                c[i].v(),
            ),
        forall|x: Var| #[trigger] clause_mentions(d, x) ==> !bound(p.skip(split), x),
        qbf(p, m, a),
    ensures
        qbf(p, m.push(d), a),
    decreases p.len(),
{
    if split == 0 {
        assert(p.skip(0) =~= p);
        if !clause_true(a, d) {
            assert forall|i: int| 0 <= i < c.len() implies losing(p, a, #[trigger] c[i]) by {
                if !bound(p, c[i].v()) {
                    assert(d.contains(c[i]));
                    let j = choose|j: int| 0 <= j < d.len() && d[j] == c[i];
                    assert(!lit_true(a, d[j]));
                } else if d.contains(c[i]) {
                    let j = choose|j: int| 0 <= j < d.len() && d[j] == c[i];
                    assert(clause_mentions(d, c[i].v()));
                }
            }
            lemma_falsify(p, m, c, a);
        }
        let n = m.push(d);
        assert forall|b: Assignment| #[trigger] reach(p, a, b) && matrix_true(b, m) implies matrix_true(b, n) by {
            assert forall|x: Var| #[trigger] clause_mentions(d, x) implies a(x) == b(x) by {
                assert(!bound(p, x));
            }
            lemma_clause_coincide(d, a, b);
            assert forall|i: int| 0 <= i < n.len() implies clause_true(b, #[trigger] n[i]) by {
                if i < m.len() {
                    assert(n[i] == m[i]);
                }
            }
        }
        lemma_mono(p, m, n, a);
    } else {
        let r = p.drop_first();
        assert(r.skip(split - 1) =~= p.skip(split));
        assert forall|b: Assignment| #[trigger] agree_off(a, b, p[0].1) && qbf(r, m, b) implies qbf(r, m.push(d), b) by {
            lemma_universal_reduction(r, split - 1, m, c, d, b);
        }
    }
}

/// `b` with the literals made true that the list of variables covers.
pub open spec fn forced_on(b: Assignment, f: Seq<Lit>, vs: Seq<Var>) -> Assignment {
    |x: Var|
        if vs.contains(x) && clause_mentions(f, x) {
            f[choose|j: int| 0 <= j < f.len() && (#[trigger] f[j]).v() == x].pos()
        } else {
            b(x)
        }
}

pub(crate) proof fn lemma_forced_on(b: Assignment, f: Seq<Lit>, vs: Seq<Var>)
    requires
        consistent(f),
    ensures
        forall|i: int| 0 <= i < f.len() && vs.contains((#[trigger] f[i]).v()) ==> lit_true(forced_on(b, f, vs), f[i]),
        forall|x: Var| !(vs.contains(x) && clause_mentions(f, x)) ==> #[trigger] forced_on(b, f, vs)(x) == b(x),
{
    assert forall|i: int| 0 <= i < f.len() && vs.contains((#[trigger] f[i]).v()) implies lit_true(
        forced_on(b, f, vs),
        f[i],
    ) by {
        let x = f[i].v();
        assert(clause_mentions(f, x));
        let j = choose|j: int| 0 <= j < f.len() && (#[trigger] f[j]).v() == x;
        assert(f[j].v() == f[i].v());
    }
}

/// The literals are bound by the given quantifier alone, or hold already.
pub open spec fn forcible(p: Prefix, q: QuantTy, f: Seq<Lit>, a: Assignment) -> bool {
    forall|i: int|
        0 <= i < f.len() ==> bound_only_by(p, q, (#[trigger] f[i]).v()) && (!bound(p, f[i].v()) ==> lit_true(a, f[i]))
}

/// The existential player may commit to literals that make a weaker matrix
/// imply the matrix.
pub proof fn lemma_force_existential(p: Prefix, f: Seq<Lit>, n: Matrix, m: Matrix, a: Assignment)
    requires
        consistent(f),
        forcible(p, QuantTy::Exists, f, a),
        forall|x: Var| #[trigger] mentions(n, x) ==> !clause_mentions(f, x),
        forall|b: Assignment| #[trigger] matrix_true(b, n) && cube_true(b, f) ==> matrix_true(b, m),
        qbf(p, n, a),
    ensures
        qbf(p, m, a),
    decreases p.len(),
{
    if p.len() == 0 {
        assert forall|i: int| 0 <= i < f.len() implies lit_true(a, #[trigger] f[i]) by {
            assert(!bound(p, f[i].v()));
        }
        assert(cube_true(a, f));
    } else {
        let vs = p[0].1;
        let r = p.drop_first();
        match p[0].0 {
            QuantTy::Forall => {
                assert forall|b: Assignment| #[trigger] agree_off(a, b, vs) implies qbf(r, m, b) by {
                    assert forall|i: int| 0 <= i < f.len() implies bound_only_by(r, QuantTy::Exists, (#[trigger] f[i]).v())
                        && (!bound(r, f[i].v()) ==> lit_true(b, f[i])) by {
                        let x = f[i].v();
                        lemma_bound_first(p, x);
                        lemma_only_rest(p, QuantTy::Exists, x);
                        assert(!p[0].1.contains(x));
                        assert(a(x) == b(x));
                    }
                    lemma_force_existential(r, f, n, m, b);
                }
            },
            QuantTy::Exists => {
                let b = choose|b: Assignment| #[trigger] agree_off(a, b, vs) && qbf(r, n, b);
                let c = forced_on(b, f, vs);
                lemma_forced_on(b, f, vs);
                assert forall|x: Var| !vs.contains(x) implies a(x) == #[trigger] c(x) by {
                    assert(b(x) == a(x));
                }
                assert(agree_off(a, c, vs));
                assert forall|x: Var| #[trigger] mentions(n, x) && !bound(r, x) implies b(x) == c(x) by {}
                lemma_coincide(r, n, b, c);
                assert forall|i: int| 0 <= i < f.len() implies bound_only_by(r, QuantTy::Exists, (#[trigger] f[i]).v())
                    && (!bound(r, f[i].v()) ==> lit_true(c, f[i])) by {
                    let x = f[i].v();
                    lemma_bound_first(p, x);
                    lemma_only_rest(p, QuantTy::Exists, x);
                    if !vs.contains(x) {
                        assert(b(x) == a(x));
                    }
                }
                lemma_force_existential(r, f, n, m, c);
            },
        }
    }
}

/// The universal player may commit to literals: what then follows from the
/// matrix is won as well.
pub proof fn lemma_force_universal(p: Prefix, g: Seq<Lit>, m: Matrix, n: Matrix, a: Assignment)
    requires
        consistent(g),
        forcible(p, QuantTy::Forall, g, a),
        forall|x: Var| #[trigger] mentions(n, x) ==> !clause_mentions(g, x),
        forall|b: Assignment| #[trigger] matrix_true(b, m) && cube_true(b, g) ==> matrix_true(b, n),
        qbf(p, m, a),
    ensures
        qbf(p, n, a),
    decreases p.len(),
{
    if p.len() == 0 {
        assert forall|i: int| 0 <= i < g.len() implies lit_true(a, #[trigger] g[i]) by {
            assert(!bound(p, g[i].v()));
        }
        assert(cube_true(a, g));
    } else {
        let vs = p[0].1;
        let r = p.drop_first();
        match p[0].0 {
            QuantTy::Forall => {
                assert forall|b: Assignment| #[trigger] agree_off(a, b, vs) implies qbf(r, n, b) by {
                    let c = forced_on(b, g, vs);
                    lemma_forced_on(b, g, vs);
                    assert forall|x: Var| !vs.contains(x) implies a(x) == #[trigger] c(x) by {
                        assert(b(x) == a(x));
                    }
                    assert(agree_off(a, c, vs));
                    assert(qbf(r, m, c));
                    assert forall|i: int| 0 <= i < g.len() implies bound_only_by(r, QuantTy::Forall, (#[trigger] g[i]).v())
                        && (!bound(r, g[i].v()) ==> lit_true(c, g[i])) by {
                        let x = g[i].v();
                        lemma_bound_first(p, x);
                        lemma_only_rest(p, QuantTy::Forall, x);
                        if !vs.contains(x) {
                            assert(b(x) == a(x));
                        }
                    }
                    lemma_force_universal(r, g, m, n, c);
                    assert forall|x: Var| #[trigger] mentions(n, x) && !bound(r, x) implies c(x) == b(x) by {}
                    lemma_coincide(r, n, c, b);
                }
            },
            QuantTy::Exists => {
                let b = choose|b: Assignment| #[trigger] agree_off(a, b, vs) && qbf(r, m, b);
                assert forall|i: int| 0 <= i < g.len() implies bound_only_by(r, QuantTy::Forall, (#[trigger] g[i]).v())
                    && (!bound(r, g[i].v()) ==> lit_true(b, g[i])) by {
                    let x = g[i].v();
                    lemma_bound_first(p, x);
                    lemma_only_rest(p, QuantTy::Forall, x);
                    assert(!p[0].1.contains(x));
                    assert(a(x) == b(x));
                }
                lemma_force_universal(r, g, m, n, b);
            },
        }
    }
}

/// The second prefix has the blocks of the first one without variables
/// that the matrix does not mention.
pub open spec fn drops_unmentioned(p: Prefix, s: Prefix, m: Matrix) -> bool {
    &&& p.len() == s.len()
    &&& forall|i: int| 0 <= i < p.len() ==> (#[trigger] p[i]).0 == s[i].0
    &&& forall|i: int, x: Var| 0 <= i < p.len() && #[trigger] s[i].1.contains(x) ==> p[i].1.contains(x)
    &&& forall|i: int, x: Var|
        0 <= i < p.len() && #[trigger] p[i].1.contains(x) && mentions(m, x) ==> s[i].1.contains(x)
}

proof fn lemma_drops_rest(p: Prefix, s: Prefix, m: Matrix)
    requires
        p.len() > 0,
        drops_unmentioned(p, s, m),
    ensures
        drops_unmentioned(p.drop_first(), s.drop_first(), m),
{
    let r = p.drop_first();
    let t = s.drop_first();
    assert forall|i: int| 0 <= i < r.len() implies (#[trigger] r[i]).0 == t[i].0 by {
        assert(r[i] == p[i + 1] && t[i] == s[i + 1]);
    }
    assert forall|i: int, x: Var| 0 <= i < r.len() && #[trigger] t[i].1.contains(x) implies r[i].1.contains(x) by {
        assert(r[i] == p[i + 1] && t[i] == s[i + 1]);
        assert(s[i + 1].1.contains(x));
    }
    assert forall|i: int, x: Var|
        0 <= i < r.len() && #[trigger] r[i].1.contains(x) && mentions(m, x) implies t[i].1.contains(x) by {
        assert(r[i] == p[i + 1] && t[i] == s[i + 1]);
        assert(p[i + 1].1.contains(x));
    }
}

/// Variables that the matrix does not mention need not be bound.
pub proof fn lemma_drop_unmentioned(p: Prefix, s: Prefix, m: Matrix, a: Assignment)
    requires
        drops_unmentioned(p, s, m),
    ensures
        qbf(p, m, a) == qbf(s, m, a),
    decreases p.len(),
{
    if p.len() > 0 {
        let vs = p[0].1;
        let ws = s[0].1;
        let r = p.drop_first();
        let t = s.drop_first();
        lemma_drops_rest(p, s, m);
        assert(p[0].0 == s[0].0);
        assert forall|b: Assignment| #[trigger] agree_off(a, b, ws) implies agree_off(a, b, vs) && qbf(r, m, b)
            == qbf(t, m, b) by {
            assert forall|x: Var| !vs.contains(x) implies a(x) == #[trigger] b(x) by {
                assert(s[0].1.contains(x) ==> p[0].1.contains(x));
            }
            lemma_drop_unmentioned(r, t, m, b);
        }
        assert forall|b: Assignment| #[trigger] agree_off(a, b, vs) implies agree_off(a, overlay(a, b, ws), ws) && qbf(
            r,
            m,
            b,
        ) == qbf(t, m, overlay(a, b, ws)) by {
            let c = overlay(a, b, ws);
            assert(agree_off(a, c, ws));
            assert forall|x: Var| #[trigger] mentions(m, x) && !bound(r, x) implies b(x) == c(x) by {
                if !ws.contains(x) {
                    assert(!p[0].1.contains(x));
                    assert(a(x) == b(x));
                }
            }
            lemma_coincide(r, m, b, c);
            lemma_drop_unmentioned(r, t, m, c);
        }
        match p[0].0 {
            QuantTy::Forall => {
                if qbf(p, m, a) {
                    assert forall|b: Assignment| #[trigger] agree_off(a, b, ws) implies qbf(t, m, b) by {
                        assert(agree_off(a, b, vs));
                    }
                }
                if qbf(s, m, a) {
                    assert forall|b: Assignment| #[trigger] agree_off(a, b, vs) implies qbf(r, m, b) by {
                        assert(agree_off(a, overlay(a, b, ws), ws));
                    }
                }
            },
            QuantTy::Exists => {
                if qbf(p, m, a) {
                    let b = choose|b: Assignment| #[trigger] agree_off(a, b, vs) && qbf(r, m, b);
                    assert(agree_off(a, overlay(a, b, ws), ws));
                }
                if qbf(s, m, a) {
                    let b = choose|b: Assignment| #[trigger] agree_off(a, b, ws) && qbf(t, m, b);
                    assert(agree_off(a, b, vs));
                }
            },
        }
    }
}

} // verus!
