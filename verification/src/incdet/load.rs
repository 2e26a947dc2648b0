//! The two-player core of a formula with at most one quantifier
//! alternation.
use crate::datastructure::LitSet;
use crate::incdet::cegar::{agree_on, answered, disjoint, has_response, within};
use crate::literal::{Lit, Var};
use crate::normal::{copy_vars, quants, shape};
use crate::qcnf::{matrix_of, QCNF};
use crate::quantifier::QuantTy;
use crate::reduction::{drops_unmentioned, lemma_drop_unmentioned};
use crate::semantics::{
    agree_off, bound, clause_mentions, clause_true, lit_true, lemma_empty_block, lemma_exists_block, lemma_forall_block,
    lemma_matrix_coincide, lemma_with_block, matrix_true, mentions, overlay, qbf, with_block, Assignment, Matrix, Prefix,
};
use crate::simplify::{closed_formula, ends_existentially, reduce_matrix, sort_dedup};
use vstd::prelude::*;

verus! {

broadcast use crate::literal::group_literal;

/// A formula as the game of one universal move and one response: the
/// universal variables, the existential ones, and the clauses without
/// tautologies, duplicate literals and reducible universal literals.
#[derive(Debug)]
pub struct Core {
    pub universals: Vec<Var>,
    pub existentials: Vec<Var>,
    pub originals: Vec<Vec<Lit>>,
    /// an existential block is outside the universal one
    pub flipped: bool,
}

/// No existential block is outside a universal one.
pub open spec fn universal_first(p: Prefix, m: Matrix) -> bool {
    shape(p, m).len() < 2 || shape(p, m)[0] == QuantTy::Forall
}

/// The clause contains a literal and its negation.
pub open spec fn tautology(c: Seq<Lit>) -> bool {
    exists|i: int| 0 <= i < c.len() && c.contains((#[trigger] c[i]).neg())
}

/// The clauses without tautologies and duplicate literals.
fn clean(matrix: &Vec<Vec<Lit>>) -> (result: Vec<Vec<Lit>>)
    ensures
        forall|a: Assignment| #[trigger] matrix_true(a, matrix_of(result@)) == matrix_true(a, matrix_of(matrix@)),
        forall|x: Var| #[trigger] mentions(matrix_of(result@), x) ==> mentions(matrix_of(matrix@), x),
        forall|j: int| 0 <= j < result@.len() ==> crate::simplify::sorted((#[trigger] result@[j])@) && !tautology(result@[j]@),
        result@.len() <= matrix@.len(),
{
    let ghost m = matrix_of(matrix@);
    let mut result: Vec<Vec<Lit>> = Vec::new();
    let mut k: usize = 0;
    assert(m.take(0) =~= Matrix::empty());
    assert(matrix_of(result@) =~= Matrix::empty());
    while k < matrix.len()
        invariant
            k <= matrix@.len(),
            m == matrix_of(matrix@),
            forall|a: Assignment| #[trigger] matrix_true(a, matrix_of(result@)) == matrix_true(a, m.take(k as int)),
            forall|x: Var| #[trigger] mentions(matrix_of(result@), x) ==> mentions(m, x),
            forall|j: int| 0 <= j < result@.len() ==> crate::simplify::sorted((#[trigger] result@[j])@) && !tautology(result@[j]@),
            result@.len() <= k,
        decreases matrix.len() - k,
    {
        let ghost part = m.take(k as int);
        let ghost n = matrix_of(result@);
        let ghost c = m[k as int];
        assert(m.take(k as int + 1) =~= part.push(c));
        let lits = sort_dedup(&matrix[k]);
        let ghost d = lits@;
        if has_opposites(&lits) {
            proof {
                assert forall|a: Assignment| #[trigger] matrix_true(a, n) == matrix_true(a, part.push(c)) by {
                    crate::simplify::lemma_push_true(a, part, c);
                    let i = choose|i: int| 0 <= i < d.len() && d.contains((#[trigger] d[i]).neg());
                    assert(d.contains(d[i]));
                    let l = if lit_true(a, d[i]) { d[i] } else { d[i].neg() };
                    assert(c.contains(l));
                    let j = choose|j: int| 0 <= j < c.len() && c[j] == l;
                    assert(lit_true(a, c[j]));
                    assert(matrix_true(a, n) == matrix_true(a, part));
                }
            }
        } else {
            result.push(lits);
            proof {
                assert(matrix_of(result@) =~= n.push(d));
                assert forall|a: Assignment| #[trigger] matrix_true(a, n.push(d)) == matrix_true(a, part.push(c)) by {
                    crate::simplify::lemma_push_true(a, part, c);
                    crate::simplify::lemma_push_true(a, n, d);
                    assert(matrix_true(a, n) == matrix_true(a, part));
                    if clause_true(a, c) {
                        crate::simplify::lemma_subclause(a, c, d);
                    }
                    if clause_true(a, d) {
                        assert forall|i: int| 0 <= i < d.len() implies c.contains(#[trigger] d[i]) by {
                            assert(d.contains(d[i]));
                        }
                        crate::simplify::lemma_subclause(a, d, c);
                    }
                }
                assert forall|x: Var| #[trigger] mentions(n.push(d), x) implies mentions(m, x) by {
                    crate::qcnf::lemma_matrix_push(n, d, x);
                    if clause_mentions(d, x) {
                        let i = choose|i: int| 0 <= i < d.len() && (#[trigger] d[i]).v() == x;
                        assert(d.contains(d[i]));
                        assert(c.contains(d[i]));
                        let j = choose|j: int| 0 <= j < c.len() && c[j] == d[i];
                        assert(clause_mentions(m[k as int], x));
                    }
                }
            }
        }
        k += 1;
    }
    assert(m.take(m.len() as int) =~= m);
    result
}

/// Whether a clause contains a literal and its negation.
pub(crate) fn has_opposites(lits: &Vec<Lit>) -> (found: bool)
    ensures
        found == tautology(lits@),
{
    let set = LitSet::from_lits(lits);
    let mut k: usize = 0;
    while k < lits.len()
        invariant
            k <= lits@.len(),
            forall|l: Lit| #[trigger] set@.contains(l) <==> lits@.contains(l),
            forall|i: int| 0 <= i < k ==> !lits@.contains((#[trigger] lits@[i]).neg()),
        decreases lits.len() - k,
    {
        if set.contains(lits[k].negated()) {
            return true;
        }
        k += 1;
    }
    false
}

impl Core {
    /// The universal block before the existential one.
    pub open spec fn prefix(&self) -> Prefix {
        seq![(QuantTy::Forall, self.universals@), (QuantTy::Exists, self.existentials@)]
    }

    /// The clauses.
    pub open spec fn clauses(self) -> Matrix {
        matrix_of(self.originals@)
    }

    /// Every variable is on one side and listed there.
    pub open spec fn wf(self) -> bool {
        &&& self.existentials@.no_duplicates()
        &&& disjoint(self.universals@, self.existentials@)
        &&& within(self.clauses(), self.universals@, self.existentials@)
    }

    /// The core decides the formula, and what satisfies its clauses
    /// satisfies the formula's.
    pub open spec fn represents(self, p: Prefix, m: Matrix) -> bool {
        &&& self.wf()
        &&& answered(self.universals@, self.clauses()) == crate::semantics::formula_true(p, m)
        &&& forall|b: Assignment| #[trigger] matrix_true(b, self.clauses()) ==> matrix_true(b, m)
        &&& forall|x: Var| #[trigger] self.universals@.contains(x) ==> crate::semantics::bound_by(p, QuantTy::Forall, x)
        &&& forall|x: Var| #[trigger] crate::semantics::bound_by(p, QuantTy::Forall, x) ==> self.universals@.contains(x)
        &&& forall|x: Var| #[trigger] self.existentials@.contains(x) ==> bound(p, x) || mentions(m, x)
        &&& forall|x: Var| #[trigger] mentions(self.clauses(), x) ==> mentions(m, x)
        &&& self.flipped == !universal_first(p, m)
        &&& !self.flipped ==> forall|b: Assignment| #[trigger] matrix_true(b, m) ==> matrix_true(b, self.clauses())
    }

    /// The core of a formula; `None` for more than two alternating blocks.
    pub fn load(qcnf: &QCNF) -> (result: Option<Core>)
        requires
            qcnf.wf(),
        ensures
            result is None <==> shape(qcnf.blocks(), qcnf.clauses()).len() > 2,
            result matches Some(core) ==> core.represents(qcnf.blocks(), qcnf.clauses()),
    {
        let normal = qcnf.normalized();
        let ghost p = normal.blocks();
        let ghost m = normal.clauses();
        let blocks = normal.prefix.len();
        assert(quants(p).len() == blocks);
        if blocks > 2 {
            return None;
        }
        let mut universals: Vec<Var> = Vec::new();
        let mut existentials: Vec<Var> = Vec::new();
        let mut flipped = false;
        if blocks == 1 {
            match normal.prefix[0].0 {
                QuantTy::Forall => {
                    universals = copy_vars(&normal.prefix[0].1);
                },
                QuantTy::Exists => {
                    existentials = copy_vars(&normal.prefix[0].1);
                },
            }
        } else if blocks == 2 {
            match normal.prefix[0].0 {
                QuantTy::Forall => {
                    universals = copy_vars(&normal.prefix[0].1);
                    existentials = copy_vars(&normal.prefix[1].1);
                },
                QuantTy::Exists => {
                    existentials = copy_vars(&normal.prefix[0].1);
                    universals = copy_vars(&normal.prefix[1].1);
                    flipped = true;
                },
            }
            assert(p[0].0 != p[1].0);
        }
        proof {
            lemma_sides(p, m, universals@, existentials@, flipped);
            lemma_universal_source(qcnf.blocks(), qcnf.clauses(), p, universals@);
            assert forall|x: Var| #[trigger] crate::semantics::bound_by(qcnf.blocks(), QuantTy::Forall, x) implies universals@.contains(x) by {
                lemma_stays_universal(qcnf.blocks(), p, x);
                let i = choose|i: int| 0 <= i < p.len() && (#[trigger] p[i]).0 == QuantTy::Forall && p[i].1.contains(x);
            }
            assert forall|x: Var| #[trigger] existentials@.contains(x) implies bound(qcnf.blocks(), x) || mentions(
                qcnf.clauses(),
                x,
            ) by {
                if blocks == 2 && !flipped {
                    assert(p[1].1.contains(x));
                } else {
                    assert(p[0].1.contains(x));
                }
                assert(bound(p, x));
            }
        }
        if !flipped {
            let core = Core { universals, existentials, originals: clean(&normal.matrix), flipped };
            proof {
                let a = |x: Var| false;
                let n = core.clauses();
                lemma_two_blocks(universals@, existentials@, m, a);
                lemma_as_two_blocks(p, m, universals@, existentials@, a);
                assert(qbf(p, m, a) == qcnf.truth());
                assert forall|u: Assignment| #[trigger] has_response(universals@, n, u) == has_response(universals@, m, u) by {
                    if has_response(universals@, n, u) {
                        let b = choose|b: Assignment| agree_on(u, b, universals@) && #[trigger] matrix_true(b, n);
                        assert(matrix_true(b, m));
                    }
                    if has_response(universals@, m, u) {
                        let b = choose|b: Assignment| agree_on(u, b, universals@) && #[trigger] matrix_true(b, m);
                        assert(matrix_true(b, n));
                    }
                }
                assert(answered(universals@, n) == answered(universals@, m)) by {
                    if answered(universals@, n) {
                        assert forall|u: Assignment| #[trigger] has_response(universals@, m, u) by {
                            assert(has_response(universals@, n, u));
                        }
                    }
                    if answered(universals@, m) {
                        assert forall|u: Assignment| #[trigger] has_response(universals@, n, u) by {
                            assert(has_response(universals@, m, u));
                        }
                    }
                }
            }
            return Some(core);
        }
        match reduce_matrix(&normal.prefix, &normal.matrix) {
            Some(reduced) => {
                let core = Core { universals, existentials, originals: reduced, flipped };
                proof {
                    let n = core.clauses();
                    let a = |x: Var| false;
                    assert(qbf(p, m, a) == qbf(p, n, a));
                    assert(qbf(p, m, a) == qcnf.truth());
                    assert forall|x: Var| #[trigger] mentions(n, x) implies bound(p, x) by {
                        assert(mentions(m, x));
                    }
                    assert forall|i: int| 0 <= i < n.len() implies ends_existentially(p, #[trigger] n[i]) by {
                        assert(ends_existentially(p, reduced@[i]@));
                    }
                    lemma_flipped(p, n, existentials@, a);
                    let none = Seq::<Var>::empty();
                    lemma_two_blocks(none, existentials@, n, a);
                    assert forall|x: Var| #[trigger] universals@.contains(x) implies !mentions(n, x) by {
                        if mentions(n, x) {
                            assert(existentials@.contains(x));
                        }
                    }
                    lemma_unread_universals(universals@, n);
                    assert forall|x: Var| #[trigger] mentions(n, x) implies mentions(qcnf.clauses(), x) by {
                        assert(mentions(m, x));
                    }
                }
                Some(core)
            },
            None => {
                let mut originals: Vec<Vec<Lit>> = Vec::new();
                originals.push(Vec::new());
                let core = Core { universals, existentials, originals, flipped };
                proof {
                    let n = core.clauses();
                    assert(n[0].len() == 0);
                    assert forall|b: Assignment| !#[trigger] matrix_true(b, n) by {
                        assert(!crate::semantics::clause_true(b, n[0]));
                    }
                    assert forall|x: Var| !#[trigger] mentions(n, x) by {
                        if mentions(n, x) {
                            let i = choose|i: int| 0 <= i < n.len() && clause_mentions(#[trigger] n[i], x);
                            assert(i == 0);
                        }
                    }
                    let a = |x: Var| false;
                    assert(!qbf(p, m, a));
                    assert(!has_response(universals@, n, a));
                }
                Some(core)
            },
        }
    }
}

/// What a formula quantifies universally its normal form does too.
proof fn lemma_stays_universal(p0: Prefix, p: Prefix, x: Var)
    requires
        crate::semantics::prefix_distinct(p0),
        crate::semantics::bound_by(p0, QuantTy::Forall, x),
        bound(p0, x) ==> bound(p, x),
        forall|q: QuantTy, y: Var| #[trigger] crate::semantics::bound_by(p, q, y) ==> crate::semantics::bound_by(p0, q, y) || (q
            == QuantTy::Exists && !bound(p0, y)),
    ensures
        crate::semantics::bound_by(p, QuantTy::Forall, x),
{
    crate::compose::lemma_bound_by(p0, QuantTy::Forall, x);
    crate::compose::lemma_bound_some(p, x);
    if crate::semantics::bound_by(p, QuantTy::Exists, x) {
        let i = choose|i: int| 0 <= i < p0.len() && (#[trigger] p0[i]).0 == QuantTy::Exists && p0[i].1.contains(x);
        let j = choose|j: int| 0 <= j < p0.len() && (#[trigger] p0[j]).0 == QuantTy::Forall && p0[j].1.contains(x);
        if i < j {
            assert(!p0[j].1.contains(x));
        } else {
            assert(!p0[i].1.contains(x));
        }
    }
}

/// Universal variables that no clause mentions do not matter.
proof fn lemma_unread_universals(universals: Seq<Var>, m: Matrix)
    requires
        forall|x: Var| #[trigger] universals.contains(x) ==> !mentions(m, x),
    ensures
        answered(universals, m) == answered(Seq::empty(), m),
{
    let none = Seq::<Var>::empty();
    assert forall|u: Assignment| #[trigger] has_response(universals, m, u) == has_response(none, m, u) by {
        if has_response(none, m, u) {
            let b = choose|b: Assignment| agree_on(u, b, none) && #[trigger] matrix_true(b, m);
            let c = |x: Var| if universals.contains(x) { u(x) } else { b(x) };
            crate::semantics::lemma_matrix_coincide(m, b, c);
            assert(agree_on(u, c, universals));
        }
        if has_response(universals, m, u) {
            let b = choose|b: Assignment| agree_on(u, b, universals) && #[trigger] matrix_true(b, m);
            assert(agree_on(u, b, none));
        }
    }
    if answered(universals, m) {
        assert forall|u: Assignment| #[trigger] has_response(none, m, u) by {
            assert(has_response(universals, m, u));
        }
    }
    if answered(none, m) {
        assert forall|u: Assignment| #[trigger] has_response(universals, m, u) by {
            assert(has_response(none, m, u));
        }
    }
}

/// The universal side holds universal variables of the formula.
proof fn lemma_universal_source(p0: Prefix, m: Matrix, p: Prefix, universals: Seq<Var>)
    requires
        forall|q: QuantTy, x: Var| #[trigger] crate::semantics::bound_by(p, q, x) && q == QuantTy::Forall
            ==> crate::semantics::bound_by(p0, q, x),
        forall|x: Var| universals.contains(x) ==> #[trigger] crate::semantics::bound_by(p, QuantTy::Forall, x),
    ensures
        forall|x: Var| #[trigger] universals.contains(x) ==> crate::semantics::bound_by(p0, QuantTy::Forall, x),
{
    assert forall|x: Var| #[trigger] universals.contains(x) implies crate::semantics::bound_by(p0, QuantTy::Forall, x) by {
        assert(crate::semantics::bound_by(p, QuantTy::Forall, x));
    }
}

/// How the sides are read off a prefix of at most two blocks.
spec fn sides(p: Prefix, universals: Seq<Var>, existentials: Seq<Var>, flipped: bool) -> bool {
    if p.len() == 0 {
        universals.len() == 0 && existentials.len() == 0 && !flipped
    } else if p.len() == 1 {
        &&& !flipped
        &&& p[0].0 == QuantTy::Forall ==> universals == p[0].1 && existentials.len() == 0
        &&& p[0].0 == QuantTy::Exists ==> existentials == p[0].1 && universals.len() == 0
    } else {
        &&& p.len() == 2
        &&& p[0].0 == QuantTy::Forall ==> universals == p[0].1 && existentials == p[1].1 && p[1].0 == QuantTy::Exists && !flipped
        &&& p[0].0 == QuantTy::Exists ==> existentials == p[0].1 && universals == p[1].1 && p[1].0 == QuantTy::Forall && flipped
    }
}

proof fn lemma_sides(p: Prefix, m: Matrix, universals: Seq<Var>, existentials: Seq<Var>, flipped: bool)
    requires
        crate::semantics::prefix_distinct(p),
        sides(p, universals, existentials, flipped),
        closed_formula(p, m),
    ensures
        existentials.no_duplicates(),
        disjoint(universals, existentials),
        !flipped ==> within(m, universals, existentials),
        forall|x: Var| universals.contains(x) ==> #[trigger] crate::semantics::bound_by(p, QuantTy::Forall, x),
{
    assert forall|x: Var| universals.contains(x) implies #[trigger] crate::semantics::bound_by(p, QuantTy::Forall, x) by {
        if flipped {
            assert(p[1].0 == QuantTy::Forall && p[1].1.contains(x));
        } else {
            assert(p[0].0 == QuantTy::Forall && p[0].1.contains(x));
        }
    }
    assert forall|x: Var| universals.contains(x) implies !#[trigger] existentials.contains(x) by {
        if p.len() == 2 {
            if p[0].1.contains(x) {
                assert(!p[1].1.contains(x));
            }
        }
    }
    if !flipped {
        assert forall|x: Var| #[trigger] mentions(m, x) implies universals.contains(x) || existentials.contains(x) by {
            assert(bound(p, x));
            let i = choose|i: int| 0 <= i < p.len() && (#[trigger] p[i]).1.contains(x);
        }
    }
}

/// One universal block and one existential block make the game of a move
/// and a response.
pub proof fn lemma_two_blocks(universals: Seq<Var>, existentials: Seq<Var>, m: Matrix, a: Assignment)
    requires
        disjoint(universals, existentials),
        within(m, universals, existentials),
    ensures
        qbf(
            with_block(QuantTy::Forall, universals, with_block(QuantTy::Exists, existentials, Seq::empty())),
            m,
            a,
        ) == answered(universals, m),
{
    let none = Prefix::empty();
    let inner = with_block(QuantTy::Exists, existentials, none);
    lemma_forall_block(universals, inner, m, a);
    if answered(universals, m) {
        assert forall|b: Assignment| #[trigger] agree_off(a, b, universals) implies qbf(inner, m, b) by {
            lemma_exists_block(existentials, none, m, b);
            assert(has_response(universals, m, b));
            let c = choose|c: Assignment| agree_on(b, c, universals) && #[trigger] matrix_true(c, m);
            let d = overlay(b, c, existentials);
            assert(agree_off(b, d, existentials));
            assert forall|x: Var| #[trigger] mentions(m, x) implies c(x) == d(x) by {
                if !existentials.contains(x) {
                    assert(universals.contains(x));
                    assert(b(x) == c(x));
                }
            }
            lemma_matrix_coincide(m, c, d);
            assert(qbf(none, m, d));
        }
    }
    if qbf(with_block(QuantTy::Forall, universals, inner), m, a) {
        assert forall|u: Assignment| #[trigger] has_response(universals, m, u) by {
            let b = overlay(a, u, universals);
            assert(agree_off(a, b, universals));
            assert(qbf(inner, m, b));
            lemma_exists_block(existentials, none, m, b);
            let c = choose|c: Assignment| #[trigger] agree_off(b, c, existentials) && qbf(none, m, c);
            assert(matrix_true(c, m));
            assert forall|x: Var| universals.contains(x) implies #[trigger] u(x) == c(x) by {
                assert(!existentials.contains(x));
                assert(b(x) == c(x));
            }
            assert(agree_on(u, c, universals));
        }
    }
}

/// A prefix of at most two blocks, the universal one first, is a universal
/// and an existential block.
proof fn lemma_as_two_blocks(p: Prefix, m: Matrix, universals: Seq<Var>, existentials: Seq<Var>, a: Assignment)
    requires
        sides(p, universals, existentials, false),
    ensures
        qbf(p, m, a) == qbf(
            with_block(QuantTy::Forall, universals, with_block(QuantTy::Exists, existentials, Seq::empty())),
            m,
            a,
        ),
{
    let none = Prefix::empty();
    let inner = with_block(QuantTy::Exists, existentials, none);
    let full = with_block(QuantTy::Forall, universals, inner);
    if p.len() == 2 {
        assert(p =~= full);
    } else {
        if existentials.len() == 0 {
            assert(existentials =~= Seq::empty());
        }
        if universals.len() == 0 {
            assert(universals =~= Seq::empty());
            lemma_empty_block(QuantTy::Forall, inner, m, a);
        }
        if p.len() == 0 {
            assert(p =~= none);
            lemma_empty_block(QuantTy::Exists, none, m, a);
        } else if p[0].0 == QuantTy::Exists {
            assert(p =~= inner);
        } else {
            assert(p =~= with_block(QuantTy::Forall, universals, none));
            lemma_forall_block(universals, none, m, a);
            lemma_forall_block(universals, inner, m, a);
            assert forall|b: Assignment| qbf(none, m, b) == #[trigger] qbf(inner, m, b) by {
                lemma_empty_block(QuantTy::Exists, none, m, b);
            }
        }
    }
}

/// Without literals behind the existential block the universal one does
/// not matter.
proof fn lemma_flipped(p: Prefix, m: Matrix, existentials: Seq<Var>, a: Assignment)
    requires
        p.len() == 2,
        crate::semantics::prefix_distinct(p),
        p[0].0 == QuantTy::Exists,
        p[1].0 == QuantTy::Forall,
        existentials == p[0].1,
        closed_formula(p, m),
        forall|i: int| 0 <= i < m.len() ==> ends_existentially(p, #[trigger] m[i]),
    ensures
        qbf(p, m, a) == qbf(
            with_block(QuantTy::Forall, Seq::empty(), with_block(QuantTy::Exists, existentials, Seq::empty())),
            m,
            a,
        ),
        forall|x: Var| #[trigger] mentions(m, x) ==> existentials.contains(x),
{
    let none = Prefix::empty();
    let empty = Seq::<Var>::empty();
    assert forall|x: Var| #[trigger] mentions(m, x) implies existentials.contains(x) by {
        let i = choose|i: int| 0 <= i < m.len() && clause_mentions(#[trigger] m[i], x);
        let c = m[i];
        let k = choose|k: int| 0 <= k < c.len() && (#[trigger] c[k]).v() == x;
        assert(ends_existentially(p, c));
        let j = choose|j: int| #![trigger c[j]]
            0 <= j < c.len() && crate::reduction::bound_only_by(p, QuantTy::Exists, c[j].v()) && forall|i: int, g: int, h: int|
                #![trigger c[i], p[g], p[h]]
                0 <= i < c.len() && 0 <= g < p.len() && 0 <= h < p.len() && p[g].1.contains(c[i].v()) && p[h].1.contains(
                    c[j].v(),
                ) ==> g <= h;
        let y = c[j].v();
        assert(clause_mentions(m[i], y));
        assert(mentions(m, y));
        assert(bound(p, y));
        let h = choose|h: int| 0 <= h < p.len() && (#[trigger] p[h]).1.contains(y);
        assert(p[h].0 == QuantTy::Exists);
        assert(h == 0);
        assert(bound(p, x));
        let g = choose|g: int| 0 <= g < p.len() && (#[trigger] p[g]).1.contains(x);
        assert(c[k].v() == x && p[g].1.contains(c[k].v()));
        assert(p[h].1.contains(c[j].v()));
        assert(g <= h);
    }
    let inner = with_block(QuantTy::Exists, existentials, none);
    let s = with_block(QuantTy::Exists, existentials, with_block(QuantTy::Forall, empty, none));
    lemma_with_block(QuantTy::Exists, existentials, with_block(QuantTy::Forall, empty, none));
    lemma_with_block(QuantTy::Forall, empty, none);
    assert(s.len() == 2);
    assert(s[1] == with_block(QuantTy::Forall, empty, none)[0]);
    assert forall|i: int, x: Var| 0 <= i < p.len() && #[trigger] s[i].1.contains(x) implies p[i].1.contains(x) by {
        if i == 1 {
            assert(empty.contains(x));
        }
    }
    assert forall|i: int, x: Var| 0 <= i < p.len() && #[trigger] p[i].1.contains(x) && mentions(m, x) implies s[i].1.contains(x) by {
        if i == 1 {
            assert(p[0].1.contains(x));
            assert(!p[1].1.contains(x));
        }
    }
    assert(drops_unmentioned(p, s, m));
    lemma_drop_unmentioned(p, s, m, a);
    lemma_exists_block(existentials, with_block(QuantTy::Forall, empty, none), m, a);
    lemma_exists_block(existentials, none, m, a);
    assert forall|b: Assignment| #[trigger] qbf(with_block(QuantTy::Forall, empty, none), m, b) == qbf(none, m, b) by {
        lemma_empty_block(QuantTy::Forall, none, m, b);
    }
    lemma_empty_block(QuantTy::Forall, inner, m, a);
}

} // verus!
