//! How strategies for parts of a formula make strategies for the whole.
use crate::agreement::{lemma_cases, lemma_some_case, lemma_steady_more, reads_only};
use crate::incdet::cegar::lemma_commit;
use crate::incdet::model::{agrees, assigns, commit, SkolemModel};
use crate::incdet::certifies;
use crate::literal::{Lit, Var};
use crate::quantifier::QuantTy;
use crate::sat::consistent;
use crate::semantics::{
    bound, bound_by, clause_mentions, cube_true, lemma_bound_first, lit_true, matrix_true, mentions, prefix_distinct, Assignment, Matrix,
    Prefix,
};
use crate::simplify::simplifies;
use crate::strategy::{
    covers, cube_known, first_case, follows, leaf_point, leaf_values, played, winning, Strategy,
};
use std::rc::Rc;
use vstd::prelude::*;

verus! {

broadcast use crate::literal::group_literal;

/// The values are of variables below the limit that the formula does not
/// concern.
pub open spec fn outside(values: Map<Var, bool>, p: Prefix, m: Matrix, limit: int) -> bool {
    forall|x: Var| #[trigger] values.contains_key(x) ==> !bound(p, x) && !mentions(m, x) && x.id() < limit
}

/// The second map takes all values of the first one.
pub open spec fn keeps(before: Map<Var, bool>, after: Map<Var, bool>) -> bool {
    forall|x: Var| #[trigger] before.contains_key(x) ==> after.contains_key(x) && after[x] == before[x]
}

/// The universal variables of the prefix.
pub open spec fn universal_set(p: Prefix) -> Set<Var> {
    Set::new(|x: Var| bound_by(p, QuantTy::Forall, x))
}

/// The formula concerns the variable, or it is not below the limit.
pub open spec fn concerned(p: Prefix, m: Matrix, limit: int, x: Var) -> bool {
    bound(p, x) || mentions(m, x) || x.id() >= limit
}

/// The cubes of the strategy read universal variables of the formula, and
/// the strategy keeps to variables that the formula concerns and to those
/// from the limit on.
pub open spec fn shaped(s: Strategy, p: Prefix, m: Matrix, limit: int) -> bool {
    &&& s.steady(universal_set(p))
    &&& forall|x: Var| #[trigger] s.names(x) ==> concerned(p, m, limit, x)
    &&& forall|x: Var| #[trigger] s.pivotal(x) ==> concerned(p, m, limit, x)
}

/// On top of any values that the formula does not concern, the strategy
/// keeps those values and wins.
pub open spec fn plays(s: Strategy, p: Prefix, m: Matrix, limit: int) -> bool {
    &&& shaped(s, p, m, limit)
    &&& forall|universal: Seq<i32>, values: Map<Var, bool>|
        #![trigger s.values(universal, values)]
        covers(universal, p) && outside(values, p, m, limit) ==> keeps(values, s.values(universal, values)) && wins_at(
        s.values(universal, values),
        universal,
        p,
        m,
    )
}

/// The assignment takes the universal variables of the prefix as they are
/// played.
pub open spec fn follows_on(a: Assignment, universal: Seq<i32>, p: Prefix) -> bool {
    forall|x: Var| bound_by(p, QuantTy::Forall, x) ==> #[trigger] a(x) == played(universal, x.dimacs())
}

/// Every assignment that follows the universal player and takes the values
/// satisfies the matrix.
pub open spec fn wins_at(values: Map<Var, bool>, universal: Seq<i32>, p: Prefix, m: Matrix) -> bool {
    forall|a: Assignment| #[trigger] follows_on(a, universal, p) && agrees(a, values) ==> matrix_true(a, m)
}

/// A limit above every variable.
pub open spec fn unlimited() -> int {
    0x1_0000_0000
}

/// A strategy that plays below a limit plays below a smaller one.
pub proof fn lemma_plays_limit(s: &Strategy, p: Prefix, m: Matrix, limit: int, smaller: int)
    requires
        plays(*s, p, m, limit),
        smaller <= limit,
    ensures
        plays(*s, p, m, smaller),
{
    assert forall|universal: Seq<i32>, values: Map<Var, bool>|
        #![trigger s.values(universal, values)]
        covers(universal, p) && outside(values, p, m, smaller) implies keeps(values, s.values(universal, values)) && wins_at(
        s.values(universal, values),
        universal,
        p,
        m,
    ) by {
        assert(outside(values, p, m, limit));
    }
}

/// A strategy that plays on top of nothing wins.
pub proof fn lemma_plays_wins(s: &Strategy, p: Prefix, m: Matrix, limit: int)
    requires
        plays(*s, p, m, limit),
    ensures
        winning(*s, p, m),
        s.steady(universal_set(p)),
{
    let none = Map::<Var, bool>::empty();
    assert(outside(none, p, m, limit));
    assert forall|universal: Seq<i32>, a: Assignment|
        #![trigger covers(universal, p), matrix_true(a, m)]
        covers(universal, p) && follows(a, universal) && agrees(a, s.values(universal, none)) implies matrix_true(a, m) by {
        assert forall|x: Var| bound_by(p, QuantTy::Forall, x) implies #[trigger] a(x) == played(universal, x.dimacs()) by {
            lemma_follows_var(a, universal, x);
        }
        assert(follows_on(a, universal, p));
        assert(wins_at(s.values(universal, none), universal, p, m));
    }
}

/// With nothing to satisfy there is nothing to do.
pub proof fn lemma_plays_done(p: Prefix, m: Matrix, limit: int)
    requires
        m.len() == 0,
    ensures
        plays(Strategy::Done, p, m, limit),
{
}

/// Fewer universal variables are covered as well.
pub proof fn lemma_covers_part(universal: Seq<i32>, p: Prefix, r: Prefix)
    requires
        covers(universal, p),
        forall|x: Var| #[trigger] bound_by(r, QuantTy::Forall, x) ==> bound_by(p, QuantTy::Forall, x),
    ensures
        covers(universal, r),
{
    assert forall|x: Var| #[trigger] bound_by(r, QuantTy::Forall, x) implies played(universal, x.dimacs()) != played(
        universal,
        -x.dimacs(),
    ) by {
        assert(bound_by(p, QuantTy::Forall, x));
    }
}

/// What is bound by a quantifier is bound.
pub proof fn lemma_bound_by(p: Prefix, q: QuantTy, x: Var)
    requires
        bound_by(p, q, x),
    ensures
        bound(p, x),
{
    let i = choose|i: int| 0 <= i < p.len() && (#[trigger] p[i]).0 == q && p[i].1.contains(x);
    assert(p[i].1.contains(x));
}

/// What is bound is bound by a quantifier.
pub proof fn lemma_bound_some(p: Prefix, x: Var)
    requires
        bound(p, x),
    ensures
        bound_by(p, QuantTy::Forall, x) || bound_by(p, QuantTy::Exists, x),
{
    let i = choose|i: int| 0 <= i < p.len() && (#[trigger] p[i]).1.contains(x);
    match p[i].0 {
        QuantTy::Forall => {
            assert(p[i].0 == QuantTy::Forall && p[i].1.contains(x));
        },
        QuantTy::Exists => {
            assert(p[i].0 == QuantTy::Exists && p[i].1.contains(x));
        },
    }
}

/// A strategy for the normal form is one for the formula.
pub proof fn lemma_plays_normalized(s: &Strategy, p: Prefix, r: Prefix, m: Matrix, limit: int)
    requires
        plays(*s, r, m, limit),
        forall|x: Var| #[trigger] bound(r, x) <==> bound(p, x) || mentions(m, x),
        forall|q: QuantTy, x: Var| #[trigger] bound_by(r, q, x) ==> bound_by(p, q, x) || (q == QuantTy::Exists && !bound(p, x)),
    ensures
        plays(*s, p, m, limit),
{
    lemma_steady_more(s, universal_set(r), universal_set(p));
    assert forall|universal: Seq<i32>, values: Map<Var, bool>|
        #![trigger s.values(universal, values)]
        covers(universal, p) && outside(values, p, m, limit) implies keeps(values, s.values(universal, values)) && wins_at(
        s.values(universal, values),
        universal,
        p,
        m,
    ) by {
        lemma_covers_part(universal, p, r);
        assert(outside(values, r, m, limit));
        let last = s.values(universal, values);
        assert(wins_at(last, universal, r, m));
        assert forall|a: Assignment| #[trigger] follows_on(a, universal, p) && agrees(a, last) implies matrix_true(a, m) by {
            assert(follows_on(a, universal, r));
        }
    }
}

/// The assignment takes the committed literals.
pub proof fn lemma_commit_cube(values: Map<Var, bool>, lits: Seq<Lit>, a: Assignment)
    requires
        consistent(lits),
        agrees(a, commit(values, lits)),
    ensures
        cube_true(a, lits),
{
    lemma_commit(values, lits);
    assert forall|i: int| 0 <= i < lits.len() implies lit_true(a, #[trigger] lits[i]) by {
        let x = lits[i].v();
        assert(clause_mentions(lits, x));
        assert(commit(values, lits).contains_key(x));
    }
}

/// Committing to literals and then playing keeps values of other
/// variables.
proof fn lemma_commit_keeps(values: Map<Var, bool>, lits: Seq<Lit>, after: Map<Var, bool>)
    requires
        forall|x: Var| #[trigger] values.contains_key(x) ==> !clause_mentions(lits, x),
        keeps(commit(values, lits), after),
    ensures
        keeps(values, after),
{
    lemma_commit(values, lits);
    assert forall|x: Var| #[trigger] values.contains_key(x) implies after.contains_key(x) && after[x] == values[x] by {
        assert(commit(values, lits).contains_key(x));
        assert(commit(values, lits)[x] == values[x]);
    }
}

/// An assignment that agrees with later values agrees with those kept.
proof fn lemma_agrees_kept(a: Assignment, before: Map<Var, bool>, after: Map<Var, bool>)
    requires
        keeps(before, after),
        agrees(a, after),
    ensures
        agrees(a, before),
{
    assert forall|x: Var| #[trigger] before.contains_key(x) implies a(x) == before[x] by {
        assert(after.contains_key(x));
    }
}

/// Committing to literals whose variables the rest does not concern, where
/// they lift the matrix of the rest to the matrix.
pub proof fn lemma_plays_commit(
    rest: Strategy,
    lits: Seq<Lit>,
    p: Prefix,
    m: Matrix,
    r: Prefix,
    n: Matrix,
    limit: int,
    universal: Seq<i32>,
    values: Map<Var, bool>,
)
    requires
        plays(rest, r, n, limit),
        consistent(lits),
        forall|x: Var| #[trigger] clause_mentions(lits, x) ==> (bound(p, x) || mentions(m, x)) && !bound(r, x) && !mentions(n, x)
            && x.id() < limit,
        forall|x: Var| #[trigger] bound(r, x) ==> bound(p, x),
        forall|x: Var| #[trigger] bound_by(r, QuantTy::Forall, x) ==> bound_by(p, QuantTy::Forall, x),
        forall|x: Var| #[trigger] mentions(n, x) ==> mentions(m, x),
        forall|b: Assignment| #[trigger] matrix_true(b, n) && cube_true(b, lits) ==> matrix_true(b, m),
        covers(universal, p),
        outside(values, p, m, limit),
    ensures
        keeps(values, rest.values(universal, commit(values, lits))),
        wins_at(rest.values(universal, commit(values, lits)), universal, p, m),
{
    let first = commit(values, lits);
    let last = rest.values(universal, first);
    lemma_commit(values, lits);
    lemma_covers_part(universal, p, r);
    assert forall|x: Var| #[trigger] first.contains_key(x) implies !bound(r, x) && !mentions(n, x) && x.id() < limit by {
        if !clause_mentions(lits, x) {
            assert(values.contains_key(x));
        }
    }
    assert(outside(first, r, n, limit));
    assert(keeps(first, last) && wins_at(last, universal, r, n));
    assert forall|x: Var| #[trigger] values.contains_key(x) implies !clause_mentions(lits, x) by {}
    lemma_commit_keeps(values, lits, last);
    assert forall|a: Assignment| #[trigger] follows_on(a, universal, p) && agrees(a, last) implies matrix_true(a, m) by {
        lemma_agrees_kept(a, first, last);
        lemma_commit_cube(values, lits, a);
        assert(follows_on(a, universal, r));
        assert(matrix_true(a, n));
    }
}

/// Fixed literals in front of a strategy for the simplified instance.
pub proof fn lemma_plays_fixed(
    assignments: Vec<Lit>,
    rest: Rc<Strategy>,
    p: Prefix,
    m: Matrix,
    r: Prefix,
    n: Matrix,
    limit: int,
)
    requires
        simplifies(p, m, r, n, assignments@),
        plays(*rest, r, n, limit),
        forall|x: Var| #[trigger] bound(p, x) ==> x.id() < limit,
    ensures
        plays(Strategy::Fixed { assignments, rest }, p, m, limit),
{
    let s = Strategy::Fixed { assignments, rest };
    assert forall|x: Var| #[trigger] bound(r, x) implies bound(p, x) by {
        lemma_bound_some(r, x);
        if bound_by(r, QuantTy::Forall, x) {
            lemma_bound_by(p, QuantTy::Forall, x);
        } else {
            lemma_bound_by(p, QuantTy::Exists, x);
        }
    }
    assert forall|x: Var| #[trigger] clause_mentions(assignments@, x) implies bound(p, x) by {
        lemma_bound_by(p, QuantTy::Exists, x);
    }
    lemma_steady_more(&*rest, universal_set(r), universal_set(p));
    assert forall|x: Var| #[trigger] clause_mentions(assignments@, x) implies !rest.pivotal(x) by {
        assert(bound(p, x));
    }
    assert forall|x: Var| #[trigger] s.names(x) implies concerned(p, m, limit, x) by {
        if rest.names(x) {
            assert(concerned(r, n, limit, x));
        } else {
            assert(clause_mentions(assignments@, x));
        }
    }
    assert forall|x: Var| #[trigger] s.pivotal(x) implies concerned(p, m, limit, x) by {
        assert(rest.pivotal(x));
        assert(concerned(r, n, limit, x));
    }
    assert forall|universal: Seq<i32>, values: Map<Var, bool>|
        #![trigger s.values(universal, values)]
        covers(universal, p) && outside(values, p, m, limit) implies keeps(values, s.values(universal, values)) && wins_at(
        s.values(universal, values),
        universal,
        p,
        m,
    ) by {
        lemma_plays_commit(*rest, assignments@, p, m, r, n, limit, universal, values);
    }
}

/// A strategy for the simplified instance alone, where nothing was fixed.
pub proof fn lemma_plays_unfixed(rest: &Strategy, p: Prefix, m: Matrix, r: Prefix, n: Matrix, fixed: Seq<Lit>, limit: int)
    requires
        simplifies(p, m, r, n, fixed),
        fixed.len() == 0,
        plays(*rest, r, n, limit),
    ensures
        plays(*rest, p, m, limit),
{
    assert forall|x: Var| #[trigger] bound(r, x) implies bound(p, x) by {
        lemma_bound_some(r, x);
        if bound_by(r, QuantTy::Forall, x) {
            lemma_bound_by(p, QuantTy::Forall, x);
        } else {
            lemma_bound_by(p, QuantTy::Exists, x);
        }
    }
    lemma_steady_more(rest, universal_set(r), universal_set(p));
    assert forall|universal: Seq<i32>, values: Map<Var, bool>|
        #![trigger rest.values(universal, values)]
        covers(universal, p) && outside(values, p, m, limit) implies keeps(values, rest.values(universal, values)) && wins_at(
        rest.values(universal, values),
        universal,
        p,
        m,
    ) by {
        lemma_covers_part(universal, p, r);
        assert(outside(values, r, n, limit));
        let last = rest.values(universal, values);
        assert(wins_at(last, universal, r, n));
        assert forall|a: Assignment| #[trigger] follows_on(a, universal, p) && agrees(a, last) implies matrix_true(a, m) by {
            assert(cube_true(a, fixed));
            assert(follows_on(a, universal, r));
            assert(matrix_true(a, n));
        }
    }
}

/// The second matrix is the first one restricted by the cube.
pub open spec fn restricts(m: Matrix, n: Matrix, cube: Seq<Lit>) -> bool {
    &&& forall|b: Assignment| #[trigger] cube_true(b, cube) ==> matrix_true(b, m) == matrix_true(b, n)
    &&& forall|x: Var| #[trigger] mentions(n, x) ==> mentions(m, x) && !clause_mentions(cube, x)
}

/// Constants for the outermost existential block in front of a strategy
/// for the restricted instance.
pub proof fn lemma_plays_choose(
    constants: Vec<Lit>,
    rest: Rc<Strategy>,
    p: Prefix,
    m: Matrix,
    n: Matrix,
    limit: int,
)
    requires
        p.len() > 0,
        prefix_distinct(p),
        consistent(constants@),
        forall|x: Var| #[trigger] clause_mentions(constants@, x) ==> p[0].1.contains(x),
        restricts(m, n, constants@),
        plays(*rest, p.drop_first(), n, limit),
        forall|x: Var| #[trigger] bound(p, x) ==> x.id() < limit,
    ensures
        plays(Strategy::Choose { constants, rest }, p, m, limit),
{
    let s = Strategy::Choose { constants, rest };
    let r = p.drop_first();
    lemma_rest_facts(p);
    lemma_steady_more(&*rest, universal_set(r), universal_set(p));
    assert forall|x: Var| #[trigger] clause_mentions(constants@, x) implies !rest.pivotal(x) && bound(p, x) by {
        lemma_bound_first(p, x);
        assert(p[0].1.contains(x));
    }
    assert forall|x: Var| #[trigger] s.names(x) implies concerned(p, m, limit, x) by {
        if rest.names(x) {
            assert(concerned(r, n, limit, x));
        } else {
            assert(clause_mentions(constants@, x));
        }
    }
    assert forall|x: Var| #[trigger] s.pivotal(x) implies concerned(p, m, limit, x) by {
        assert(rest.pivotal(x));
        assert(concerned(r, n, limit, x));
    }
    assert forall|universal: Seq<i32>, values: Map<Var, bool>|
        #![trigger s.values(universal, values)]
        covers(universal, p) && outside(values, p, m, limit) implies keeps(values, s.values(universal, values)) && wins_at(
        s.values(universal, values),
        universal,
        p,
        m,
    ) by {
        assert forall|x: Var| #[trigger] clause_mentions(constants@, x) implies (bound(p, x) || mentions(m, x)) && !bound(r, x)
            && !mentions(n, x) && x.id() < limit by {
            lemma_bound_first(p, x);
            assert(p[0].1.contains(x));
        }
        lemma_plays_commit(*rest, constants@, p, m, r, n, limit, universal, values);
    }
}

/// What the blocks behind the first one bind.
pub proof fn lemma_rest_facts(p: Prefix)
    requires
        p.len() > 0,
        prefix_distinct(p),
    ensures
        prefix_distinct(p.drop_first()),
        forall|x: Var| #[trigger] bound(p.drop_first(), x) ==> bound(p, x) && !p[0].1.contains(x),
        forall|x: Var| #[trigger] p[0].1.contains(x) ==> bound(p, x) && !bound(p.drop_first(), x),
        forall|q: QuantTy, x: Var| #[trigger] bound_by(p.drop_first(), q, x) ==> bound_by(p, q, x),
{
    let r = p.drop_first();
    assert forall|i: int| 0 <= i < r.len() implies #[trigger] r[i] == p[i + 1] by {}
    assert forall|i: int| 0 <= i < r.len() implies (#[trigger] r[i]).1.no_duplicates() by {
        assert(p[i + 1].1.no_duplicates());
    }
    assert forall|i: int, j: int, x: Var|
        0 <= i < j < r.len() && #[trigger] r[i].1.contains(x) implies !#[trigger] r[j].1.contains(x) by {
        assert(p[i + 1].1.contains(x));
        assert(!p[j + 1].1.contains(x));
    }
    assert forall|x: Var| #[trigger] bound(r, x) implies bound(p, x) && !p[0].1.contains(x) by {
        lemma_bound_first(p, x);
        let i = choose|i: int| 0 <= i < r.len() && (#[trigger] r[i]).1.contains(x);
        if p[0].1.contains(x) {
            assert(!p[i + 1].1.contains(x));
        }
    }
    assert forall|x: Var| #[trigger] p[0].1.contains(x) implies bound(p, x) && !bound(r, x) by {
        lemma_bound_first(p, x);
    }
    assert forall|q: QuantTy, x: Var| #[trigger] bound_by(r, q, x) implies bound_by(p, q, x) by {
        let i = choose|i: int| 0 <= i < r.len() && (#[trigger] r[i]).0 == q && r[i].1.contains(x);
        assert(p[i + 1].0 == q && p[i + 1].1.contains(x));
    }
}

/// A case of a split: a cube over the universal block and a strategy for
/// the instance restricted by it.
pub open spec fn case_ok(case: (Vec<Lit>, Rc<Strategy>), n: Matrix, p: Prefix, m: Matrix, limit: int) -> bool {
    &&& forall|x: Var| #[trigger] clause_mentions(case.0@, x) ==> p[0].1.contains(x)
    &&& restricts(m, n, case.0@)
    &&& plays(*case.1, p.drop_first(), n, limit)
}

/// The cube of some case holds.
pub open spec fn some_case(cases: Seq<(Vec<Lit>, Rc<Strategy>)>, a: Assignment) -> bool {
    exists|i: int| 0 <= i < cases.len() && cube_true(a, (#[trigger] cases[i]).0@)
}

/// The first known case is known.
proof fn lemma_first_case(
    cases: Seq<(Vec<Lit>, Rc<Strategy>)>,
    from: int,
    universal: Seq<i32>,
    values: Map<Var, bool>,
    some: int,
)
    requires
        0 <= from <= some < cases.len(),
        cube_known(universal, values, cases[some].0@),
    ensures
        from <= first_case(cases, from, universal, values) < cases.len(),
        cube_known(universal, values, cases[first_case(cases, from, universal, values)].0@),
    decreases cases.len() - from,
{
    if !cube_known(universal, values, cases[from].0@) {
        lemma_first_case(cases, from + 1, universal, values, some);
    }
}

proof fn lemma_split_shaped(cases: Vec<(Vec<Lit>, Rc<Strategy>)>, restricted: Seq<Matrix>, p: Prefix, m: Matrix, limit: int)
    requires
        p.len() > 0,
        p[0].0 == QuantTy::Forall,
        prefix_distinct(p),
        restricted.len() == cases@.len(),
        forall|i: int| 0 <= i < cases@.len() ==> case_ok(#[trigger] cases@[i], restricted[i], p, m, limit),
    ensures
        shaped(Strategy::Split { cases }, p, m, limit),
{
    let s = Strategy::Split { cases };
    let r = p.drop_first();
    let all = universal_set(p);
    lemma_rest_facts(p);
    assert forall|i: int| 0 <= i < cases@.len() implies reads_only((#[trigger] cases@[i]).0@, all) && cases@[i].1.steady(all) by {
        assert(case_ok(cases@[i], restricted[i], p, m, limit));
        assert(shaped(*cases@[i].1, r, restricted[i], limit));
        lemma_steady_more(&*cases@[i].1, universal_set(r), all);
        let cube = cases@[i].0@;
        assert forall|j: int| 0 <= j < cube.len() implies all.contains((#[trigger] cube[j]).v()) by {
            assert(clause_mentions(cube, cube[j].v()));
            assert(p[0].0 == QuantTy::Forall && p[0].1.contains(cube[j].v()));
        }
    }
    lemma_cases(cases, cases@.len(), all);
    assert forall|x: Var| #[trigger] s.names(x) implies concerned(p, m, limit, x) by {
        lemma_some_case(cases, cases@.len(), x);
        let i = choose|i: int| 0 <= i < cases@.len() && (#[trigger] cases@[i]).1.names(x);
        assert(case_ok(cases@[i], restricted[i], p, m, limit));
        assert(shaped(*cases@[i].1, r, restricted[i], limit));
        assert(concerned(r, restricted[i], limit, x));
    }
    assert forall|x: Var| #[trigger] s.pivotal(x) implies concerned(p, m, limit, x) by {
        lemma_some_case(cases, cases@.len(), x);
        let i = choose|i: int| 0 <= i < cases@.len() && (clause_mentions((#[trigger] cases@[i]).0@, x) || cases@[i].1.pivotal(x));
        assert(case_ok(cases@[i], restricted[i], p, m, limit));
        assert(shaped(*cases@[i].1, r, restricted[i], limit));
        if cases@[i].1.pivotal(x) {
            assert(concerned(r, restricted[i], limit, x));
        } else {
            assert(p[0].1.contains(x));
        }
    }
}

/// One case per assignment of the outermost universal block.
pub proof fn lemma_plays_split(
    cases: Vec<(Vec<Lit>, Rc<Strategy>)>,
    restricted: Seq<Matrix>,
    p: Prefix,
    m: Matrix,
    limit: int,
)
    requires
        p.len() > 0,
        p[0].0 == QuantTy::Forall,
        prefix_distinct(p),
        restricted.len() == cases@.len(),
        forall|i: int| 0 <= i < cases@.len() ==> case_ok(#[trigger] cases@[i], restricted[i], p, m, limit),
        forall|a: Assignment| #[trigger] some_case(cases@, a),
    ensures
        plays(Strategy::Split { cases }, p, m, limit),
{
    let s = Strategy::Split { cases };
    let r = p.drop_first();
    lemma_rest_facts(p);
    lemma_split_shaped(cases, restricted, p, m, limit);
    assert forall|universal: Seq<i32>, values: Map<Var, bool>|
        #![trigger s.values(universal, values)]
        covers(universal, p) && outside(values, p, m, limit) implies keeps(values, s.values(universal, values)) && wins_at(
        s.values(universal, values),
        universal,
        p,
        m,
    ) by {
        let b = |x: Var| played(universal, x.dimacs());
        assert(some_case(cases@, b));
        let some = choose|i: int| 0 <= i < cases@.len() && cube_true(b, (#[trigger] cases@[i]).0@);
        assert(case_ok(cases@[some], restricted[some], p, m, limit));
        let cube = cases@[some].0@;
        assert forall|i: int| 0 <= i < cube.len() implies played(universal, (#[trigger] cube[i]).dimacs()) by {
            let x = cube[i].v();
            assert(clause_mentions(cube, x));
            assert(p[0].0 == QuantTy::Forall && p[0].1.contains(x));
            assert(bound_by(p, QuantTy::Forall, x));
            assert(lit_true(b, cube[i]));
        }
        assert(cube_known(universal, values, cube));
        lemma_first_case(cases@, 0, universal, values, some);
        let k = first_case(cases@, 0, universal, values);
        assert(case_ok(cases@[k], restricted[k], p, m, limit));
        let chosen = cases@[k].0@;
        let n = restricted[k];
        let last = s.values(universal, values);
        assert(last == cases@[k].1.values(universal, values));
        lemma_covers_part(universal, p, r);
        assert(outside(values, r, n, limit));
        assert(keeps(values, last) && wins_at(last, universal, r, n));
        assert forall|a: Assignment| #[trigger] follows_on(a, universal, p) && agrees(a, last) implies matrix_true(a, m) by {
            assert forall|i: int| 0 <= i < chosen.len() implies lit_true(a, #[trigger] chosen[i]) by {
                let x = chosen[i].v();
                assert(clause_mentions(chosen, x));
                assert(p[0].1.contains(x));
                assert(bound(p, x));
                assert(!values.contains_key(x));
                assert(played(universal, chosen[i].dimacs()));
                assert(p[0].0 == QuantTy::Forall && p[0].1.contains(x));
                assert(bound_by(p, QuantTy::Forall, x));
                assert(a(x) == played(universal, x.dimacs()));
            }
            assert(cube_true(a, chosen));
            assert(follows_on(a, universal, r));
            assert(matrix_true(a, n));
        }
    }
}

/// A certified model is a strategy.
pub proof fn lemma_plays_leaf(model: Rc<SkolemModel>, p: Prefix, m: Matrix, limit: int)
    requires
        certifies(p, m, *model),
    ensures
        plays(Strategy::Leaf(model), p, m, limit),
{
    let s = Strategy::Leaf(model);
    let us = model.spec_universals();
    assert(shaped(s, p, m, limit));
    assert forall|universal: Seq<i32>, values: Map<Var, bool>|
        #![trigger s.values(universal, values)]
        covers(universal, p) && outside(values, p, m, limit) implies keeps(values, s.values(universal, values)) && wins_at(
        s.values(universal, values),
        universal,
        p,
        m,
    ) by {
        let point = leaf_point(us, universal);
        assert(assigns(point, us));
        let inner = model.values(point);
        let last = s.values(universal, values);
        assert(last == leaf_values(*model, universal, values));
        assert forall|x: Var| #[trigger] values.contains_key(x) implies last.contains_key(x) && last[x] == values[x] by {
            if inner.contains_key(x) {
                assert(model.values(point).contains_key(x));
            }
        }
        assert forall|a: Assignment| #[trigger] follows_on(a, universal, p) && agrees(a, last) implies matrix_true(a, m) by {
            assert forall|x: Var| #[trigger] inner.contains_key(x) implies a(x) == inner[x] by {
                if us.contains(x) {
                    assert(model.values(point).contains_key(x) && model.values(point)[x] == point[x]);
                    assert(bound_by(p, QuantTy::Forall, x));
                    assert(a(x) == played(universal, x.dimacs()));
                } else {
                    assert(last.contains_key(x));
                }
            }
            assert(agrees(a, model.values(point)));
        }
    }
}

/// Following the universal player on a variable that is played one way.
pub proof fn lemma_follows_var(a: Assignment, universal: Seq<i32>, x: Var)
    requires
        follows(a, universal),
        played(universal, x.dimacs()) != played(universal, -x.dimacs()),
    ensures
        a(x) == played(universal, x.dimacs()),
{
    assert(x.id() <= crate::literal::MAX_INDEX + 1) by {
        if played(universal, x.dimacs()) {
            let i = choose|i: int| 0 <= i < universal.len() && #[trigger] universal[i] == x.dimacs();
        } else {
            let i = choose|i: int| 0 <= i < universal.len() && #[trigger] universal[i] == -x.dimacs();
        }
    }
    let positive = crate::literal::lit_of(x, true);
    let negative = crate::literal::lit_of(x, false);
    crate::literal::lemma_lit_of(x, true);
    crate::literal::lemma_lit_of(x, false);
    if played(universal, x.dimacs()) {
        assert(played(universal, positive.dimacs()));
    } else {
        assert(played(universal, negative.dimacs()));
    }
}

} // verus!
