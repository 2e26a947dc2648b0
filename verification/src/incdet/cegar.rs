//! Resolving universal assignments by recorded responses.
//!
//! A query asks whether the existential player has any response to a
//! universal assignment. No response means the formula is false. A response
//! is generalized to a cube: a part of the universal assignment under which
//! the response satisfies every clause. The cube is recorded as a handled
//! case and excluded from the remaining domain; once the domain is empty
//! the recorded responses cover every universal assignment.
use crate::datastructure::{VarMap, VarSet};
use crate::incdet::model::{agrees, assigns, chain_values, commit, region_values, Region, SkolemModel};
use crate::literal::{Lit, Var};
use crate::qcnf::{assignment_of, matrix_of};
use crate::sat::{clauses_ok, consistent, lit_ok, lits_ok, SatOutcome, SatSolver};
use crate::semantics::{clause_true, cube_true, lit_true, matrix_true, Assignment, Matrix};
use vstd::prelude::*;

verus! {

broadcast use crate::literal::group_literal;

/// The assignments agree on the given variables.
pub open spec fn agree_on(a: Assignment, b: Assignment, vs: Seq<Var>) -> bool {
    forall|x: Var| vs.contains(x) ==> #[trigger] a(x) == b(x)
}

/// Every assignment of the universal variables has a response that
/// satisfies the clauses.
pub open spec fn answered(universals: Seq<Var>, m: Matrix) -> bool {
    forall|u: Assignment| #[trigger] has_response(universals, m, u)
}

/// The universal assignment has a response.
pub open spec fn has_response(universals: Seq<Var>, m: Matrix, u: Assignment) -> bool {
    exists|a: Assignment| agree_on(u, a, universals) && #[trigger] matrix_true(a, m)
}

/// The values of a consistent list of literals. Variables it leaves out
/// are absent.
pub(crate) fn values_of_lits(lits: &Vec<Lit>) -> (values: VarMap<bool>)
    requires
        consistent(lits@),
    ensures
        cube_true(assignment_of(values@), lits@),
        forall|x: Var| #[trigger] values@.contains_key(x) <==> crate::semantics::clause_mentions(lits@, x),
{
    let mut values: VarMap<bool> = VarMap::new();
    let mut k: usize = 0;
    while k < lits.len()
        invariant
            k <= lits@.len(),
            consistent(lits@),
            forall|i: int| 0 <= i < k ==> values@.contains_key((#[trigger] lits@[i]).v()) && values@[lits@[i].v()] == lits@[i].pos(),
            forall|x: Var| #[trigger] values@.contains_key(x) ==> crate::semantics::clause_mentions(lits@, x),
        decreases lits.len() - k,
    {
        let lit = lits[k];
        values.insert(lit.var(), lit.is_positive());
        assert(crate::semantics::clause_mentions(lits@, lits@[k as int].v()));
        k += 1;
    }
    values
}

/// The literal of the variable that holds under the values; a missing
/// variable is false.
pub(crate) fn lit_under(var: Var, values: &VarMap<bool>) -> (lit: Lit)
    ensures
        lit.v() == var,
        lit_true(assignment_of(values@), lit),
{
    match values.get(var) {
        Some(true) => Lit::positive(var),
        _ => Lit::negative(var),
    }
}

/// The literals of the variables that hold under the values.
pub(crate) fn lits_under(vars: &Vec<Var>, values: &VarMap<bool>) -> (lits: Vec<Lit>)
    ensures
        lits@.len() == vars@.len(),
        forall|i: int| 0 <= i < vars@.len() ==> (#[trigger] lits@[i]).v() == vars@[i],
        cube_true(assignment_of(values@), lits@),
{
    let mut lits: Vec<Lit> = Vec::new();
    let mut k: usize = 0;
    while k < vars.len()
        invariant
            k <= vars@.len(),
            lits@.len() == k,
            forall|i: int| 0 <= i < k ==> (#[trigger] lits@[i]).v() == vars@[i],
            cube_true(assignment_of(values@), lits@),
        decreases vars.len() - k,
    {
        lits.push(lit_under(vars[k], values));
        k += 1;
    }
    lits
}

/// The literal of the clause that holds and whose variable is neither
/// dropped nor the given one.
pub open spec fn supported_without(a: Assignment, c: Seq<Lit>, dropped: Set<Var>, x: Var) -> bool {
    exists|j: int|
        0 <= j < c.len() && lit_true(a, #[trigger] c[j]) && !dropped.contains(c[j].v()) && c[j].v() != x
}

/// Some literal of the clause holds and its variable is not dropped.
pub open spec fn supported(a: Assignment, c: Seq<Lit>, dropped: Set<Var>) -> bool {
    exists|j: int| 0 <= j < c.len() && lit_true(a, #[trigger] c[j]) && !dropped.contains(c[j].v())
}

/// The variables that a cube leaves out.
pub open spec fn left_out(interface: Set<Var>, cube: Seq<Lit>) -> Set<Var> {
    Set::new(|x: Var| interface.contains(x) && !crate::semantics::clause_mentions(cube, x))
}

/// Some clause has no literal that holds but of the given variable and of
/// variables that are dropped.
pub open spec fn relies_on(a: Assignment, m: Matrix, dropped: Set<Var>, x: Var) -> bool {
    exists|n: int| 0 <= n < m.len() && !supported_without(a, #[trigger] m[n], dropped, x)
}

/// No literal of the cube can be dropped as well: some clause relies on it.
pub open spec fn tight(a: Assignment, m: Matrix, interface: Set<Var>, cube: Seq<Lit>) -> bool {
    forall|i: int| 0 <= i < cube.len() ==> relies_on(a, m, left_out(interface, cube), (#[trigger] cube[i]).v())
}

/// What relies on a variable does so if more is dropped.
proof fn lemma_relies(a: Assignment, m: Matrix, few: Set<Var>, more: Set<Var>, x: Var)
    requires
        relies_on(a, m, few, x),
        few.subset_of(more),
    ensures
        relies_on(a, m, more, x),
{
    let n = choose|n: int| 0 <= n < m.len() && !supported_without(a, #[trigger] m[n], few, x);
    if supported_without(a, m[n], more, x) {
        let j = choose|j: int| 0 <= j < m[n].len() && lit_true(a, #[trigger] m[n][j]) && !more.contains(m[n][j].v()) && m[n][j].v() != x;
        assert(lit_true(a, m[n][j]) && !few.contains(m[n][j].v()));
    }
}

fn is_supported_without(clause: &Vec<Lit>, values: &VarMap<bool>, dropped: &VarSet, var: Var) -> (found: bool)
    ensures
        found == supported_without(assignment_of(values@), clause@, dropped@, var),
{
    let mut j: usize = 0;
    while j < clause.len()
        invariant
            j <= clause@.len(),
            forall|k: int|
                0 <= k < j ==> !(lit_true(assignment_of(values@), #[trigger] clause@[k]) && !dropped@.contains(
                    clause@[k].v(),
                ) && clause@[k].v() != var),
        decreases clause.len() - j,
    {
        let lit = clause[j];
        if lit.var() != var && crate::incdet::model::truth(lit, values) && !dropped.contains(lit.var()) {
            assert(lit_true(assignment_of(values@), clause@[j as int]));
            return true;
        }
        j += 1;
    }
    false
}

/// Minimizes the values of the interface variables to a cube such that
/// the values of the other variables satisfy every clause under every
/// extension of the cube. A literal is dropped if every clause it
/// satisfies keeps another support that is not dropped itself.
pub(crate) fn minimize_cube(clauses: &Vec<Vec<Lit>>, interface: &Vec<Var>, values: &VarMap<bool>) -> (cube: Vec<Lit>)
    requires
        matrix_true(assignment_of(values@), matrix_of(clauses@)),
    ensures
        cube_true(assignment_of(values@), cube@),
        forall|i: int| 0 <= i < cube@.len() ==> interface@.contains((#[trigger] cube@[i]).v()),
        forall|a: Assignment| #[trigger] cube_true(a, cube@) && (forall|x: Var|
            !interface@.contains(x) ==> #[trigger] a(x) == assignment_of(values@)(x)) ==> matrix_true(
            a,
            matrix_of(clauses@),
        ),
        tight(assignment_of(values@), matrix_of(clauses@), interface@.to_set(), cube@),
{
    let ghost star = assignment_of(values@);
    let ghost m = matrix_of(clauses@);
    let mut dropped = VarSet::new();
    let mut cube: Vec<Lit> = Vec::new();
    proof {
        assert forall|i: int| 0 <= i < clauses@.len() implies supported(star, (#[trigger] clauses@[i])@, dropped@) by {
            assert(clause_true(star, matrix_of(clauses@)[i]));
            let c = clauses@[i]@;
            let j = choose|j: int| 0 <= j < c.len() && lit_true(star, #[trigger] c[j]);
            assert(lit_true(star, c[j]) && !dropped@.contains(c[j].v()));
        }
    }
    let mut k: usize = 0;
    while k < interface.len()
        invariant
            k <= interface@.len(),
            star == assignment_of(values@),
            cube_true(star, cube@),
            forall|i: int| 0 <= i < cube@.len() ==> interface@.contains((#[trigger] cube@[i]).v()),
            forall|i: int| 0 <= i < clauses@.len() ==> supported(star, (#[trigger] clauses@[i])@, dropped@),
            forall|i: int|
                0 <= i < k ==> dropped@.contains(#[trigger] interface@[i]) || exists|j: int|
                    0 <= j < cube@.len() && (#[trigger] cube@[j]).v() == interface@[i],
            m == matrix_of(clauses@),
            forall|x: Var| #[trigger] dropped@.contains(x) ==> interface@.contains(x),
            forall|j: int| 0 <= j < cube@.len() ==> relies_on(star, m, dropped@, (#[trigger] cube@[j]).v()) && !dropped@.contains(cube@[j].v()),
        decreases interface.len() - k,
    {
        let var = interface[k];
        let lit = lit_under(var, values);
        let mut needed = false;
        let mut i: usize = 0;
        while i < clauses.len() && !needed
            invariant
                i <= clauses@.len(),
                star == assignment_of(values@),
                m == matrix_of(clauses@),
                !needed ==> forall|n: int| 0 <= n < i ==> supported_without(star, (#[trigger] clauses@[n])@, dropped@, var),
                needed ==> relies_on(star, m, dropped@, var),
            decreases clauses.len() - i,
        {
            if !is_supported_without(&clauses[i], values, &dropped, var) {
                needed = true;
                assert(!supported_without(star, m[i as int], dropped@, var));
            }
            i += 1;
        }
        let ghost old_cube = cube@;
        let ghost old_dropped = dropped@;
        if needed {
            cube.push(lit);
            proof {
                assert(cube@[old_cube.len() as int].v() == interface@[k as int]);
                assert(!dropped@.contains(var)) by {
                    if dropped@.contains(var) {
                        let n = choose|n: int| 0 <= n < m.len() && !supported_without(star, #[trigger] m[n], dropped@, var);
                        assert(supported(star, clauses@[n]@, dropped@));
                        let c = clauses@[n]@;
                        let j = choose|j: int| 0 <= j < c.len() && lit_true(star, #[trigger] c[j]) && !dropped@.contains(c[j].v());
                        assert(lit_true(star, m[n][j]) && c[j].v() != var);
                    }
                }
                assert forall|j: int| 0 <= j < cube@.len() implies relies_on(star, m, dropped@, (#[trigger] cube@[j]).v()) && !dropped@.contains(
                    cube@[j].v(),
                ) by {
                    if j < old_cube.len() {
                        assert(cube@[j] == old_cube[j]);
                    }
                }
            }
        } else {
            proof {
                assert forall|j: int| 0 <= j < cube@.len() implies (#[trigger] cube@[j]).v() != var by {
                    if cube@[j].v() == var {
                        let n = choose|n: int| 0 <= n < m.len() && !supported_without(star, #[trigger] m[n], dropped@, var);
                        assert(supported_without(star, clauses@[n]@, dropped@, var));
                    }
                }
                assert(interface@.contains(interface@[k as int]));
            }
            dropped.insert(var);
            proof {
                assert forall|j: int| 0 <= j < cube@.len() implies relies_on(star, m, dropped@, (#[trigger] cube@[j]).v()) && !dropped@.contains(
                    cube@[j].v(),
                ) by {
                    lemma_relies(star, m, old_dropped, dropped@, cube@[j].v());
                }
                assert forall|n: int| 0 <= n < clauses@.len() implies supported(star, (#[trigger] clauses@[n])@, dropped@) by {
                    let c = clauses@[n]@;
                    assert(supported_without(star, c, old_dropped, var));
                    let j = choose|j: int|
                        0 <= j < c.len() && lit_true(star, #[trigger] c[j]) && !old_dropped.contains(c[j].v()) && c[j].v() != var;
                    assert(lit_true(star, c[j]) && !dropped@.contains(c[j].v()));
                }
            }
        }
        proof {
            assert forall|i: int| 0 <= i < k + 1 implies dropped@.contains(#[trigger] interface@[i]) || exists|j: int|
                0 <= j < cube@.len() && (#[trigger] cube@[j]).v() == interface@[i] by {
                if i < k && !old_dropped.contains(interface@[i]) {
                    let j = choose|j: int| 0 <= j < old_cube.len() && (#[trigger] old_cube[j]).v() == interface@[i];
                    assert(cube@[j] == old_cube[j]);
                }
            }
        }
        k += 1;
    }
    proof {
        assert(dropped@ =~= left_out(interface@.to_set(), cube@)) by {
            assert forall|x: Var| dropped@.contains(x) == left_out(interface@.to_set(), cube@).contains(x) by {
                if dropped@.contains(x) && crate::semantics::clause_mentions(cube@, x) {
                    let j = choose|j: int| 0 <= j < cube@.len() && (#[trigger] cube@[j]).v() == x;
                    assert(!dropped@.contains(cube@[j].v()));
                }
                if left_out(interface@.to_set(), cube@).contains(x) && !dropped@.contains(x) {
                    let i = choose|i: int| 0 <= i < interface@.len() && interface@[i] == x;
                    let j = choose|j: int| 0 <= j < cube@.len() && (#[trigger] cube@[j]).v() == interface@[i];
                    assert(crate::semantics::clause_mentions(cube@, x));
                }
            }
        }
        assert forall|a: Assignment| #[trigger] cube_true(a, cube@) && (forall|x: Var|
            !interface@.contains(x) ==> #[trigger] a(x) == star(x)) implies matrix_true(a, matrix_of(clauses@)) by {
            assert forall|n: int| 0 <= n < clauses@.len() implies clause_true(a, #[trigger] matrix_of(clauses@)[n]) by {
                let c = clauses@[n]@;
                assert(supported(star, clauses@[n]@, dropped@));
                let j = choose|j: int| 0 <= j < c.len() && lit_true(star, #[trigger] c[j]) && !dropped@.contains(c[j].v());
                let x = c[j].v();
                if interface@.contains(x) {
                    let i = choose|i: int| 0 <= i < interface@.len() && interface@[i] == x;
                    assert(!dropped@.contains(interface@[i]));
                    let h = choose|h: int| 0 <= h < cube@.len() && (#[trigger] cube@[h]).v() == interface@[i];
                    assert(lit_true(star, cube@[h]));
                    assert(lit_true(a, cube@[h]));
                } else {
                    assert(a(x) == star(x));
                }
                assert(lit_true(a, c[j]));
            }
        }
    }
    cube
}

/// The negation of a cube, as a clause.
pub(crate) fn negate(cube: &Vec<Lit>) -> (clause: Vec<Lit>)
    ensures
        clause@.len() == cube@.len(),
        forall|i: int| 0 <= i < cube@.len() ==> #[trigger] clause@[i] == cube@[i].neg(),
        forall|a: Assignment| #[trigger] clause_true(a, clause@) == !cube_true(a, cube@),
{
    let mut clause: Vec<Lit> = Vec::new();
    let mut k: usize = 0;
    while k < cube.len()
        invariant
            k <= cube@.len(),
            clause@.len() == k,
            forall|i: int| 0 <= i < k ==> #[trigger] clause@[i] == cube@[i].neg(),
        decreases cube.len() - k,
    {
        clause.push(cube[k].negated());
        k += 1;
    }
    proof {
        assert forall|a: Assignment| #[trigger] clause_true(a, clause@) == !cube_true(a, cube@) by {
            assert forall|i: int| 0 <= i < cube@.len() implies lit_true(a, #[trigger] clause@[i]) == !lit_true(a, cube@[i]) by {}
            if clause_true(a, clause@) {
                let i = choose|i: int| 0 <= i < clause@.len() && lit_true(a, #[trigger] clause@[i]);
                assert(!lit_true(a, cube@[i]));
            }
            if !cube_true(a, cube@) {
                let i = choose|i: int| 0 <= i < cube@.len() && !lit_true(a, #[trigger] cube@[i]);
                assert(lit_true(a, clause@[i]));
            }
        }
    }
    clause
}

/// The values that an assignment gives to a list of variables.
pub open spec fn project(vs: Seq<Var>, a: Assignment) -> Seq<bool> {
    Seq::new(vs.len(), |i: int| a(vs[i]))
}

/// All sequences of truth values of a length.
pub open spec fn points(n: nat) -> Set<Seq<bool>> {
    Set::new(|s: Seq<bool>| s.len() == n)
}

/// There are finitely many sequences of truth values of a length.
pub proof fn lemma_points_finite(n: nat)
    ensures
        points(n).finite(),
    decreases n,
{
    if n == 0 {
        assert forall|s: Seq<bool>| points(0).contains(s) <==> Set::<Seq<bool>>::empty().insert(Seq::empty()).contains(s) by {
            if s.len() == 0 {
                assert(s =~= Seq::empty());
            }
        }
        assert(points(0) =~= Set::empty().insert(Seq::empty()));
    } else {
        let p = points((n - 1) as nat);
        lemma_points_finite((n - 1) as nat);
        let f = |s: Seq<bool>| s.push(false);
        let t = |s: Seq<bool>| s.push(true);
        p.lemma_map_finite(f);
        p.lemma_map_finite(t);
        let u = p.map(f).union(p.map(t));
        assert forall|s: Seq<bool>| points(n).contains(s) implies u.contains(s) by {
            let r = s.drop_last();
            assert(p.contains(r));
            if s.last() {
                assert(s =~= t(r));
                assert(p.map(t).contains(t(r)));
            } else {
                assert(s =~= f(r));
                assert(p.map(f).contains(f(r)));
            }
        }
        vstd::set_lib::lemma_set_subset_finite(u, points(n));
    }
}

/// The universal points that the domain clauses still leave open.
pub open spec fn open_points(vs: Seq<Var>, domain: Matrix) -> Set<Seq<bool>> {
    Set::new(|s: Seq<bool>| exists|a: Assignment| #[trigger] matrix_true(a, domain) && s == project(vs, a))
}

/// Excluding a cube that holds at an open point leaves fewer open points.
pub proof fn lemma_exclude(vs: Seq<Var>, domain: Matrix, cube: Seq<Lit>, clause: Seq<Lit>, a: Assignment)
    requires
        matrix_true(a, domain),
        cube_true(a, cube),
        forall|i: int| 0 <= i < cube.len() ==> vs.contains((#[trigger] cube[i]).v()),
        forall|b: Assignment| #[trigger] clause_true(b, clause) == !cube_true(b, cube),
    ensures
        open_points(vs, domain).finite(),
        open_points(vs, domain.push(clause)).finite(),
        open_points(vs, domain.push(clause)).len() < open_points(vs, domain).len(),
{
    let before = open_points(vs, domain);
    let next = domain.push(clause);
    let after = open_points(vs, next);
    let all = points(vs.len());
    lemma_points_finite(vs.len());
    vstd::set_lib::lemma_set_subset_finite(all, before);
    assert forall|s: Seq<bool>| after.contains(s) implies before.contains(s) by {
        let b = choose|b: Assignment| #[trigger] matrix_true(b, next) && s == project(vs, b);
        assert forall|i: int| 0 <= i < domain.len() implies clause_true(b, #[trigger] domain[i]) by {
            assert(next[i] == domain[i]);
        }
        assert(matrix_true(b, domain));
    }
    vstd::set_lib::lemma_set_subset_finite(before, after);
    let s = project(vs, a);
    assert(before.contains(s));
    if after.contains(s) {
        let b = choose|b: Assignment| #[trigger] matrix_true(b, next) && s == project(vs, b);
        assert(next[domain.len() as int] == clause);
        assert(clause_true(b, clause));
        assert forall|i: int| 0 <= i < cube.len() implies lit_true(b, #[trigger] cube[i]) by {
            let x = cube[i].v();
            let k = choose|k: int| 0 <= k < vs.len() && vs[k] == x;
            assert(project(vs, a)[k] == a(x));
            assert(project(vs, b)[k] == b(x));
            assert(lit_true(a, cube[i]));
        }
    }
    after.lemma_subset_not_in_lt(before, s);
}

/// Every variable is within the numbering of the back end.
pub open spec fn vars_ok(vs: Seq<Var>) -> bool {
    forall|i: int| 0 <= i < vs.len() ==> (#[trigger] vs[i]).dimacs() <= crate::sat::MAX_NUMBER
}

/// The lists share no variable.
pub open spec fn disjoint(vs: Seq<Var>, ws: Seq<Var>) -> bool {
    forall|x: Var| vs.contains(x) ==> !#[trigger] ws.contains(x)
}

/// The matrix mentions variables of the two lists alone.
pub open spec fn within(m: Matrix, vs: Seq<Var>, ws: Seq<Var>) -> bool {
    forall|x: Var| #[trigger] crate::semantics::mentions(m, x) ==> vs.contains(x) || ws.contains(x)
}

/// The region plays constants for all existential variables, which satisfy
/// the clauses wherever its cube, a cube of universal literals, holds.
pub open spec fn response_ok(region: Region, universals: Seq<Var>, existentials: Seq<Var>, m: Matrix) -> bool {
    match region {
        Region::Response { cube, response } => {
            &&& forall|i: int| 0 <= i < cube@.len() ==> universals.contains((#[trigger] cube@[i]).v())
            &&& response@.len() == existentials.len()
            &&& forall|i: int| 0 <= i < response@.len() ==> (#[trigger] response@[i]).v() == existentials[i]
            &&& forall|a: Assignment|
                #![trigger matrix_true(a, m)]
                cube_true(a, cube@) && cube_true(a, response@) ==> matrix_true(a, m)
        },
        Region::Closed { cube, chain } => false,
    }
}

/// The cube of some region holds.
pub open spec fn covered(regions: Seq<Region>, a: Assignment) -> bool {
    exists|i: int| 0 <= i < regions.len() && cube_true(a, (#[trigger] regions[i]).spec_cube())
}

/// What the enumeration of the universal assignments found.
#[derive(Debug)]
pub enum CaseAnswer {
    /// Responses whose cubes cover every universal assignment.
    Covered(Vec<Region>),
    /// A universal assignment without a response.
    Refuted(Vec<Lit>),
    /// A variable is beyond the numbering of the back end.
    OutOfRange,
}

/// Committing to literals of distinct variables makes all of them hold and
/// leaves the other variables alone.
pub proof fn lemma_commit(values: Map<Var, bool>, lits: Seq<Lit>)
    ensures
        forall|x: Var| #[trigger] commit(values, lits).contains_key(x) <==> values.contains_key(x)
            || crate::semantics::clause_mentions(lits, x),
        forall|x: Var|
            !crate::semantics::clause_mentions(lits, x) ==> #[trigger] commit(values, lits)[x] == values[x],
        consistent(lits) ==> forall|i: int|
            0 <= i < lits.len() ==> commit(values, lits)[(#[trigger] lits[i]).v()] == lits[i].pos(),
    decreases lits.len(),
{
    if lits.len() > 0 {
        let front = lits.drop_last();
        let l = lits.last();
        lemma_commit(values, front);
        assert(lits =~= front.push(l));
        assert forall|x: Var| #[trigger]
            crate::semantics::clause_mentions(lits, x) <==> crate::semantics::clause_mentions(front, x) || x == l.v() by {
            crate::qcnf::lemma_clause_push(front, l, x);
        }
        let before = commit(values, front);
        let after = commit(values, lits);
        assert(after == before.insert(l.v(), l.pos()));
        assert forall|x: Var| #[trigger] after.contains_key(x) <==> values.contains_key(x)
            || crate::semantics::clause_mentions(lits, x) by {
            assert(before.contains_key(x) <==> values.contains_key(x) || crate::semantics::clause_mentions(front, x));
        }
        assert forall|x: Var| !crate::semantics::clause_mentions(lits, x) implies #[trigger] after[x] == values[x] by {
            assert(before[x] == values[x]);
        }
        if consistent(lits) {
            assert forall|i: int, j: int|
                0 <= i < front.len() && 0 <= j < front.len() && #[trigger] front[i].v() == #[trigger] front[j].v()
                implies front[i].pos() == front[j].pos() by {
                assert(lits[i].v() == lits[j].v());
            }
            assert forall|i: int| 0 <= i < lits.len() implies commit(values, lits)[(#[trigger] lits[i]).v()]
                == lits[i].pos() by {
                if i < front.len() {
                    assert(front[i] == lits[i]);
                    assert(lits[i].v() == lits[lits.len() - 1].v() ==> lits[i].pos() == l.pos());
                }
            }
        }
    }
}

/// Some region whose cube holds is the first one.
proof fn lemma_first_region(
    regions: Seq<Region>,
    from: int,
    universal: Map<Var, bool>,
    last: Map<Var, bool>,
) -> (k: int)
    requires
        0 <= from,
        exists|i: int| from <= i < regions.len() && cube_true(assignment_of(last), (#[trigger] regions[i]).spec_cube()),
    ensures
        from <= k < regions.len(),
        cube_true(assignment_of(last), regions[k].spec_cube()),
        region_values(regions, from, universal, last) == regions[k].play(universal, last),
    decreases regions.len() - from,
{
    if cube_true(assignment_of(last), regions[from].spec_cube()) {
        from
    } else {
        lemma_first_region(regions, from + 1, universal, last)
    }
}

/// Responses that cover every universal assignment make a winning model,
/// and every universal assignment is answered.
pub proof fn lemma_cases_win(model: SkolemModel, universals: Seq<Var>, existentials: Seq<Var>, m: Matrix)
    requires
        model.universals@ == universals,
        model.final_chain@.len() == 0,
        existentials.no_duplicates(),
        disjoint(universals, existentials),
        forall|i: int|
            0 <= i < model.regions@.len() ==> response_ok(#[trigger] model.regions@[i], universals, existentials, m),
        forall|a: Assignment| #[trigger] covered(model.regions@, a),
    ensures
        model.wins(m),
        answered(universals, m),
{
    let regions = model.regions@;
    assert forall|universal: Map<Var, bool>| #[trigger] assigns(universal, universals) implies (forall|x: Var|
        universals.contains(x) ==> #[trigger] model.values(universal).contains_key(x) && model.values(
            universal,
        )[x] == universal[x]) && (forall|a: Assignment| #[trigger]
        agrees(a, model.values(universal)) ==> matrix_true(a, m)) by {
        let last = universal;
        assert(chain_values(model.final_chain@, universal) == universal);
        let u = assignment_of(last);
        assert(covered(regions, u));
        let w = choose|i: int| 0 <= i < regions.len() && cube_true(u, (#[trigger] regions[i]).spec_cube());
        assert(0 <= w < regions.len() && cube_true(assignment_of(last), regions[w].spec_cube()));
        let k = lemma_first_region(regions, 0, universal, last);
        let values = model.values(universal);
        assert(response_ok(regions[k], universals, existentials, m));
        match regions[k] {
            Region::Response { cube, response } => {
                lemma_commit(last, response@);
                assert forall|x: Var| universals.contains(x) implies !crate::semantics::clause_mentions(response@, x) by {
                    if crate::semantics::clause_mentions(response@, x) {
                        let j = choose|j: int| 0 <= j < response@.len() && (#[trigger] response@[j]).v() == x;
                        assert(existentials[j] == x);
                        assert(existentials.contains(x));
                    }
                }
                assert forall|i: int, j: int|
                    0 <= i < response@.len() && 0 <= j < response@.len() && #[trigger] response@[i].v()
                        == #[trigger] response@[j].v() implies response@[i].pos() == response@[j].pos() by {
                    assert(existentials[i] == existentials[j]);
                }
                assert(consistent(response@));
                assert forall|a: Assignment| #[trigger] agrees(a, values) implies matrix_true(a, m) by {
                    assert forall|i: int| 0 <= i < cube@.len() implies lit_true(a, #[trigger] cube@[i]) by {
                        let x = cube@[i].v();
                        assert(universals.contains(x));
                        assert(lit_true(u, cube@[i]));
                        assert(values.contains_key(x));
                    }
                    assert forall|i: int| 0 <= i < response@.len() implies lit_true(a, #[trigger] response@[i]) by {
                        let x = response@[i].v();
                        assert(crate::semantics::clause_mentions(response@, x));
                        assert(values.contains_key(x));
                    }
                    assert(cube_true(a, cube@) && cube_true(a, response@));
                }
            },
            Region::Closed { cube, chain } => {},
        }
    }
    lemma_model_answers(&model, universals, m);
}

/// A winning model answers every universal assignment.
pub proof fn lemma_model_answers(model: &SkolemModel, universals: Seq<Var>, m: Matrix)
    requires
        model.spec_universals() == universals,
        model.wins(m),
    ensures
        answered(universals, m),
{
    assert forall|u: Assignment| #[trigger] has_response(universals, m, u) by {
        let universal = Map::new(|x: Var| universals.contains(x), |x: Var| u(x));
        assert(assigns(universal, universals));
        let values = model.values(universal);
        let a = |x: Var| if values.contains_key(x) { values[x] } else { false };
        assert(agrees(a, values));
        assert(matrix_true(a, m));
        assert forall|x: Var| universals.contains(x) implies #[trigger] u(x) == a(x) by {
            assert(values.contains_key(x));
        }
        assert(agree_on(u, a, universals));
    }
}

/// Answers the universal assignments one by one, each generalized to a
/// cube, until all are covered or one has no response.
#[verifier::loop_isolation(false)]
pub(crate) fn enumerate_cases(
    matrix: &Vec<Vec<Lit>>,
    universals: &Vec<Var>,
    existentials: &Vec<Var>,
) -> (answer: CaseAnswer)
    requires
        existentials@.no_duplicates(),
        disjoint(universals@, existentials@),
        within(matrix_of(matrix@), universals@, existentials@),
    ensures
        match answer {
            CaseAnswer::Covered(regions) => {
                &&& answered(universals@, matrix_of(matrix@))
                &&& forall|i: int|
                    0 <= i < regions@.len() ==> response_ok(
                        #[trigger] regions@[i],
                        universals@,
                        existentials@,
                        matrix_of(matrix@),
                    )
                &&& forall|a: Assignment| #[trigger] covered(regions@, a)
            },
            CaseAnswer::Refuted(witness) => {
                &&& witness@.len() == universals@.len()
                &&& forall|i: int| 0 <= i < witness@.len() ==> (#[trigger] witness@[i]).v() == universals@[i]
                &&& forall|a: Assignment| #[trigger] cube_true(a, witness@) ==> !matrix_true(a, matrix_of(matrix@))
                &&& consistent(witness@)
                &&& !answered(universals@, matrix_of(matrix@))
            },
            CaseAnswer::OutOfRange => !clauses_ok(matrix_of(matrix@)) || !vars_ok(universals@),
        },
{
    let ghost m = matrix_of(matrix@);
    let mut exists = SatSolver::new();
    load_clauses(&mut exists, matrix);
    let mut domain = SatSolver::new();
    let mut regions: Vec<Region> = Vec::new();
    proof {
        assert(Matrix::empty() + m =~= m);
    }
    loop
        invariant
            exists.wf(),
            exists.clauses() == m,
            domain.wf(),
            forall|i: int|
                0 <= i < regions@.len() ==> response_ok(#[trigger] regions@[i], universals@, existentials@, m),
            forall|a: Assignment| #[trigger] matrix_true(a, domain.clauses()) == !covered(regions@, a),
            clauses_ok(m) && vars_ok(universals@) ==> clauses_ok(domain.clauses()),
        decreases open_points(universals@, domain.clauses()).len(),
    {
        let point = match domain.solve() {
            SatOutcome::OutOfRange => {
                return CaseAnswer::OutOfRange;
            },
            SatOutcome::Unsat => {
                proof {
                    assert forall|a: Assignment| #[trigger] covered(regions@, a) by {
                        assert(cube_true(a, Seq::<Lit>::empty()));
                        assert(!matrix_true(a, domain.clauses()));
                    }
                    lemma_cases_answer(regions@, universals@, existentials@, m);
                }
                return CaseAnswer::Covered(regions);
            },
            SatOutcome::Sat(lits) => values_of_lits(&lits),
        };
        let ghost here = assignment_of(point@);
        assert(matrix_true(here, domain.clauses()));
        let universal = lits_under(universals, &point);
        match exists.solve_with_assumptions(&universal) {
            SatOutcome::OutOfRange => {
                proof {
                    if vars_ok(universals@) {
                        assert forall|i: int| 0 <= i < universal@.len() implies lit_ok(#[trigger] universal@[i]) by {
                            assert(universals@[i].dimacs() <= crate::sat::MAX_NUMBER);
                        }
                    }
                }
                return CaseAnswer::OutOfRange;
            },
            SatOutcome::Unsat => {
                proof {
                    assert(!has_response(universals@, m, here)) by {
                        if has_response(universals@, m, here) {
                            let a = choose|a: Assignment| agree_on(here, a, universals@) && #[trigger] matrix_true(a, m);
                            assert forall|i: int| 0 <= i < universal@.len() implies lit_true(a, #[trigger] universal@[i]) by {
                                assert(universals@.contains(universals@[i]));
                                assert(here(universals@[i]) == a(universals@[i]));
                                assert(lit_true(here, universal@[i]));
                            }
                            assert(cube_true(a, universal@));
                        }
                    }
                }
                proof {
                    lemma_cube_consistent(here, universal@);
                }
                return CaseAnswer::Refuted(universal);
            },
            SatOutcome::Sat(lits) => {
                let values = values_of_lits(&lits);
                let ghost star = assignment_of(values@);
                assert(matrix_true(star, m));
                let cube = minimize_cube(matrix, universals, &values);
                let response = lits_under(existentials, &values);
                let clause = negate(&cube);
                let ghost before = domain.clauses();
                let ghost old_regions = regions@;
                proof {
                    assert forall|a: Assignment| cube_true(a, cube@) && cube_true(a, response@) implies #[trigger] matrix_true(a, m) by {
                        lemma_response_holds(m, universals@, existentials@, star, a, cube@, response@);
                    }
                    assert forall|i: int| 0 <= i < cube@.len() implies lit_true(here, #[trigger] cube@[i]) by {
                        let x = cube@[i].v();
                        let k = choose|k: int| 0 <= k < universals@.len() && universals@[k] == x;
                        assert(lit_true(here, universal@[k]));
                        assert(lit_true(star, universal@[k]));
                        assert(lit_true(star, cube@[i]));
                    }
                    lemma_exclude(universals@, before, cube@, clause@, here);
                }
                domain.add_clause(&clause);
                regions.push(Region::Response { cube, response });
                proof {
                    let region = regions@[old_regions.len() as int];
                    assert(region.spec_cube() == cube@);
                    assert forall|a: Assignment| #[trigger] matrix_true(a, domain.clauses()) == !covered(regions@, a) by {
                        lemma_domain_push(before, clause@, old_regions, region, a);
                    }
                    if clauses_ok(m) && vars_ok(universals@) {
                        assert forall|i: int| 0 <= i < domain.clauses().len() implies lits_ok(#[trigger] domain.clauses()[i]) by {
                            if i < before.len() {
                                assert(domain.clauses()[i] == before[i]);
                            } else {
                                assert forall|j: int| 0 <= j < clause@.len() implies lit_ok(#[trigger] clause@[j]) by {
                                    let x = cube@[j].v();
                                    let k = choose|k: int| 0 <= k < universals@.len() && universals@[k] == x;
                                    assert(universals@[k].dimacs() <= crate::sat::MAX_NUMBER);
                                }
                            }
                        }
                    }
                }
            },
        }
    }
}

/// Literals that hold together do not contradict each other.
pub proof fn lemma_cube_consistent(a: Assignment, c: Seq<Lit>)
    requires
        cube_true(a, c),
    ensures
        consistent(c),
{
    assert forall|i: int, j: int|
        0 <= i < c.len() && 0 <= j < c.len() && #[trigger] c[i].v() == #[trigger] c[j].v() implies c[i].pos()
        == c[j].pos() by {
        assert(lit_true(a, c[i]) && lit_true(a, c[j]));
    }
}

/// The variables that recorded responses define.
pub proof fn lemma_cases_keys(
    model: SkolemModel,
    universals: Seq<Var>,
    existentials: Seq<Var>,
    m: Matrix,
    universal: Map<Var, bool>,
    x: Var,
)
    requires
        model.final_chain@.len() == 0,
        forall|i: int|
            0 <= i < model.regions@.len() ==> response_ok(#[trigger] model.regions@[i], universals, existentials, m),
        assigns(universal, universals),
        model.values(universal).contains_key(x),
    ensures
        universals.contains(x) || existentials.contains(x),
{
    assert(chain_values(model.final_chain@, universal) == universal);
    lemma_region_keys(model.regions@, 0, universals, existentials, m, universal, x);
}

proof fn lemma_region_keys(
    regions: Seq<Region>,
    from: int,
    universals: Seq<Var>,
    existentials: Seq<Var>,
    m: Matrix,
    universal: Map<Var, bool>,
    x: Var,
)
    requires
        0 <= from,
        forall|i: int| 0 <= i < regions.len() ==> response_ok(#[trigger] regions[i], universals, existentials, m),
        assigns(universal, universals),
        region_values(regions, from, universal, universal).contains_key(x),
    ensures
        universals.contains(x) || existentials.contains(x),
    decreases regions.len() - from,
{
    if from < regions.len() {
        if cube_true(assignment_of(universal), regions[from].spec_cube()) {
            assert(response_ok(regions[from], universals, existentials, m));
            match regions[from] {
                Region::Response { cube, response } => {
                    lemma_commit(universal, response@);
                    if crate::semantics::clause_mentions(response@, x) {
                        let j = choose|j: int| 0 <= j < response@.len() && (#[trigger] response@[j]).v() == x;
                        assert(existentials[j] == x);
                    }
                },
                Region::Closed { cube, chain } => {},
            }
        } else {
            lemma_region_keys(regions, from + 1, universals, existentials, m, universal, x);
        }
    }
}

/// Values that satisfy the clauses under a cube of universal literals keep
/// doing so when only the response is kept.
proof fn lemma_response_holds(
    m: Matrix,
    universals: Seq<Var>,
    existentials: Seq<Var>,
    star: Assignment,
    a: Assignment,
    cube: Seq<Lit>,
    response: Seq<Lit>,
)
    requires
        within(m, universals, existentials),
        forall|i: int| 0 <= i < cube.len() ==> universals.contains((#[trigger] cube[i]).v()),
        forall|b: Assignment| #[trigger] cube_true(b, cube) && (forall|x: Var|
            !universals.contains(x) ==> #[trigger] b(x) == star(x)) ==> matrix_true(b, m),
        response.len() == existentials.len(),
        forall|i: int| 0 <= i < response.len() ==> (#[trigger] response[i]).v() == existentials[i],
        cube_true(star, response),
        cube_true(a, cube),
        cube_true(a, response),
    ensures
        matrix_true(a, m),
{
    let b = crate::semantics::overlay(star, a, universals);
    assert forall|i: int| 0 <= i < cube.len() implies lit_true(b, #[trigger] cube[i]) by {
        assert(lit_true(a, cube[i]));
    }
    assert(cube_true(b, cube));
    assert(matrix_true(b, m));
    assert forall|x: Var| #[trigger] crate::semantics::mentions(m, x) implies b(x) == a(x) by {
        if !universals.contains(x) {
            assert(existentials.contains(x));
            let i = choose|i: int| 0 <= i < existentials.len() && existentials[i] == x;
            assert(lit_true(star, response[i]));
            assert(lit_true(a, response[i]));
        }
    }
    crate::semantics::lemma_matrix_coincide(m, b, a);
}

/// The remaining domain after one more region.
proof fn lemma_domain_push(domain: Matrix, clause: Seq<Lit>, regions: Seq<Region>, region: Region, a: Assignment)
    requires
        forall|b: Assignment| #[trigger] matrix_true(b, domain) == !covered(regions, b),
        forall|b: Assignment| #[trigger] clause_true(b, clause) == !cube_true(b, region.spec_cube()),
    ensures
        matrix_true(a, domain.push(clause)) == !covered(regions.push(region), a),
{
    let next = domain.push(clause);
    let all = regions.push(region);
    assert(next[domain.len() as int] == clause);
    assert(all[regions.len() as int] == region);
    if matrix_true(a, next) {
        assert forall|i: int| 0 <= i < domain.len() implies clause_true(a, #[trigger] domain[i]) by {
            assert(next[i] == domain[i]);
        }
        assert(matrix_true(a, domain));
        assert(clause_true(a, clause));
        if covered(all, a) {
            let i = choose|i: int| 0 <= i < all.len() && cube_true(a, (#[trigger] all[i]).spec_cube());
            if i < regions.len() {
                assert(regions[i] == all[i]);
                assert(covered(regions, a));
            }
        }
    } else {
        if matrix_true(a, domain) {
            let i = choose|i: int| 0 <= i < next.len() && !clause_true(a, #[trigger] next[i]);
            if i < domain.len() {
                assert(domain[i] == next[i]);
            }
            assert(cube_true(a, all[regions.len() as int].spec_cube()));
        } else {
            assert(covered(regions, a));
            let i = choose|i: int| 0 <= i < regions.len() && cube_true(a, (#[trigger] regions[i]).spec_cube());
            assert(all[i] == regions[i]);
        }
    }
}

/// Responses that cover every assignment answer every universal one.
proof fn lemma_cases_answer(regions: Seq<Region>, universals: Seq<Var>, existentials: Seq<Var>, m: Matrix)
    requires
        existentials.no_duplicates(),
        disjoint(universals, existentials),
        forall|i: int| 0 <= i < regions.len() ==> response_ok(#[trigger] regions[i], universals, existentials, m),
        forall|a: Assignment| #[trigger] covered(regions, a),
    ensures
        answered(universals, m),
{
    assert forall|u: Assignment| #[trigger] has_response(universals, m, u) by {
        assert(covered(regions, u));
        let i = choose|i: int| 0 <= i < regions.len() && cube_true(u, (#[trigger] regions[i]).spec_cube());
        assert(response_ok(regions[i], universals, existentials, m));
        match regions[i] {
            Region::Response { cube, response } => {
                let a = |x: Var|
                    if existentials.contains(x) {
                        response@[existentials.index_of(x)].pos()
                    } else {
                        u(x)
                    };
                assert forall|x: Var| universals.contains(x) implies #[trigger] u(x) == a(x) by {}
                assert(agree_on(u, a, universals));
                assert forall|j: int| 0 <= j < cube@.len() implies lit_true(a, #[trigger] cube@[j]) by {
                    assert(lit_true(u, cube@[j]));
                    assert(universals.contains(cube@[j].v()));
                }
                assert forall|j: int| 0 <= j < response@.len() implies lit_true(a, #[trigger] response@[j]) by {
                    let x = existentials[j];
                    assert(existentials.contains(x));
                    assert(existentials.index_of(x) == j);
                }
                assert(cube_true(a, cube@) && cube_true(a, response@));
                assert(matrix_true(a, m));
            },
            Region::Closed { cube, chain } => {},
        }
    }
}

/// Adds all clauses to the solver.
pub(crate) fn load_clauses(solver: &mut SatSolver, matrix: &Vec<Vec<Lit>>)
    requires
        old(solver).wf(),
    ensures
        final(solver).wf(),
        final(solver).clauses() == old(solver).clauses() + matrix_of(matrix@),
{
    let ghost before = solver.clauses();
    let mut k: usize = 0;
    assert(before + matrix_of(matrix@).take(0) =~= before);
    while k < matrix.len()
        invariant
            k <= matrix@.len(),
            solver.wf(),
            solver.clauses() == before + matrix_of(matrix@).take(k as int),
        decreases matrix.len() - k,
    {
        solver.add_clause(&matrix[k]);
        assert(before + matrix_of(matrix@).take(k as int + 1) =~= (before + matrix_of(matrix@).take(k as int)).push(
            matrix@[k as int]@,
        ));
        k += 1;
    }
    assert(matrix_of(matrix@).take(matrix@.len() as int) =~= matrix_of(matrix@));
}

} // verus!
