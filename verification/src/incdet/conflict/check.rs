//! Queries over clauses and firing conditions.
//!
//! A variable is conflicted if there is an assignment of the universal
//! variables, consistent with the Skolem functions determined so far,
//! under which implication clauses of both polarities fire. Such a query
//! consists of clauses that hold and of *groups*: of a group, some guard
//! holds or some clause fires, that is, all its literals besides those of
//! the implied variable are false. A *fire arbiter* `a` with `¬a → (the
//! clause fires)` stands for every clause of a group.
use crate::incdet::cegar::load_clauses;
use crate::incdet::determinacy::{lemma_model_assignment, model_assignment};
use crate::literal::{Lit, Var, MAX_INDEX};
use crate::qcnf::matrix_of;
use crate::sat::{consistent, SatOutcome, SatSolver};
use crate::semantics::{clause_mentions, clause_true, cube_true, lemma_clause_coincide, lit_true, matrix_true, mentions, Assignment, Matrix};
use crate::simplify::lemma_push_true;
use vstd::prelude::*;

verus! {

broadcast use crate::literal::group_literal;

/// Some guard holds or some clause fires.
#[derive(Debug)]
pub struct Group {
    pub guards: Vec<Lit>,
    /// The implied variable, whose literals do not keep a clause from
    /// firing.
    pub var: Option<Var>,
    pub clauses: Vec<Vec<Lit>>,
}

/// All literals of the clause are false, besides those of the implied
/// variable.
pub open spec fn fires(a: Assignment, var: Option<Var>, c: Seq<Lit>) -> bool {
    forall|j: int| 0 <= j < c.len() && Some((#[trigger] c[j]).v()) != var ==> !lit_true(a, c[j])
}

impl Group {
    /// Some guard holds or some clause fires.
    pub open spec fn holds(&self, a: Assignment) -> bool {
        clause_true(a, self.guards@) || exists|i: int| 0 <= i < self.clauses@.len() && fires(a, self.var, (#[trigger] self.clauses@[i])@)
    }

    /// The group mentions the variable.
    pub open spec fn names(&self, x: Var) -> bool {
        clause_mentions(self.guards@, x) || mentions(matrix_of(self.clauses@), x)
    }
}

/// The assignment satisfies the clauses and the groups.
pub open spec fn query_true(a: Assignment, m: Matrix, groups: Seq<Group>) -> bool {
    matrix_true(a, m) && forall|g: int| 0 <= g < groups.len() ==> (#[trigger] groups[g]).holds(a)
}

/// The answer to a query.
#[derive(Debug)]
pub enum Answer {
    /// Literals such that every assignment they hold in is a solution.
    Possible(Vec<Lit>),
    /// There is no solution.
    Impossible,
    /// The query is beyond the numbering of the SAT solver.
    OutOfRange,
}

/// What an answer says of a query.
pub open spec fn answer_ok(m: Matrix, groups: Seq<Group>, answer: Answer) -> bool {
    match answer {
        Answer::Possible(model) => consistent(model@) && forall|a: Assignment| #[trigger]
            cube_true(a, model@) ==> query_true(a, m, groups),
        Answer::Impossible => forall|a: Assignment| !#[trigger] query_true(a, m, groups),
        Answer::OutOfRange => !numbered(m, groups),
    }
}

/// The number of clauses of the first groups.
pub open spec fn grouped(groups: Seq<Group>, k: int) -> nat
    decreases k,
{
    if k <= 0 {
        0
    } else {
        grouped(groups, k - 1) + groups[k - 1].clauses@.len()
    }
}

/// The clauses of one more group.
pub proof fn lemma_grouped_push(groups: Seq<Group>, group: Group)
    ensures
        grouped(groups.push(group), groups.len() as int + 1) == grouped(groups, groups.len() as int) + group.clauses@.len(),
{
    lemma_grouped_same(groups, group, groups.len() as int);
}

proof fn lemma_grouped_same(groups: Seq<Group>, group: Group, k: int)
    requires
        k <= groups.len(),
    ensures
        grouped(groups.push(group), k) == grouped(groups, k),
    decreases k,
{
    if k > 0 {
        lemma_grouped_same(groups, group, k - 1);
    }
}

/// All variables of the groups are below an index.
pub open spec fn groups_below(groups: Seq<Group>, base: int) -> bool {
    forall|g: int| 0 <= g < groups.len() ==> group_below(#[trigger] groups[g], base)
}

/// All variables of the query are below an index.
pub open spec fn query_below(m: Matrix, groups: Seq<Group>, base: int) -> bool {
    clauses_below(m, base) && groups_below(groups, base)
}

/// The SAT solver has numbers for the variables of the query and for an
/// arbiter of each clause of a group.
pub open spec fn numbered(m: Matrix, groups: Seq<Group>) -> bool {
    exists|base: int|
        0 <= base && #[trigger] query_below(m, groups, base) && base + grouped(groups, groups.len() as int) <= crate::sat::MAX_NUMBER
}

/// All variables of the clause are below an index.
pub open spec fn lits_below(c: Seq<Lit>, base: int) -> bool {
    forall|j: int| 0 <= j < c.len() ==> (#[trigger] c[j]).v().id() < base
}

/// All variables of the clauses are below an index.
pub open spec fn clauses_below(m: Matrix, base: int) -> bool {
    forall|i: int| 0 <= i < m.len() ==> lits_below(#[trigger] m[i], base)
}

/// All variables of the group are below an index.
pub open spec fn group_below(g: Group, base: int) -> bool {
    lits_below(g.guards@, base) && clauses_below(matrix_of(g.clauses@), base)
}

/// An index at least as large as another and above all variables of the
/// literals.
fn above_lits(lits: &Vec<Lit>, start: u32) -> (base: u32)
    requires
        start <= MAX_INDEX + 1,
    ensures
        start <= base <= MAX_INDEX + 1,
        lits_below(lits@, base as int),
        forall|n: int| start <= n && #[trigger] lits_below(lits@, n) ==> base <= n,
{
    let mut base = start;
    let mut k: usize = 0;
    while k < lits.len()
        invariant
            k <= lits@.len(),
            start <= base <= MAX_INDEX + 1,
            forall|j: int| 0 <= j < k ==> (#[trigger] lits@[j]).v().id() < base,
            forall|n: int| start <= n && #[trigger] lits_below(lits@, n) ==> base <= n,
        decreases lits.len() - k,
    {
        let index = lits[k].var().as_index();
        if index >= base as usize {
            assert(lits@[k as int].v().id() == index);
            base = index as u32 + 1;
        }
        k += 1;
    }
    base
}

fn above_clauses(clauses: &Vec<Vec<Lit>>, start: u32) -> (base: u32)
    requires
        start <= MAX_INDEX + 1,
    ensures
        start <= base <= MAX_INDEX + 1,
        clauses_below(matrix_of(clauses@), base as int),
        forall|n: int| start <= n && #[trigger] clauses_below(matrix_of(clauses@), n) ==> base <= n,
{
    let ghost m = matrix_of(clauses@);
    let mut base = start;
    let mut k: usize = 0;
    while k < clauses.len()
        invariant
            k <= clauses@.len(),
            m == matrix_of(clauses@),
            start <= base <= MAX_INDEX + 1,
            forall|i: int| 0 <= i < k ==> lits_below(#[trigger] m[i], base as int),
            forall|n: int| start <= n && #[trigger] clauses_below(m, n) ==> base <= n,
        decreases clauses.len() - k,
    {
        let ghost last = base;
        base = above_lits(&clauses[k], base);
        assert forall|n: int| start <= n && #[trigger] clauses_below(m, n) implies base <= n by {
            assert(lits_below(m[k as int], n));
            assert(m[k as int] == clauses@[k as int]@);
        }
        assert forall|i: int| 0 <= i < k + 1 implies lits_below(#[trigger] m[i], base as int) by {
            if i < k {
                assert(lits_below(m[i], last as int));
            } else {
                assert(m[i] == clauses@[k as int]@);
            }
        }
        k += 1;
    }
    base
}

fn above_groups(groups: &Vec<Group>, start: u32) -> (base: u32)
    requires
        start <= MAX_INDEX + 1,
    ensures
        start <= base <= MAX_INDEX + 1,
        forall|g: int| 0 <= g < groups@.len() ==> group_below(#[trigger] groups@[g], base as int),
        forall|n: int|
            start <= n && #[trigger] groups_below(groups@, n) ==> base <= n,
{
    let mut base = start;
    let mut k: usize = 0;
    while k < groups.len()
        invariant
            k <= groups@.len(),
            start <= base <= MAX_INDEX + 1,
            forall|g: int| 0 <= g < k ==> group_below(#[trigger] groups@[g], base as int),
            forall|n: int|
                start <= n && #[trigger] groups_below(groups@, n) ==> base <= n,
        decreases groups.len() - k,
    {
        let ghost last = base;
        base = above_lits(&groups[k].guards, base);
        base = above_clauses(&groups[k].clauses, base);
        assert forall|n: int|
            start <= n && #[trigger] groups_below(groups@, n) implies base <= n by {
            assert(group_below(groups@[k as int], n));
        }
        assert forall|g: int| 0 <= g < k + 1 implies group_below(#[trigger] groups@[g], base as int) by {
            if g < k {
                assert(group_below(groups@[g], last as int));
                let m = matrix_of(groups@[g].clauses@);
                assert forall|i: int| 0 <= i < m.len() implies lits_below(#[trigger] m[i], base as int) by {
                    assert(lits_below(m[i], last as int));
                }
            }
        }
        k += 1;
    }
    base
}

/// Assignments that agree below an index satisfy the same clauses there.
proof fn lemma_below_clause(c: Seq<Lit>, base: int, a: Assignment, b: Assignment)
    requires
        lits_below(c, base),
        forall|x: Var| x.id() < base ==> #[trigger] a(x) == b(x),
    ensures
        clause_true(a, c) == clause_true(b, c),
        forall|var: Option<Var>| #[trigger] fires(a, var, c) == fires(b, var, c),
{
    assert forall|x: Var| clause_mentions(c, x) implies #[trigger] a(x) == b(x) by {
        let j = choose|j: int| 0 <= j < c.len() && (#[trigger] c[j]).v() == x;
    }
    lemma_clause_coincide(c, a, b);
    assert forall|var: Option<Var>| #[trigger] fires(a, var, c) == fires(b, var, c) by {
        assert forall|j: int| 0 <= j < c.len() implies lit_true(a, #[trigger] c[j]) == lit_true(b, c[j]) by {
            assert(a(c[j].v()) == b(c[j].v()));
        }
    }
}

proof fn lemma_below_matrix(m: Matrix, base: int, a: Assignment, b: Assignment)
    requires
        clauses_below(m, base),
        forall|x: Var| x.id() < base ==> #[trigger] a(x) == b(x),
    ensures
        matrix_true(a, m) == matrix_true(b, m),
{
    assert forall|i: int| 0 <= i < m.len() implies clause_true(a, #[trigger] m[i]) == clause_true(b, m[i]) by {
        lemma_below_clause(m[i], base, a, b);
    }
    if matrix_true(a, m) {
        assert forall|i: int| 0 <= i < m.len() implies clause_true(b, #[trigger] m[i]) by {
            assert(clause_true(a, m[i]));
        }
    }
    if matrix_true(b, m) {
        assert forall|i: int| 0 <= i < m.len() implies clause_true(a, #[trigger] m[i]) by {
            assert(clause_true(b, m[i]));
        }
    }
}

proof fn lemma_below_group(g: Group, base: int, a: Assignment, b: Assignment)
    requires
        group_below(g, base),
        forall|x: Var| x.id() < base ==> #[trigger] a(x) == b(x),
    ensures
        g.holds(a) == g.holds(b),
{
    lemma_below_clause(g.guards@, base, a, b);
    let m = matrix_of(g.clauses@);
    assert forall|i: int| 0 <= i < g.clauses@.len() implies fires(a, g.var, (#[trigger] g.clauses@[i])@) == fires(
        b,
        g.var,
        g.clauses@[i]@,
    ) by {
        assert(lits_below(m[i], base));
        assert(m[i] == g.clauses@[i]@);
        lemma_below_clause(m[i], base, a, b);
    }
    if exists|i: int| 0 <= i < g.clauses@.len() && fires(a, g.var, (#[trigger] g.clauses@[i])@) {
        let i = choose|i: int| 0 <= i < g.clauses@.len() && fires(a, g.var, (#[trigger] g.clauses@[i])@);
        assert(fires(b, g.var, g.clauses@[i]@));
    }
    if exists|i: int| 0 <= i < g.clauses@.len() && fires(b, g.var, (#[trigger] g.clauses@[i])@) {
        let i = choose|i: int| 0 <= i < g.clauses@.len() && fires(b, g.var, (#[trigger] g.clauses@[i])@);
        assert(fires(a, g.var, g.clauses@[i]@));
    }
}

/// Assignments that agree below an index solve the same queries there.
proof fn lemma_below_query(m: Matrix, groups: Seq<Group>, base: int, a: Assignment, b: Assignment)
    requires
        clauses_below(m, base),
        forall|g: int| 0 <= g < groups.len() ==> group_below(#[trigger] groups[g], base),
        forall|x: Var| x.id() < base ==> #[trigger] a(x) == b(x),
    ensures
        query_true(a, m, groups) == query_true(b, m, groups),
{
    lemma_below_matrix(m, base, a, b);
    assert forall|g: int| 0 <= g < groups.len() implies (#[trigger] groups[g]).holds(a) == groups[g].holds(b) by {
        lemma_below_group(groups[g], base, a, b);
    }
}

/// The assignment satisfies the clauses and the first groups.
pub open spec fn part_true(a: Assignment, m: Matrix, groups: Seq<Group>, k: int) -> bool {
    matrix_true(a, m) && forall|g: int| 0 <= g < k ==> (#[trigger] groups[g]).holds(a)
}

/// Where the clauses hold, the query with the first groups holds.
#[verifier::opaque]
spec fn sound(before: Matrix, after: Matrix, groups: Seq<Group>, k: int) -> bool {
    forall|a: Assignment| #[trigger] matrix_true(a, after) ==> part_true(a, before, groups, k)
}

/// Where the query with the first groups holds, fresh variables can make
/// the clauses hold.
#[verifier::opaque]
spec fn complete(before: Matrix, after: Matrix, groups: Seq<Group>, k: int, base: int) -> bool {
    forall|a: Assignment| #[trigger] part_true(a, before, groups, k) ==> extended(a, after, base)
}

/// Some assignment that agrees below an index satisfies the clauses.
#[verifier::opaque]
spec fn extended(a: Assignment, m: Matrix, base: int) -> bool {
    exists|b: Assignment| agree_below(a, b, base) && #[trigger] matrix_true(b, m)
}

spec fn agree_below(a: Assignment, b: Assignment, base: int) -> bool {
    forall|x: Var| x.id() < base ==> #[trigger] a(x) == b(x)
}

/// Adds a fire arbiter for a clause: the clause fires where it is false.
fn add_arbiter(solver: &mut SatSolver, arbiter: Lit, var: Option<Var>, clause: &Vec<Lit>)
    requires
        old(solver).wf(),
    ensures
        final(solver).wf(),
        forall|a: Assignment| #[trigger]
            matrix_true(a, final(solver).clauses()) <==> matrix_true(a, old(solver).clauses()) && (lit_true(a, arbiter) || fires(
                a,
                var,
                clause@,
            )),
        forall|n: int|
            #![trigger clauses_below(final(solver).clauses(), n)]
            clauses_below(old(solver).clauses(), n) && lits_below(clause@, n) && arbiter.v().id() < n ==> clauses_below(
                final(solver).clauses(),
                n,
            ),
{
    let ghost before = solver.clauses();
    let mut k: usize = 0;
    while k < clause.len()
        invariant
            k <= clause@.len(),
            solver.wf(),
            forall|a: Assignment| #[trigger]
                matrix_true(a, solver.clauses()) <==> matrix_true(a, before) && (lit_true(a, arbiter) || fires(
                    a,
                    var,
                    clause@.take(k as int),
                )),
            forall|n: int|
                #![trigger clauses_below(solver.clauses(), n)]
                clauses_below(before, n) && lits_below(clause@, n) && arbiter.v().id() < n ==> clauses_below(solver.clauses(), n),
        decreases clause.len() - k,
    {
        let l = clause[k];
        let skip = match var {
            Some(var) => l.var() == var,
            None => false,
        };
        let ghost part = clause@.take(k as int);
        let ghost next = clause@.take(k as int + 1);
        assert(next =~= part.push(l));
        let ghost held = solver.clauses();
        if !skip {
            let mut pair: Vec<Lit> = Vec::new();
            pair.push(arbiter);
            pair.push(l.negated());
            solver.add_clause(&pair);
            proof {
                let c = pair@;
                assert(c =~= seq![arbiter, l.neg()]);
                assert forall|a: Assignment| #[trigger] matrix_true(a, solver.clauses()) <==> matrix_true(a, before) && (lit_true(
                    a,
                    arbiter,
                ) || fires(a, var, next)) by {
                    lemma_push_true(a, held, c);
                    assert(matrix_true(a, held) <==> matrix_true(a, before) && (lit_true(a, arbiter) || fires(a, var, part)));
                    lemma_fires_push(a, var, part, l);
                    if lit_true(a, arbiter) {
                        assert(lit_true(a, c[0]));
                    }
                    if !lit_true(a, l) {
                        assert(lit_true(a, c[1]));
                    }
                    if clause_true(a, c) {
                        let i = choose|i: int| 0 <= i < c.len() && lit_true(a, #[trigger] c[i]);
                        assert(i == 0 || i == 1);
                    }
                }
                assert forall|n: int|
                    #![trigger clauses_below(solver.clauses(), n)]
                    clauses_below(before, n) && lits_below(clause@, n) && arbiter.v().id() < n implies clauses_below(
                    solver.clauses(),
                    n,
                ) by {
                    assert(clauses_below(held, n));
                    assert(clause@[k as int].v().id() < n);
                    assert forall|i: int| 0 <= i < solver.clauses().len() implies lits_below(#[trigger] solver.clauses()[i], n) by {
                        if i < held.len() {
                            assert(solver.clauses()[i] == held[i]);
                        } else {
                            assert(solver.clauses()[i] == c);
                        }
                    }
                }
            }
        } else {
            proof {
                assert forall|a: Assignment| #[trigger] matrix_true(a, solver.clauses()) <==> matrix_true(a, before) && (lit_true(
                    a,
                    arbiter,
                ) || fires(a, var, next)) by {
                    lemma_fires_push(a, var, part, l);
                }
            }
        }
        k += 1;
    }
    assert(clause@.take(clause@.len() as int) =~= clause@);
}

proof fn lemma_fires_push(a: Assignment, var: Option<Var>, c: Seq<Lit>, l: Lit)
    ensures
        fires(a, var, c.push(l)) <==> fires(a, var, c) && (Some(l.v()) == var || !lit_true(a, l)),
{
    let d = c.push(l);
    if fires(a, var, d) {
        assert forall|j: int| 0 <= j < c.len() && Some((#[trigger] c[j]).v()) != var implies !lit_true(a, c[j]) by {
            assert(d[j] == c[j]);
        }
        assert(d[c.len() as int] == l);
    }
    if fires(a, var, c) && (Some(l.v()) == var || !lit_true(a, l)) {
        assert forall|j: int| 0 <= j < d.len() && Some((#[trigger] d[j]).v()) != var implies !lit_true(a, d[j]) by {
            if j < c.len() {
                assert(d[j] == c[j]);
            }
        }
    }
}

/// The arbiters of the first clauses are true where their clauses do not
/// fire.
spec fn armed(a: Assignment, group: Group, next: int, k: int) -> bool {
    forall|i: int| 0 <= i < k ==> a(arbiter_of(next + i)) || fires(a, group.var, (#[trigger] group.clauses@[i])@)
}

/// The variable with an index.
spec fn arbiter_of(index: int) -> Var {
    crate::literal::var_of(index + 1)
}

/// An assignment with the arbiters of a group set.
spec fn arm(a: Assignment, group: Group, next: int) -> Assignment {
    |x: Var|
        if next <= x.id() < next + group.clauses@.len() {
            !fires(a, group.var, group.clauses@[x.id() - next]@)
        } else {
            a(x)
        }
}

/// The guards of a group and the negations of its arbiters.
spec fn choice(group: Group, next: int, k: int) -> Seq<Lit> {
    group.guards@ + Seq::new(k as nat, |i: int| crate::literal::lit_of(arbiter_of(next + i), false))
}

proof fn lemma_choice(a: Assignment, group: Group, next: int)
    requires
        0 <= next,
        next + group.clauses@.len() <= MAX_INDEX + 1,
        armed(a, group, next, group.clauses@.len() as int),
        clause_true(a, choice(group, next, group.clauses@.len() as int)),
    ensures
        group.holds(a),
{
    let n = group.clauses@.len() as int;
    let c = choice(group, next, n);
    let j = choose|j: int| 0 <= j < c.len() && lit_true(a, #[trigger] c[j]);
    let g = group.guards@.len() as int;
    if j < g {
        assert(c[j] == group.guards@[j]);
        assert(lit_true(a, group.guards@[j]));
    } else {
        let i = j - g;
        crate::literal::lemma_var_index(next + i);
        crate::literal::lemma_lit_of(arbiter_of(next + i), false);
        assert(c[j] == crate::literal::lit_of(arbiter_of(next + i), false));
        assert(fires(a, group.var, group.clauses@[i]@));
    }
}

proof fn lemma_arm(a: Assignment, before: Matrix, group: Group, next: int)
    requires
        matrix_true(a, before),
        group.holds(a),
        clauses_below(before, next),
        group_below(group, next),
        0 <= next,
        next + group.clauses@.len() <= MAX_INDEX + 1,
    ensures
        ({
            let b = arm(a, group, next);
            let n = group.clauses@.len() as int;
            agree_below(a, b, next) && matrix_true(b, before) && armed(b, group, next, n) && clause_true(b, choice(group, next, n))
        }),
{
    let b = arm(a, group, next);
    let n = group.clauses@.len() as int;
    lemma_below_matrix(before, next, a, b);
    let m = matrix_of(group.clauses@);
    assert forall|i: int| 0 <= i < n implies fires(a, group.var, (#[trigger] group.clauses@[i])@) == fires(
        b,
        group.var,
        group.clauses@[i]@,
    ) && b(arbiter_of(next + i)) == !fires(a, group.var, group.clauses@[i]@) by {
        assert(lits_below(m[i], next));
        assert(m[i] == group.clauses@[i]@);
        lemma_below_clause(m[i], next, a, b);
        crate::literal::lemma_var_index(next + i);
    }
    let c = choice(group, next, n);
    let g = group.guards@.len() as int;
    if clause_true(a, group.guards@) {
        let j = choose|j: int| 0 <= j < g && lit_true(a, #[trigger] group.guards@[j]);
        assert(c[j] == group.guards@[j]);
        assert(group.guards@[j].v().id() < next);
        assert(lit_true(b, c[j]));
    } else {
        let i = choose|i: int| 0 <= i < n && fires(a, group.var, (#[trigger] group.clauses@[i])@);
        crate::literal::lemma_var_index(next + i);
        crate::literal::lemma_lit_of(arbiter_of(next + i), false);
        assert(c[g + i] == crate::literal::lit_of(arbiter_of(next + i), false));
        assert(lit_true(b, c[g + i]));
    }
}

/// Adds the clauses of a group, with arbiters from an index on; the index
/// after them.
fn add_group(solver: &mut SatSolver, group: &Group, next: u32) -> (result: Option<u32>)
    requires
        old(solver).wf(),
        next <= MAX_INDEX + 1,
        clauses_below(old(solver).clauses(), next as int),
        group_below(*group, next as int),
    ensures
        final(solver).wf(),
        result is Some <==> group.clauses@.len() <= MAX_INDEX && next + group.clauses@.len() <= MAX_INDEX + 1,
        result is None ==> final(solver).clauses() == old(solver).clauses(),
        result matches Some(end) ==> {
            &&& end == next + group.clauses@.len()
            &&& next <= end <= MAX_INDEX + 1
            &&& clauses_below(final(solver).clauses(), end as int)
            &&& forall|a: Assignment| #[trigger]
                matrix_true(a, final(solver).clauses()) ==> matrix_true(a, old(solver).clauses()) && group.holds(a)
            &&& forall|a: Assignment| #[trigger]
                matrix_true(a, old(solver).clauses()) && group.holds(a) ==> extended(a, final(solver).clauses(), next as int)
        },
{
    let ghost before = solver.clauses();
    let count = group.clauses.len();
    if count > MAX_INDEX as usize || count as u32 > MAX_INDEX + 1 - next {
        return None;
    }
    let mut build = crate::normal::copy_lits(&group.guards);
    let mut k: usize = 0;
    assert(build@ =~= choice(*group, next as int, 0));
    while k < count
        invariant
            k <= count,
            count == group.clauses@.len(),
            count + next <= MAX_INDEX + 1,
            solver.wf(),
            group_below(*group, next as int),
            clauses_below(solver.clauses(), next + k),
            build@ == choice(*group, next as int, k as int),
            forall|a: Assignment| #[trigger]
                matrix_true(a, solver.clauses()) <==> matrix_true(a, before) && armed(a, *group, next as int, k as int),
        decreases count - k,
    {
        let ghost held = solver.clauses();
        let arbiter = Var::from_index(next + k as u32).positive();
        proof {
            crate::literal::lemma_var_index(next + k);
            assert(lits_below(matrix_of(group.clauses@)[k as int], next as int));
            assert(matrix_of(group.clauses@)[k as int] == group.clauses@[k as int]@);
            assert(clauses_below(held, next + k + 1)) by {
                assert forall|i: int| 0 <= i < held.len() implies lits_below(#[trigger] held[i], next + k + 1) by {
                    assert(lits_below(held[i], next + k));
                }
            }
        }
        add_arbiter(solver, arbiter, group.var, &group.clauses[k]);
        build.push(arbiter.negated());
        proof {
            let x = arbiter_of(next + k);
            crate::literal::lemma_var_ext(arbiter.v(), x);
            crate::literal::lemma_lit_of(x, false);
            crate::literal::lemma_lit_ext(arbiter.neg(), crate::literal::lit_of(x, false));
            assert(build@ =~= choice(*group, next as int, k + 1));
            assert forall|a: Assignment| #[trigger] matrix_true(a, solver.clauses()) <==> matrix_true(a, before) && armed(
                a,
                *group,
                next as int,
                k + 1,
            ) by {
                assert(matrix_true(a, held) <==> matrix_true(a, before) && armed(a, *group, next as int, k as int));
                assert(lit_true(a, arbiter) == a(x));
                if armed(a, *group, next as int, k + 1) {
                    assert(a(arbiter_of(next + k)) || fires(a, group.var, group.clauses@[k as int]@));
                    assert(armed(a, *group, next as int, k as int));
                }
            }
            assert(clauses_below(solver.clauses(), next + k + 1));
        }
        k += 1;
    }
    let ghost held = solver.clauses();
    let end = next + count as u32;
    solver.add_clause(&build);
    proof {
        let n = count as int;
        let c = build@;
        assert(lits_below(c, end as int)) by {
            assert forall|j: int| 0 <= j < c.len() implies (#[trigger] c[j]).v().id() < end by {
                let g = group.guards@.len() as int;
                if j < g {
                    assert(c[j] == group.guards@[j]);
                } else {
                    crate::literal::lemma_var_index(next + (j - g));
                    crate::literal::lemma_lit_of(arbiter_of(next + (j - g)), false);
                }
            }
        }
        assert forall|i: int| 0 <= i < solver.clauses().len() implies lits_below(#[trigger] solver.clauses()[i], end as int) by {
            if i < held.len() {
                assert(solver.clauses()[i] == held[i]);
                assert(lits_below(held[i], end as int));
            } else {
                assert(solver.clauses()[i] == c);
            }
        }
        assert forall|a: Assignment| #[trigger] matrix_true(a, solver.clauses()) implies matrix_true(a, before) && group.holds(a) by {
            lemma_push_true(a, held, c);
            assert(matrix_true(a, held));
            lemma_choice(a, *group, next as int);
        }
        assert forall|a: Assignment| #[trigger] matrix_true(a, before) && group.holds(a) implies extended(
            a,
            solver.clauses(),
            next as int,
        ) by {
            lemma_arm(a, before, *group, next as int);
            let b = arm(a, *group, next as int);
            assert(matrix_true(b, held));
            lemma_push_true(b, held, c);
            assert(matrix_true(b, solver.clauses()));
            reveal(extended);
        }
    }
    Some(end)
}

/// One more group keeps the clauses sound.
proof fn lemma_sound_step(before: Matrix, mid: Matrix, after: Matrix, groups: Seq<Group>, k: int)
    requires
        0 <= k < groups.len(),
        sound(before, mid, groups, k),
        forall|a: Assignment| #[trigger] matrix_true(a, after) ==> matrix_true(a, mid) && groups[k].holds(a),
    ensures
        sound(before, after, groups, k + 1),
{
    reveal(sound);
    assert forall|a: Assignment| #[trigger] matrix_true(a, after) implies part_true(a, before, groups, k + 1) by {
        assert(matrix_true(a, mid));
        assert(part_true(a, before, groups, k));
    }
}

/// One more group keeps the clauses complete.
proof fn lemma_complete_step(before: Matrix, mid: Matrix, after: Matrix, groups: Seq<Group>, k: int, next: int, base: int)
    requires
        0 <= k < groups.len(),
        base <= next,
        complete(before, mid, groups, k, base),
        group_below(groups[k], base),
        forall|a: Assignment| #[trigger] matrix_true(a, mid) && groups[k].holds(a) ==> extended(a, after, next),
    ensures
        complete(before, after, groups, k + 1, base),
{
    reveal(complete);
    assert forall|a: Assignment| #[trigger] part_true(a, before, groups, k + 1) implies extended(a, after, base) by {
        reveal(extended);
        assert(groups[k].holds(a));
        assert(part_true(a, before, groups, k));
        assert(extended(a, mid, base));
        let b = choose|b: Assignment| agree_below(a, b, base) && #[trigger] matrix_true(b, mid);
        lemma_below_group(groups[k], base, a, b);
        assert(extended(b, after, next));
        let c = choose|c: Assignment| agree_below(b, c, next) && #[trigger] matrix_true(c, after);
        assert(agree_below(a, c, base));
    }
}

/// Solves a query.
pub fn query(constraints: &Vec<Vec<Lit>>, groups: &Vec<Group>) -> (answer: Answer)
    ensures
        answer_ok(matrix_of(constraints@), groups@, answer),
{
    let ghost m = matrix_of(constraints@);
    let low = above_clauses(constraints, 0);
    let base = above_groups(groups, low);
    let mut solver = SatSolver::new();
    load_clauses(&mut solver, constraints);
    assert(solver.clauses() =~= m);
    let mut next = base;
    let mut k: usize = 0;
    proof {
        assert forall|n: int| 0 <= n && #[trigger] query_below(m, groups@, n) implies base <= n by {
            assert(low <= n);
        }
        assert(clauses_below(m, base as int)) by {
            assert forall|i: int| 0 <= i < m.len() implies lits_below(#[trigger] m[i], base as int) by {
                assert(lits_below(m[i], low as int));
            }
        }
        assert(sound(m, m, groups@, 0)) by {
            reveal(sound);
        }
        assert(complete(m, m, groups@, 0, base as int)) by {
            reveal(complete);
            reveal(extended);
            assert forall|a: Assignment| #[trigger] part_true(a, m, groups@, 0) implies extended(a, m, base as int) by {
                assert(agree_below(a, a, base as int));
                assert(matrix_true(a, m));
            }
        }
    }
    while k < groups.len()
        invariant
            k <= groups@.len(),
            solver.wf(),
            next <= MAX_INDEX + 1,
            clauses_below(m, base as int),
            forall|g: int| 0 <= g < groups@.len() ==> group_below(#[trigger] groups@[g], base as int),
            base <= next,
            m == matrix_of(constraints@),
            next == base + grouped(groups@, k as int),
            forall|n: int| 0 <= n && #[trigger] query_below(m, groups@, n) ==> base <= n,
            clauses_below(solver.clauses(), next as int),
            sound(m, solver.clauses(), groups@, k as int),
            complete(m, solver.clauses(), groups@, k as int, base as int),
        decreases groups.len() - k,
    {
        let ghost mid = solver.clauses();
        proof {
            assert(group_below(groups@[k as int], base as int));
            let n = matrix_of(groups@[k as int].clauses@);
            assert forall|i: int| 0 <= i < n.len() implies lits_below(#[trigger] n[i], next as int) by {
                assert(lits_below(n[i], base as int));
            }
        }
        match add_group(&mut solver, &groups[k], next) {
            Some(end) => {
                proof {
                    lemma_sound_step(m, mid, solver.clauses(), groups@, k as int);
                    lemma_complete_step(m, mid, solver.clauses(), groups@, k as int, next as int, base as int);
                }
                next = end;
            },
            None => {
                proof {
                    lemma_grouped(groups@, k as int + 1, groups@.len() as int);
                    assert(grouped(groups@, k as int + 1) == grouped(groups@, k as int) + groups@[k as int].clauses@.len());
                    assert(next + groups@[k as int].clauses@.len() > crate::sat::MAX_NUMBER);
                    assert forall|n: int| 0 <= n && #[trigger] query_below(m, groups@, n) implies n + grouped(groups@, groups@.len() as int)
                        > crate::sat::MAX_NUMBER by {
                        assert(base <= n);
                    }
                }
                return Answer::OutOfRange;
            },
        }
        k += 1;
    }
    let ghost full = solver.clauses();
    match solver.solve() {
        SatOutcome::Sat(model) => {
            let lits = keep_below(&model, base);
            proof {
                assert forall|a: Assignment| #[trigger] cube_true(a, lits@) implies query_true(a, m, groups@) by {
                    lemma_model_assignment(model@);
                    let b = |x: Var|
                        if x.id() < base {
                            a(x)
                        } else {
                            model_assignment(model@)(x)
                        };
                    assert forall|i: int| 0 <= i < model@.len() implies lit_true(b, #[trigger] model@[i]) by {
                        let l = model@[i];
                        assert(lit_true(model_assignment(model@), l));
                        if l.v().id() < base {
                            assert(model@.contains(l));
                            assert(lits@.contains(l));
                            let j = choose|j: int| 0 <= j < lits@.len() && lits@[j] == l;
                            assert(lit_true(a, lits@[j]));
                        }
                    }
                    assert(cube_true(b, model@));
                    assert(matrix_true(b, full));
                    reveal(sound);
                    assert(part_true(b, m, groups@, groups@.len() as int));
                    assert(query_true(b, m, groups@));
                    lemma_below_query(m, groups@, base as int, a, b);
                }
            }
            Answer::Possible(lits)
        },
        SatOutcome::Unsat => {
            proof {
                assert forall|a: Assignment| !#[trigger] query_true(a, m, groups@) by {
                    if query_true(a, m, groups@) {
                        assert(part_true(a, m, groups@, groups@.len() as int));
                        reveal(complete);
                        assert(extended(a, full, base as int));
                        reveal(extended);
                        let b = choose|b: Assignment| agree_below(a, b, base as int) && #[trigger] matrix_true(b, full);
                        assert(cube_true(b, Seq::<Lit>::empty()));
                    }
                }
            }
            Answer::Impossible
        },
        SatOutcome::OutOfRange => {
            proof {
                if next <= crate::sat::MAX_NUMBER {
                    assert forall|i: int| 0 <= i < full.len() implies crate::sat::lits_ok(#[trigger] full[i]) by {
                        assert(lits_below(full[i], next as int));
                    }
                    assert(false);
                }
            }
            Answer::OutOfRange
        },
    }
}

/// More groups have no fewer clauses.
proof fn lemma_grouped(groups: Seq<Group>, k: int, n: int)
    requires
        0 <= k <= n <= groups.len(),
    ensures
        grouped(groups, k) <= grouped(groups, n),
    decreases n - k,
{
    if k < n {
        lemma_grouped(groups, k, n - 1);
    }
}

/// The literals on variables below an index.
fn keep_below(lits: &Vec<Lit>, base: u32) -> (rest: Vec<Lit>)
    requires
        consistent(lits@),
    ensures
        consistent(rest@),
        forall|l: Lit| #[trigger] rest@.contains(l) <==> lits@.contains(l) && l.v().id() < base,
{
    let mut rest: Vec<Lit> = Vec::new();
    let mut k: usize = 0;
    while k < lits.len()
        invariant
            k <= lits@.len(),
            forall|l: Lit| #[trigger] rest@.contains(l) <==> lits@.take(k as int).contains(l) && l.v().id() < base,
        decreases lits.len() - k,
    {
        let ghost before = rest@;
        let l = lits[k];
        if l.var().as_index() < base as usize {
            rest.push(l);
        }
        proof {
            let part = lits@.take(k as int);
            assert(lits@.take(k as int + 1) =~= part.push(l));
            assert forall|x: Lit| #[trigger] rest@.contains(x) <==> lits@.take(k as int + 1).contains(x) && x.v().id() < base by {
                crate::datastructure::lemma_push_contains(part, l, x);
                crate::datastructure::lemma_push_contains(before, l, x);
                assert(before.contains(x) <==> part.contains(x) && x.v().id() < base);
            }
        }
        k += 1;
    }
    assert(lits@.take(lits@.len() as int) =~= lits@);
    proof {
        assert forall|i: int, j: int|
            0 <= i < rest@.len() && 0 <= j < rest@.len() && #[trigger] rest@[i].v() == #[trigger] rest@[j].v() implies rest@[i].pos()
            == rest@[j].pos() by {
            assert(rest@.contains(rest@[i]) && rest@.contains(rest@[j]));
            let p = choose|p: int| 0 <= p < lits@.len() && lits@[p] == rest@[i];
            let q = choose|q: int| 0 <= q < lits@.len() && lits@[q] == rest@[j];
            assert(lits@[p].v() == lits@[q].v());
        }
    }
    rest
}

} // verus!
