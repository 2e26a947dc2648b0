//! Expansion of an innermost universal block: the block is replaced by a
//! conjunction of copies, one per assignment of its variables, with fresh
//! copies of the variables bound behind it.
use crate::agreement::{copies_read, lemma_steady_more, reads_only, renames_once};
use crate::compose::{
    concerned, follows_on, keeps, lemma_bound_by, lemma_covers_part, outside, plays, shaped, universal_set, unlimited, wins_at,
};
use crate::datastructure::{LitSet, VarMap, VarSet};
use crate::incdet::model::agrees;
use crate::literal::{Lit, Var, MAX_INDEX};
use crate::normal::copy_vars;
use crate::qcnf::{matrix_of, QCNF};
use crate::quantifier::QuantTy;
use crate::semantics::{
    agree_off, bound, bound_by, clause_mentions, clause_true, cube_true, lemma_congruence, lemma_empty_block, lemma_exists_block,
    lemma_forall_block, lit_true, matrix_true, mentions, prefix_distinct, qbf, with_block, Assignment, Matrix, Prefix,
};
use crate::simplify::closed_formula;
use crate::strategy::{
    covers, cube_played, drop_copies, drop_renamed, first_copy, played, take_copies, Copies,
    Strategy,
};
use crate::strategy_circuit::is_original;
use std::rc::Rc;
use vstd::prelude::*;

verus! {

broadcast use crate::literal::group_literal;

/// The number of assignments of `n` variables.
pub open spec fn two_to(n: nat) -> nat
    decreases n,
{
    if n == 0 {
        1
    } else {
        2 * two_to((n - 1) as nat)
    }
}

/// There are more assignments of more variables.
pub proof fn lemma_two_to_mono(n: nat, m: nat)
    requires
        n <= m,
    ensures
        1 <= two_to(n) <= two_to(m),
    decreases m,
{
    if n < m {
        lemma_two_to_mono(n, (m - 1) as nat);
    } else if n > 0 {
        lemma_two_to_mono((n - 1) as nat, (n - 1) as nat);
    }
}

/// The cube assigns the variables of the list in order.
pub open spec fn cube_over(cube: Seq<Lit>, ys: Seq<Var>) -> bool {
    &&& cube.len() == ys.len()
    &&& forall|i: int| 0 <= i < ys.len() ==> (#[trigger] cube[i]).v() == ys[i]
}

/// Some cube of the list holds.
pub open spec fn some_cube(cubes: Seq<Vec<Lit>>, b: Assignment) -> bool {
    exists|k: int| 0 <= k < cubes.len() && cube_true(b, (#[trigger] cubes[k])@)
}

/// The binary number of a cube, with the first literal as the lowest bit.
pub open spec fn number_of(cube: Seq<Lit>) -> nat
    decreases cube.len(),
{
    if cube.len() == 0 {
        0
    } else {
        number_of(cube.drop_last()) + if cube.last().pos() {
            two_to((cube.len() - 1) as nat)
        } else {
            0
        }
    }
}

/// All cubes over the variables, in the order of counting with the first
/// variable as the lowest bit.
pub(crate) fn all_cubes(ys: &Vec<Var>) -> (cubes: Vec<Vec<Lit>>)
    requires
        ys@.len() <= 8,
    ensures
        cubes@.len() == two_to(ys@.len()),
        forall|k: int| 0 <= k < cubes@.len() ==> cube_over((#[trigger] cubes@[k])@, ys@) && number_of(cubes@[k]@) == k,
        forall|b: Assignment| #[trigger] some_cube(cubes@, b),
{
    let mut cubes: Vec<Vec<Lit>> = Vec::new();
    cubes.push(Vec::new());
    let mut i: usize = 0;
    proof {
        assert forall|b: Assignment| #[trigger] some_cube(cubes@, b) by {
            assert(cube_true(b, cubes@[0]@));
        }
    }
    while i < ys.len()
        invariant
            i <= ys@.len(),
            ys@.len() <= 8,
            cubes@.len() == two_to(i as nat),
            forall|k: int| 0 <= k < cubes@.len() ==> cube_over((#[trigger] cubes@[k])@, ys@.take(i as int)) && number_of(cubes@[k]@) == k,
            forall|b: Assignment| #[trigger] some_cube(cubes@, b),
        decreases ys.len() - i,
    {
        let var = ys[i];
        let ghost before = cubes@;
        let low = extended(&cubes, Lit::negative(var));
        let mut high = extended(&cubes, Lit::positive(var));
        cubes = low;
        let ghost low_cubes = cubes@;
        let ghost high_cubes = high@;
        cubes.append(&mut high);
        proof {
            assert(two_to((i + 1) as nat) == 2 * two_to(i as nat));
            assert forall|k: int| 0 <= k < cubes@.len() implies cube_over((#[trigger] cubes@[k])@, ys@.take(i as int + 1)) && number_of(
                cubes@[k]@,
            ) == k by {
                let source = if k < before.len() { k } else { k - before.len() };
                assert(cube_over(before[source]@, ys@.take(i as int)));
                assert(before[source]@.push(cubes@[k]@.last()).drop_last() =~= before[source]@);
                if k < before.len() {
                    assert(cubes@[k] == low_cubes[k]);
                } else {
                    assert(cubes@[k] == high_cubes[k - before.len()]);
                }
            }
            assert forall|b: Assignment| #[trigger] some_cube(cubes@, b) by {
                assert(some_cube(before, b));
                let k = choose|k: int| 0 <= k < before.len() && cube_true(b, (#[trigger] before[k])@);
                if b(var) {
                    assert(cubes@[before.len() + k] == high_cubes[k]);
                    assert(cube_true(b, cubes@[before.len() + k]@));
                } else {
                    assert(cubes@[k] == low_cubes[k]);
                    assert(cube_true(b, cubes@[k]@));
                }
            }
        }
        i += 1;
    }
    assert(ys@.take(ys@.len() as int) =~= ys@);
    cubes
}

/// The cubes with one more literal each.
fn extended(cubes: &Vec<Vec<Lit>>, lit: Lit) -> (result: Vec<Vec<Lit>>)
    ensures
        result@.len() == cubes@.len(),
        forall|k: int| 0 <= k < cubes@.len() ==> (#[trigger] result@[k])@ == cubes@[k]@.push(lit),
{
    let mut result: Vec<Vec<Lit>> = Vec::new();
    let mut k: usize = 0;
    while k < cubes.len()
        invariant
            k <= cubes@.len(),
            result@.len() == k,
            forall|i: int| 0 <= i < k ==> (#[trigger] result@[i])@ == cubes@[i]@.push(lit),
        decreases cubes.len() - k,
    {
        let mut cube = crate::normal::copy_lits(&cubes[k]);
        cube.push(lit);
        result.push(cube);
        k += 1;
    }
    result
}

/// What a renaming makes of a variable.
pub open spec fn renamed(rename: Seq<(Var, Var)>, x: Var) -> Var {
    if exists|j: int| 0 <= j < rename.len() && (#[trigger] rename[j]).0 == x {
        rename[choose|j: int| 0 <= j < rename.len() && (#[trigger] rename[j]).0 == x].1
    } else {
        x
    }
}

/// The second literal is the first one with its variable renamed.
pub open spec fn image(l: Lit, mapped: Lit, rename: Seq<(Var, Var)>) -> bool {
    mapped.pos() == l.pos() && mapped.v() == renamed(rename, l.v())
}

/// Some literal of the clause is the image of the literal.
pub open spec fn has_image(l: Lit, d: Seq<Lit>, rename: Seq<(Var, Var)>) -> bool {
    exists|j: int| 0 <= j < d.len() && image(l, #[trigger] d[j], rename)
}

/// The literal is the image of a literal of the clause that the cube does
/// not falsify.
pub open spec fn has_source(mapped: Lit, c: Seq<Lit>, cube: Seq<Lit>, rename: Seq<(Var, Var)>) -> bool {
    exists|i: int| 0 <= i < c.len() && image(#[trigger] c[i], mapped, rename) && !cube.contains(c[i].neg())
}

/// The second clause is the renamed first one without the literals that
/// the cube falsifies.
#[verifier::opaque]
pub open spec fn copied(c: Seq<Lit>, d: Seq<Lit>, cube: Seq<Lit>, rename: Seq<(Var, Var)>) -> bool {
    &&& forall|i: int| 0 <= i < c.len() ==> cube.contains((#[trigger] c[i]).neg()) || has_image(c[i], d, rename)
    &&& forall|j: int| 0 <= j < d.len() ==> has_source(#[trigger] d[j], c, cube, rename)
}

/// The first literals that the cube does not falsify.
pub open spec fn unfalsified(c: Seq<Lit>, cube: Seq<Lit>, count: int) -> Seq<Lit>
    decreases count,
{
    if count <= 0 {
        Seq::empty()
    } else if cube.contains(c[count - 1].neg()) {
        unfalsified(c, cube, count - 1)
    } else {
        unfalsified(c, cube, count - 1).push(c[count - 1])
    }
}

/// The second clause has the literals of the first that the cube does not
/// falsify, renamed, in order.
pub open spec fn copied_in_order(c: Seq<Lit>, d: Seq<Lit>, cube: Seq<Lit>, rename: Seq<(Var, Var)>) -> bool {
    let left = unfalsified(c, cube, c.len() as int);
    &&& d.len() == left.len()
    &&& forall|j: int| 0 <= j < d.len() ==> image(left[j], #[trigger] d[j], rename)
}

/// The first clauses that a copy has: those that its cube does not
/// satisfy, and in later copies only those that the block concerns.
pub open spec fn sources(m: Matrix, cube: Seq<Lit>, first: bool, ys: Seq<Var>, zs: Seq<Var>, count: int) -> Seq<int>
    decreases count,
{
    if count <= 0 {
        Seq::empty()
    } else if !satisfies(m[count - 1], cube) && (first || touches(m[count - 1], ys, zs)) {
        sources(m, cube, first, ys, zs, count - 1).push(count - 1)
    } else {
        sources(m, cube, first, ys, zs, count - 1)
    }
}

/// The clauses are those of one copy, in order.
pub open spec fn lists_copy(m: Matrix, more: Matrix, cube: Seq<Lit>, rename: Seq<(Var, Var)>, first: bool, ys: Seq<Var>, zs: Seq<Var>, count: int) -> bool {
    let from = sources(m, cube, first, ys, zs, count);
    &&& more.len() == from.len()
    &&& forall|j: int| 0 <= j < more.len() ==> copied_in_order(m[from[j]], #[trigger] more[j], cube, rename)
}

/// Where the clauses of a copy start.
pub open spec fn copy_start(m: Matrix, copies: Seq<(Vec<Lit>, Vec<(Var, Var)>)>, ys: Seq<Var>, zs: Seq<Var>, k: int) -> nat
    decreases k,
{
    if k <= 0 {
        0
    } else {
        copy_start(m, copies, ys, zs, k - 1) + sources(m, copies[k - 1].0@, k == 1, ys, zs, m.len() as int).len()
    }
}

/// The clauses are those of the first copies, copy by copy.
pub open spec fn lists_copies(m: Matrix, n: Matrix, copies: Seq<(Vec<Lit>, Vec<(Var, Var)>)>, ys: Seq<Var>, zs: Seq<Var>, count: int) -> bool {
    &&& n.len() == copy_start(m, copies, ys, zs, count)
    &&& forall|k: int| 0 <= k < count ==> #[trigger] lists_one(m, n, copies, ys, zs, k)
}

/// The clauses from the start of a copy on are those of the copy.
pub open spec fn lists_one(m: Matrix, n: Matrix, copies: Seq<(Vec<Lit>, Vec<(Var, Var)>)>, ys: Seq<Var>, zs: Seq<Var>, k: int) -> bool {
    let start = copy_start(m, copies, ys, zs, k) as int;
    let end = copy_start(m, copies, ys, zs, k + 1) as int;
    &&& end <= n.len()
    &&& lists_copy(m, n.subrange(start, end), copies[k].0@, copies[k].1@, k == 0, ys, zs, m.len() as int)
}

/// The cubes of the copies count up, one copy for each, and the clauses are
/// those of the copies, copy by copy.
#[verifier::opaque]
pub open spec fn in_sequence(m: Matrix, n: Matrix, copies: Seq<(Vec<Lit>, Vec<(Var, Var)>)>, ys: Seq<Var>, zs: Seq<Var>) -> bool {
    &&& copies.len() == two_to(ys.len())
    &&& forall|k: int| 0 <= k < copies.len() ==> number_of((#[trigger] copies[k]).0@) == k
    &&& lists_copies(m, n, copies, ys, zs, copies.len() as int)
}

proof fn lemma_copy_start(
    m: Matrix,
    copies: Seq<(Vec<Lit>, Vec<(Var, Var)>)>,
    more: Seq<(Vec<Lit>, Vec<(Var, Var)>)>,
    ys: Seq<Var>,
    zs: Seq<Var>,
    k: int,
)
    requires
        k <= copies.len() <= more.len(),
        forall|i: int| 0 <= i < copies.len() ==> copies[i] == more[i],
    ensures
        copy_start(m, copies, ys, zs, k) == copy_start(m, more, ys, zs, k),
    decreases k,
{
    if k > 0 {
        lemma_copy_start(m, copies, more, ys, zs, k - 1);
    }
}

proof fn lemma_start_mono(m: Matrix, copies: Seq<(Vec<Lit>, Vec<(Var, Var)>)>, ys: Seq<Var>, zs: Seq<Var>, k: int, l: int)
    requires
        k <= l,
    ensures
        copy_start(m, copies, ys, zs, k) <= copy_start(m, copies, ys, zs, l),
    decreases l - k,
{
    if k < l && l > 0 {
        lemma_start_mono(m, copies, ys, zs, k, l - 1);
    }
}

/// One more copy behind the others.
proof fn lemma_lists_more(
    m: Matrix,
    n: Matrix,
    copies: Seq<(Vec<Lit>, Vec<(Var, Var)>)>,
    more: Matrix,
    copy: (Vec<Lit>, Vec<(Var, Var)>),
    ys: Seq<Var>,
    zs: Seq<Var>,
)
    requires
        lists_copies(m, n, copies, ys, zs, copies.len() as int),
        lists_copy(m, more, copy.0@, copy.1@, copies.len() == 0, ys, zs, m.len() as int),
    ensures
        lists_copies(m, n + more, copies.push(copy), ys, zs, copies.len() as int + 1),
{
    let all = copies.push(copy);
    let count = copies.len() as int;
    lemma_copy_start(m, copies, all, ys, zs, count);
    assert forall|k: int| 0 <= k < count + 1 implies #[trigger] lists_one(m, n + more, all, ys, zs, k) by {
        lemma_copy_start(m, copies, all, ys, zs, k);
        let start = copy_start(m, all, ys, zs, k) as int;
        let end = copy_start(m, all, ys, zs, k + 1) as int;
        if k < count {
            lemma_copy_start(m, copies, all, ys, zs, k + 1);
            assert(lists_one(m, n, copies, ys, zs, k));
            assert((n + more).subrange(start, end) =~= n.subrange(start, end));
        } else {
            assert((n + more).subrange(start, end) =~= more);
        }
    }
}

/// The cube satisfies the clause.
pub open spec fn satisfies(c: Seq<Lit>, cube: Seq<Lit>) -> bool {
    exists|i: int| 0 <= i < c.len() && cube.contains(#[trigger] c[i])
}

/// The clause mentions the enumerated block or what is bound behind it.
pub open spec fn touches(c: Seq<Lit>, ys: Seq<Var>, zs: Seq<Var>) -> bool {
    exists|i: int| 0 <= i < c.len() && (ys.contains((#[trigger] c[i]).v()) || zs.contains(c[i].v()))
}

/// Some clause of the expansion is the copy.
pub open spec fn has_copy(c: Seq<Lit>, n: Matrix, cube: Seq<Lit>, rename: Seq<(Var, Var)>) -> bool {
    exists|j: int| 0 <= j < n.len() && copied(c, #[trigger] n[j], cube, rename)
}

/// The clause is a copy of a clause that the cube does not satisfy.
pub open spec fn is_copy(d: Seq<Lit>, m: Matrix, cube: Seq<Lit>, rename: Seq<(Var, Var)>) -> bool {
    exists|i: int| 0 <= i < m.len() && !satisfies(#[trigger] m[i], cube) && copied(m[i], d, cube, rename)
}

/// Some copy of the list gives the clause.
pub open spec fn from_some_copy(d: Seq<Lit>, m: Matrix, copies: Seq<(Vec<Lit>, Vec<(Var, Var)>)>) -> bool {
    exists|k: int| 0 <= k < copies.len() && is_copy(d, m, (#[trigger] copies[k]).0@, copies[k].1@)
}

/// What the expansion of the first clauses under one copy must contain.
pub open spec fn covered_by(m: Matrix, i: int, k: int, n: Matrix, cube: Seq<Lit>, rename: Seq<(Var, Var)>, ys: Seq<Var>, zs: Seq<Var>) -> bool {
    satisfies(m[i], cube) || (k > 0 && !touches(m[i], ys, zs)) || has_copy(m[i], n, cube, rename)
}

/// The cubes are over the block and exhaustive, and the renamings give
/// every variable behind it a copy of its own.
pub open spec fn copies_ok(copies: Seq<(Vec<Lit>, Vec<(Var, Var)>)>, ys: Seq<Var>, zs: Seq<Var>, base: int) -> bool {
    &&& forall|k: int| 0 <= k < copies.len() ==> cube_over((#[trigger] copies[k]).0@, ys)
    &&& ys.no_duplicates()
    &&& forall|k: int| 0 <= k < copies.len() ==> rename_ok((#[trigger] copies[k]).1@, zs, base + k * zs.len())
    &&& forall|b: Assignment| #[trigger] some_copy(copies, b)
}

/// The renaming gives the variables of the list consecutive copies.
pub open spec fn rename_ok(rename: Seq<(Var, Var)>, zs: Seq<Var>, first: int) -> bool {
    &&& rename.len() == zs.len()
    &&& forall|j: int| 0 <= j < zs.len() ==> (#[trigger] rename[j]).0 == zs[j] && rename[j].1.id() == first + j
}

/// The cube of some copy holds.
pub open spec fn some_copy(copies: Seq<(Vec<Lit>, Vec<(Var, Var)>)>, b: Assignment) -> bool {
    exists|k: int| 0 <= k < copies.len() && cube_true(b, (#[trigger] copies[k]).0@)
}

/// The second matrix is the expansion of the first.
pub open spec fn expands(m: Matrix, n: Matrix, copies: Seq<(Vec<Lit>, Vec<(Var, Var)>)>, ys: Seq<Var>, zs: Seq<Var>) -> bool {
    &&& forall|k: int, i: int|
        #![trigger copies[k], m[i]]
        0 <= k < copies.len() && 0 <= i < m.len() ==> covered_by(m, i, k, n, copies[k].0@, copies[k].1@, ys, zs)
    &&& forall|j: int| 0 <= j < n.len() ==> from_some_copy(#[trigger] n[j], m, copies)
}

/// Renaming a variable of the list gives its copy.
proof fn lemma_renamed(rename: Seq<(Var, Var)>, zs: Seq<Var>, first: int, x: Var)
    requires
        rename_ok(rename, zs, first),
        zs.no_duplicates(),
    ensures
        zs.contains(x) ==> renamed(rename, x).id() == first + zs.index_of(x) && 0 <= zs.index_of(x) < zs.len() && zs[zs.index_of(
            x,
        )] == x && rename[zs.index_of(x)].1 == renamed(rename, x),
        !zs.contains(x) ==> renamed(rename, x) == x,
{
    if zs.contains(x) {
        let i = zs.index_of(x);
        assert(zs[i] == x);
        assert(rename[i].0 == x);
        let j = choose|j: int| 0 <= j < rename.len() && (#[trigger] rename[j]).0 == x;
        assert(zs[j] == x);
        assert(i == j);
    } else {
        if exists|j: int| 0 <= j < rename.len() && (#[trigger] rename[j]).0 == x {
            let j = choose|j: int| 0 <= j < rename.len() && (#[trigger] rename[j]).0 == x;
            assert(zs[j] == x);
        }
    }
}

/// A literal on the block that the cube does not falsify satisfies the
/// clause.
proof fn lemma_on_block(c: Seq<Lit>, i: int, cube: Seq<Lit>, ys: Seq<Var>)
    requires
        0 <= i < c.len(),
        cube_over(cube, ys),
        ys.contains(c[i].v()),
        !cube.contains(c[i].neg()),
    ensures
        satisfies(c, cube),
{
    let x = c[i].v();
    let k = choose|k: int| 0 <= k < ys.len() && ys[k] == x;
    assert(cube[k].v() == x);
    assert(cube.contains(cube[k]));
    if cube[k].pos() == c[i].pos() {
        crate::literal::lemma_lit_ext(cube[k], c[i]);
    } else {
        crate::literal::lemma_lit_ext(cube[k], c[i].neg());
    }
}

/// The play of one copy, read as a play of the original, on one clause.
proof fn lemma_clause_project(
    c: Seq<Lit>,
    d: Seq<Lit>,
    cube: Seq<Lit>,
    rename: Seq<(Var, Var)>,
    ys: Seq<Var>,
    zs: Seq<Var>,
    first: int,
    a: Assignment,
    b: Assignment,
)
    requires
        copied(c, d, cube, rename),
        cube_over(cube, ys),
        rename_ok(rename, zs, first),
        zs.no_duplicates(),
        !satisfies(c, cube),
        clause_true(a, d),
        forall|x: Var| #[trigger] clause_mentions(c, x) && !ys.contains(x) && !zs.contains(x) ==> b(x) == a(x),
        forall|x: Var| #[trigger] clause_mentions(c, x) && zs.contains(x) ==> b(x) == a(renamed(rename, x)),
    ensures
        clause_true(b, c),
{
    reveal(copied);
    let h = choose|h: int| 0 <= h < d.len() && lit_true(a, #[trigger] d[h]);
    assert(has_source(d[h], c, cube, rename));
    let g = choose|g: int| 0 <= g < c.len() && image(#[trigger] c[g], d[h], rename) && !cube.contains(c[g].neg());
    let x = c[g].v();
    lemma_renamed(rename, zs, first, x);
    assert(clause_mentions(c, x));
    if !zs.contains(x) && ys.contains(x) {
        lemma_on_block(c, g, cube, ys);
    }
    assert(lit_true(b, c[g]));
}

/// A play of the original makes a play of its copy, on one clause.
proof fn lemma_clause_assemble(
    c: Seq<Lit>,
    d: Seq<Lit>,
    cube: Seq<Lit>,
    rename: Seq<(Var, Var)>,
    ys: Seq<Var>,
    zs: Seq<Var>,
    first: int,
    a: Assignment,
    b: Assignment,
)
    requires
        copied(c, d, cube, rename),
        cube_over(cube, ys),
        rename_ok(rename, zs, first),
        zs.no_duplicates(),
        !satisfies(c, cube),
        clause_true(b, c),
        cube_true(b, cube),
        forall|x: Var| #[trigger] clause_mentions(c, x) && !ys.contains(x) && !zs.contains(x) ==> b(x) == a(x),
        forall|x: Var| #[trigger] clause_mentions(c, x) && zs.contains(x) ==> b(x) == a(renamed(rename, x)),
    ensures
        clause_true(a, d),
{
    reveal(copied);
    let g = choose|g: int| 0 <= g < c.len() && lit_true(b, #[trigger] c[g]);
    let l = c[g];
    if cube.contains(l.neg()) {
        let h = choose|h: int| 0 <= h < cube.len() && cube[h] == l.neg();
        assert(lit_true(b, cube[h]));
    }
    assert(has_image(l, d, rename));
    let h = choose|h: int| 0 <= h < d.len() && image(l, #[trigger] d[h], rename);
    let x = l.v();
    lemma_renamed(rename, zs, first, x);
    assert(clause_mentions(c, x));
    if !zs.contains(x) && ys.contains(x) {
        lemma_on_block(c, g, cube, ys);
    }
    assert(lit_true(a, d[h]));
}

/// The variables of one copied clause.
proof fn lemma_clause_copied(
    c: Seq<Lit>,
    d: Seq<Lit>,
    cube: Seq<Lit>,
    rename: Seq<(Var, Var)>,
    ys: Seq<Var>,
    zs: Seq<Var>,
    first: int,
    x: Var,
)
    requires
        copied(c, d, cube, rename),
        cube_over(cube, ys),
        rename_ok(rename, zs, first),
        zs.no_duplicates(),
        !satisfies(c, cube),
        clause_mentions(d, x),
    ensures
        (clause_mentions(c, x) && !ys.contains(x) && !zs.contains(x)) || exists|j: int|
            0 <= j < rename.len() && (#[trigger] rename[j]).1 == x,
{
    reveal(copied);
    let h = choose|h: int| 0 <= h < d.len() && (#[trigger] d[h]).v() == x;
    assert(has_source(d[h], c, cube, rename));
    let g = choose|g: int| 0 <= g < c.len() && image(#[trigger] c[g], d[h], rename) && !cube.contains(c[g].neg());
    let y = c[g].v();
    lemma_renamed(rename, zs, first, y);
    if zs.contains(y) {
        assert(rename[zs.index_of(y)].1 == x);
    } else {
        assert(clause_mentions(c, y));
        if ys.contains(y) {
            lemma_on_block(c, g, cube, ys);
        }
    }
}

/// The play of one copy, read as a play of the original: where the
/// expansion holds, so does the matrix.
proof fn lemma_project(
    m: Matrix,
    n: Matrix,
    copies: Seq<(Vec<Lit>, Vec<(Var, Var)>)>,
    ys: Seq<Var>,
    zs: Seq<Var>,
    base: int,
    k: int,
    a: Assignment,
    c: Assignment,
)
    requires
        copies_ok(copies, ys, zs, base),
        zs.no_duplicates(),
        expands(m, n, copies, ys, zs),
        0 <= k < copies.len(),
        matrix_true(a, n),
        cube_true(c, copies[k].0@),
        forall|x: Var| #[trigger] mentions(m, x) && !ys.contains(x) && !zs.contains(x) ==> c(x) == a(x),
        forall|x: Var| #[trigger] zs.contains(x) ==> c(x) == a(renamed(copies[k].1@, x)),
    ensures
        matrix_true(c, m),
{
    assert forall|i: int| 0 <= i < m.len() implies clause_true(c, #[trigger] m[i]) by {
        lemma_project_clause(m, n, copies, ys, zs, base, k, a, c, i);
    }
}

proof fn lemma_project_clause(
    m: Matrix,
    n: Matrix,
    copies: Seq<(Vec<Lit>, Vec<(Var, Var)>)>,
    ys: Seq<Var>,
    zs: Seq<Var>,
    base: int,
    k: int,
    a: Assignment,
    c: Assignment,
    i: int,
)
    requires
        copies_ok(copies, ys, zs, base),
        zs.no_duplicates(),
        expands(m, n, copies, ys, zs),
        0 <= k < copies.len(),
        0 <= i < m.len(),
        matrix_true(a, n),
        cube_true(c, copies[k].0@),
        forall|x: Var| #[trigger] mentions(m, x) && !ys.contains(x) && !zs.contains(x) ==> c(x) == a(x),
        forall|x: Var| #[trigger] zs.contains(x) ==> c(x) == a(renamed(copies[k].1@, x)),
    ensures
        clause_true(c, m[i]),
{
    let source = m[i];
    let cube = copies[k].0@;
    let rename = copies[k].1@;
    assert(covered_by(m, i, k, n, copies[k].0@, copies[k].1@, ys, zs));
    assert forall|x: Var| #[trigger] clause_mentions(source, x) implies mentions(m, x) by {
        assert(clause_mentions(m[i], x));
    }
    if satisfies(source, cube) {
        let h = choose|h: int| 0 <= h < source.len() && cube.contains(#[trigger] source[h]);
        let g = choose|g: int| 0 <= g < cube.len() && cube[g] == source[h];
        assert(lit_true(c, cube[g]));
        assert(lit_true(c, source[h]));
    } else if has_copy(source, n, cube, rename) {
        let j = choose|j: int| 0 <= j < n.len() && copied(source, #[trigger] n[j], cube, rename);
        assert(clause_true(a, n[j]));
        assert(rename_ok(copies[k].1@, zs, base + k * zs.len()));
        lemma_clause_project(source, n[j], cube, rename, ys, zs, base + k * zs.len(), a, c);
    } else {
        let cube2 = copies[0].0@;
        let rename2 = copies[0].1@;
        assert(!touches(source, ys, zs));
        assert(covered_by(m, i, 0, n, copies[0].0@, copies[0].1@, ys, zs));
        assert(cube_over(cube2, ys));
        if satisfies(source, cube2) {
            let h = choose|h: int| 0 <= h < source.len() && cube2.contains(#[trigger] source[h]);
            let g = choose|g: int| 0 <= g < cube2.len() && cube2[g] == source[h];
            assert(cube2[g].v() == ys[g]);
            assert(ys.contains(source[h].v()));
        }
        let j = choose|j: int| 0 <= j < n.len() && copied(source, #[trigger] n[j], cube2, rename2);
        assert(clause_true(a, n[j]));
        assert(rename_ok(copies[0].1@, zs, base + 0 * zs.len()));
        assert forall|x: Var| #[trigger] clause_mentions(source, x) implies !zs.contains(x) && !ys.contains(x) by {
            let g = choose|g: int| 0 <= g < source.len() && (#[trigger] source[g]).v() == x;
        }
        lemma_clause_project(source, n[j], cube2, rename2, ys, zs, base + 0 * zs.len(), a, c);
    }
}

/// Plays of the original for every copy make a play of the expansion.
proof fn lemma_assemble(
    m: Matrix,
    n: Matrix,
    copies: Seq<(Vec<Lit>, Vec<(Var, Var)>)>,
    ys: Seq<Var>,
    zs: Seq<Var>,
    base: int,
    plays_at: spec_fn(int) -> Assignment,
    a: Assignment,
)
    requires
        copies_ok(copies, ys, zs, base),
        zs.no_duplicates(),
        expands(m, n, copies, ys, zs),
        forall|k: int|
            0 <= k < copies.len() ==> matrix_true(#[trigger] plays_at(k), m) && cube_true(plays_at(k), copies[k].0@),
        forall|k: int, x: Var|
            #![trigger plays_at(k), mentions(m, x)]
            0 <= k < copies.len() && mentions(m, x) && !ys.contains(x) && !zs.contains(x) ==> plays_at(k)(x) == a(x),
        forall|k: int, x: Var|
            #![trigger plays_at(k), zs.contains(x)]
            0 <= k < copies.len() && zs.contains(x) ==> a(renamed(copies[k].1@, x)) == plays_at(k)(x),
    ensures
        matrix_true(a, n),
{
    assert forall|j: int| 0 <= j < n.len() implies clause_true(a, #[trigger] n[j]) by {
        assert(from_some_copy(n[j], m, copies));
        let k = choose|k: int| 0 <= k < copies.len() && is_copy(n[j], m, (#[trigger] copies[k]).0@, copies[k].1@);
        let cube = copies[k].0@;
        let rename = copies[k].1@;
        let i = choose|i: int| 0 <= i < m.len() && !satisfies(#[trigger] m[i], cube) && copied(m[i], n[j], cube, rename);
        let c = plays_at(k);
        assert(matrix_true(c, m));
        assert(clause_true(c, m[i]));
        assert forall|x: Var| #[trigger] clause_mentions(m[i], x) implies mentions(m, x) by {}
        assert(rename_ok(copies[k].1@, zs, base + k * zs.len()));
        lemma_clause_assemble(m[i], n[j], cube, rename, ys, zs, base + k * zs.len(), a, c);
    }
}

/// The variables of the expansion: those of the matrix outside the block
/// and what is behind it, and the copies.
proof fn lemma_expansion_mentions(
    m: Matrix,
    n: Matrix,
    copies: Seq<(Vec<Lit>, Vec<(Var, Var)>)>,
    ys: Seq<Var>,
    zs: Seq<Var>,
    base: int,
    x: Var,
)
    requires
        copies_ok(copies, ys, zs, base),
        zs.no_duplicates(),
        expands(m, n, copies, ys, zs),
        mentions(n, x),
    ensures
        (mentions(m, x) && !ys.contains(x) && !zs.contains(x)) || is_fresh(copies, x),
{
    let j = choose|j: int| 0 <= j < n.len() && clause_mentions(#[trigger] n[j], x);
    assert(from_some_copy(n[j], m, copies));
    let k = choose|k: int| 0 <= k < copies.len() && is_copy(n[j], m, (#[trigger] copies[k]).0@, copies[k].1@);
    let cube = copies[k].0@;
    let rename = copies[k].1@;
    let i = choose|i: int| 0 <= i < m.len() && !satisfies(#[trigger] m[i], cube) && copied(m[i], n[j], cube, rename);
    assert(rename_ok(copies[k].1@, zs, base + k * zs.len()));
    lemma_clause_copied(m[i], n[j], cube, rename, ys, zs, base + k * zs.len(), x);
    if exists|t: int| 0 <= t < rename.len() && (#[trigger] rename[t]).1 == x {
        let t = choose|t: int| 0 <= t < rename.len() && (#[trigger] rename[t]).1 == x;
        assert(copies[k].1@[t].1 == x);
    } else {
        assert(clause_mentions(m[i], x));
    }
}

/// The variable is a copy.
pub open spec fn is_fresh(copies: Seq<(Vec<Lit>, Vec<(Var, Var)>)>, x: Var) -> bool {
    exists|k: int, j: int| 0 <= k < copies.len() && 0 <= j < copies[k].1@.len() && (#[trigger] copies[k].1@[j]).1 == x
}

/// The place of a copy: the copy and the position in its renaming.
pub open spec fn place(copies: Seq<(Vec<Lit>, Vec<(Var, Var)>)>, x: Var) -> (int, int) {
    choose|k: int, j: int| 0 <= k < copies.len() && 0 <= j < copies[k].1@.len() && (#[trigger] copies[k].1@[j]).1 == x
}

/// Two copies are the same variable only at the same place.
proof fn lemma_fresh_unique(copies: Seq<(Vec<Lit>, Vec<(Var, Var)>)>, ys: Seq<Var>, zs: Seq<Var>, base: int, k: int, j: int, k2: int, j2: int)
    requires
        copies_ok(copies, ys, zs, base),
        0 <= k < copies.len(),
        0 <= j < zs.len(),
        0 <= k2 < copies.len(),
        0 <= j2 < zs.len(),
        copies[k].1@[j].1 == copies[k2].1@[j2].1,
    ensures
        k == k2,
        j == j2,
{
    let n = zs.len() as int;
    assert(rename_ok(copies[k].1@, zs, base + k * zs.len()));
    assert(rename_ok(copies[k2].1@, zs, base + k2 * zs.len()));
    assert(copies[k].1@[j].1.id() == base + k * n + j);
    assert(copies[k2].1@[j2].1.id() == base + k2 * n + j2);
    assert(k * n + j == k2 * n + j2);
    if k < k2 {
        assert(k2 * n >= (k + 1) * n) by (nonlinear_arith)
            requires
                k < k2,
                n >= 0,
        ;
        assert((k + 1) * n == k * n + n) by (nonlinear_arith);
    } else if k2 < k {
        assert(k * n >= (k2 + 1) * n) by (nonlinear_arith)
            requires
                k2 < k,
                n >= 0,
        ;
        assert((k2 + 1) * n == k2 * n + n) by (nonlinear_arith);
    }
}

/// Copies are numbered from the base on.
proof fn lemma_fresh_range(copies: Seq<(Vec<Lit>, Vec<(Var, Var)>)>, ys: Seq<Var>, zs: Seq<Var>, base: int, x: Var)
    requires
        copies_ok(copies, ys, zs, base),
        is_fresh(copies, x),
    ensures
        x.id() >= base,
{
    let (k, j) = choose|k: int, j: int| 0 <= k < copies.len() && 0 <= j < copies[k].1@.len() && (#[trigger] copies[k].1@[j]).1 == x;
    assert(rename_ok(copies[k].1@, zs, base + k * zs.len()));
    assert(k * (zs.len() as int) >= 0) by (nonlinear_arith)
        requires
            k >= 0,
            zs.len() >= 0,
    ;
}

/// Expanding a universal block in front of one existential block.
proof fn lemma_expand_blocks(
    m: Matrix,
    n: Matrix,
    copies: Seq<(Vec<Lit>, Vec<(Var, Var)>)>,
    ys: Seq<Var>,
    zs: Seq<Var>,
    fresh: Seq<Var>,
    base: int,
    a: Assignment,
)
    requires
        copies_ok(copies, ys, zs, base),
        zs.no_duplicates(),
        forall|x: Var| ys.contains(x) ==> !#[trigger] zs.contains(x),
        expands(m, n, copies, ys, zs),
        forall|x: Var| #[trigger] fresh.contains(x) <==> is_fresh(copies, x),
        forall|x: Var| #[trigger] mentions(m, x) ==> x.id() < base,
        forall|x: Var| #[trigger] zs.contains(x) ==> x.id() < base,
        forall|x: Var| #[trigger] ys.contains(x) ==> x.id() < base,
    ensures
        qbf(with_block(QuantTy::Forall, ys, with_block(QuantTy::Exists, zs, Seq::empty())), m, a) == qbf(
            with_block(QuantTy::Exists, fresh, Seq::empty()),
            n,
            a,
        ),
{
    let none = Prefix::empty();
    let inner = with_block(QuantTy::Exists, zs, none);
    let full = with_block(QuantTy::Forall, ys, inner);
    lemma_forall_block(ys, inner, m, a);
    lemma_exists_block(fresh, none, n, a);
    if qbf(full, m, a) {
        let plays_at = |k: int| choose|c: Assignment|
            #[trigger] matrix_true(c, m) && cube_true(c, copies[k].0@) && forall|x: Var|
                !ys.contains(x) && !zs.contains(x) ==> #[trigger] c(x) == a(x);
        assert forall|k: int| 0 <= k < copies.len() implies matrix_true(#[trigger] plays_at(k), m) && cube_true(
            plays_at(k),
            copies[k].0@,
        ) && forall|x: Var| !ys.contains(x) && !zs.contains(x) ==> #[trigger] plays_at(k)(x) == a(x) by {
            lemma_cube_over_consistent(copies[k].0@, ys);
            lemma_block_play(m, copies[k].0@, ys, zs, a);
        }
        let b = |x: Var|
            if is_fresh(copies, x) {
                plays_at(place(copies, x).0)(zs[place(copies, x).1])
            } else {
                a(x)
            };
        assert forall|k: int, x: Var|
            #![trigger plays_at(k), zs.contains(x)]
            0 <= k < copies.len() && zs.contains(x) implies b(renamed(copies[k].1@, x)) == plays_at(k)(x) by {
            assert(rename_ok(copies[k].1@, zs, base + k * zs.len()));
            lemma_renamed(copies[k].1@, zs, base + k * zs.len(), x);
            let t = zs.index_of(x);
            let f = renamed(copies[k].1@, x);
            assert(copies[k].1@[t].1 == f);
            assert(is_fresh(copies, f));
            let (k2, j2) = place(copies, f);
            assert(copies[k2].1@[j2].1 == f);
            assert(rename_ok(copies[k2].1@, zs, base + k2 * zs.len()));
            lemma_fresh_unique(copies, ys, zs, base, k, t, k2, j2);
        }
        assert forall|k: int, x: Var|
            #![trigger plays_at(k), mentions(m, x)]
            0 <= k < copies.len() && mentions(m, x) && !ys.contains(x) && !zs.contains(x) implies plays_at(k)(x) == b(x) by {
            if is_fresh(copies, x) {
                lemma_fresh_range(copies, ys, zs, base, x);
            }
            assert(plays_at(k)(x) == a(x));
        }
        lemma_assemble(m, n, copies, ys, zs, base, plays_at, b);
        assert forall|x: Var| !fresh.contains(x) implies a(x) == #[trigger] b(x) by {}
        assert(agree_off(a, b, fresh));
        assert(qbf(none, n, b));
    }
    if qbf(with_block(QuantTy::Exists, fresh, none), n, a) {
        let b = choose|b: Assignment| #[trigger] agree_off(a, b, fresh) && qbf(none, n, b);
        assert(matrix_true(b, n));
        assert forall|d: Assignment| #[trigger] agree_off(a, d, ys) implies qbf(inner, m, d) by {
            assert(some_copy(copies, d));
            let k = choose|k: int| 0 <= k < copies.len() && cube_true(d, (#[trigger] copies[k]).0@);
            let c = |x: Var| if zs.contains(x) { b(renamed(copies[k].1@, x)) } else { d(x) };
            let cube = copies[k].0@;
            assert(cube_over(cube, ys));
            assert forall|i: int| 0 <= i < cube.len() implies lit_true(c, #[trigger] cube[i]) by {
                assert(ys.contains(ys[i]));
                assert(lit_true(d, cube[i]));
            }
            assert forall|x: Var| #[trigger] mentions(m, x) && !ys.contains(x) && !zs.contains(x) implies c(x) == b(x) by {
                if fresh.contains(x) {
                    lemma_fresh_range(copies, ys, zs, base, x);
                }
                assert(a(x) == b(x));
                assert(a(x) == d(x));
            }
            lemma_project(m, n, copies, ys, zs, base, k, b, c);
            assert forall|x: Var| !zs.contains(x) implies d(x) == #[trigger] c(x) by {}
            assert(agree_off(d, c, zs));
            assert(qbf(none, m, c));
            lemma_exists_block(zs, none, m, d);
        }
    }
}

/// A cube over distinct variables does not contradict itself.
proof fn lemma_cube_over_consistent(cube: Seq<Lit>, ys: Seq<Var>)
    requires
        cube_over(cube, ys),
        ys.no_duplicates(),
    ensures
        crate::sat::consistent(cube),
{
    assert forall|i: int, j: int|
        0 <= i < cube.len() && 0 <= j < cube.len() && #[trigger] cube[i].v() == #[trigger] cube[j].v() implies cube[i].pos()
        == cube[j].pos() by {
        assert(ys[i] == ys[j]);
    }
}

/// Against any move of the universal block there is a play.
proof fn lemma_block_play(m: Matrix, cube: Seq<Lit>, ys: Seq<Var>, zs: Seq<Var>, a: Assignment)
    requires
        cube_over(cube, ys),
        forall|x: Var| ys.contains(x) ==> !#[trigger] zs.contains(x),
        qbf(with_block(QuantTy::Forall, ys, with_block(QuantTy::Exists, zs, Seq::empty())), m, a),
        crate::sat::consistent(cube),
    ensures
        exists|c: Assignment|
            #[trigger] matrix_true(c, m) && cube_true(c, cube) && forall|x: Var|
                !ys.contains(x) && !zs.contains(x) ==> #[trigger] c(x) == a(x),
{
    let none = Prefix::empty();
    let inner = with_block(QuantTy::Exists, zs, none);
    lemma_forall_block(ys, inner, m, a);
    let b = crate::reduction::forced_on(a, cube, ys);
    crate::reduction::lemma_forced_on(a, cube, ys);
    assert forall|x: Var| !ys.contains(x) implies a(x) == #[trigger] b(x) by {}
    assert(agree_off(a, b, ys));
    assert(qbf(inner, m, b));
    lemma_exists_block(zs, none, m, b);
    let c = choose|c: Assignment| #[trigger] agree_off(b, c, zs) && qbf(none, m, c);
    assert(matrix_true(c, m));
    assert forall|i: int| 0 <= i < cube.len() implies lit_true(c, #[trigger] cube[i]) by {
        let x = cube[i].v();
        assert(ys.contains(ys[i]));
        assert(!zs.contains(x));
        assert(b(x) == c(x));
        assert(lit_true(b, cube[i]));
    }
    assert forall|x: Var| !ys.contains(x) && !zs.contains(x) implies #[trigger] c(x) == a(x) by {
        assert(b(x) == c(x));
        assert(a(x) == b(x));
    }
}

/// The blocks behind an innermost universal block: at most one.
pub open spec fn behind(p: Prefix, block: int) -> Seq<Var> {
    if block + 1 < p.len() {
        p[block + 1].1
    } else {
        Seq::empty()
    }
}

/// What an expansion keeps of the instance.
pub open spec fn expansion_of(p: Prefix, m: Matrix, q: Prefix, n: Matrix, copies: Seq<(Vec<Lit>, Vec<(Var, Var)>)>, block: int, base: int) -> bool {
    &&& prefix_distinct(q)
    &&& closed_formula(q, n)
    &&& q.len() == block + 1
    &&& copies_ok(copies, p[block].1, behind(p, block), base)
    &&& in_sequence(m, n, copies, p[block].1, behind(p, block))
    &&& expands(m, n, copies, p[block].1, behind(p, block))
    &&& forall|i: int| 0 <= i < block ==> #[trigger] q[i] == p[i]
    &&& q[block].0 == QuantTy::Exists
    &&& forall|x: Var| #[trigger] q[block].1.contains(x) <==> is_fresh(copies, x)
    &&& q[block].1.len() == two_to(p[block].1.len()) * behind(p, block).len()
    &&& forall|i: int| 0 <= i < q[block].1.len() ==> (#[trigger] q[block].1[i]).id() == base + i
    &&& forall|a: Assignment| #[trigger] qbf(p, m, a) == qbf(q, n, a)
}

/// Whether the clause contains a literal of the set.
fn hits(clause: &Vec<Lit>, set: &LitSet) -> (found: bool)
    ensures
        found == exists|i: int| 0 <= i < clause@.len() && set@.contains(#[trigger] clause@[i]),
{
    let mut k: usize = 0;
    while k < clause.len()
        invariant
            k <= clause@.len(),
            forall|i: int| 0 <= i < k ==> !set@.contains(#[trigger] clause@[i]),
        decreases clause.len() - k,
    {
        if set.contains(clause[k]) {
            assert(set@.contains(clause@[k as int]));
            return true;
        }
        k += 1;
    }
    false
}

/// Whether the clause mentions a variable of the sets.
fn mentions_any(clause: &Vec<Lit>, first: &VarSet, second: &VarSet) -> (found: bool)
    ensures
        found == exists|i: int|
            0 <= i < clause@.len() && (first@.contains((#[trigger] clause@[i]).v()) || second@.contains(clause@[i].v())),
{
    let mut k: usize = 0;
    while k < clause.len()
        invariant
            k <= clause@.len(),
            forall|i: int| 0 <= i < k ==> !first@.contains((#[trigger] clause@[i]).v()) && !second@.contains(clause@[i].v()),
        decreases clause.len() - k,
    {
        let var = clause[k].var();
        if first.contains(var) || second.contains(var) {
            assert(first@.contains(clause@[k as int].v()) || second@.contains(clause@[k as int].v()));
            return true;
        }
        k += 1;
    }
    false
}

/// The clause without the literals that the cube falsifies, renamed.
fn copy_clause(clause: &Vec<Lit>, set: &LitSet, table: &VarMap<Var>, Ghost(cube): Ghost<Seq<Lit>>, Ghost(rename): Ghost<Seq<(Var, Var)>>) -> (result: Vec<Lit>)
    requires
        forall|l: Lit| #[trigger] set@.contains(l) <==> cube.contains(l),
        forall|x: Var| renamed(rename, x) == (if #[trigger] table@.contains_key(x) { table@[x] } else { x }),
    ensures
        copied(clause@, result@, cube, rename),
        copied_in_order(clause@, result@, cube, rename),
{
    let mut result: Vec<Lit> = Vec::new();
    let mut k: usize = 0;
    while k < clause.len()
        invariant
            k <= clause@.len(),
            forall|l: Lit| #[trigger] set@.contains(l) <==> cube.contains(l),
            forall|x: Var| renamed(rename, x) == (if #[trigger] table@.contains_key(x) { table@[x] } else { x }),
            forall|i: int| 0 <= i < k ==> cube.contains((#[trigger] clause@[i]).neg()) || has_image(clause@[i], result@, rename),
            forall|j: int| 0 <= j < result@.len() ==> has_source(#[trigger] result@[j], clause@, cube, rename),
            result@.len() == unfalsified(clause@, cube, k as int).len(),
            forall|j: int| 0 <= j < result@.len() ==> image(unfalsified(clause@, cube, k as int)[j], #[trigger] result@[j], rename),
        decreases clause.len() - k,
    {
        let lit = clause[k];
        if !set.contains(lit.negated()) {
            let mapped = match table.get(lit.var()) {
                Some(fresh) => Lit::from_var(fresh, lit.is_positive()),
                None => lit,
            };
            let ghost before = result@;
            result.push(mapped);
            proof {
                assert(table@.contains_key(lit.v()) || renamed(rename, lit.v()) == lit.v());
                assert(image(clause@[k as int], mapped, rename));
                assert(has_source(mapped, clause@, cube, rename));
                assert forall|i: int| 0 <= i < k + 1 implies cube.contains((#[trigger] clause@[i]).neg()) || has_image(
                    clause@[i],
                    result@,
                    rename,
                ) by {
                    if i < k {
                        if !cube.contains(clause@[i].neg()) {
                            let h = choose|h: int| 0 <= h < before.len() && image(clause@[i], #[trigger] before[h], rename);
                            assert(result@[h] == before[h]);
                        }
                    } else {
                        assert(result@[before.len() as int] == mapped);
                    }
                }
                assert forall|j: int| 0 <= j < result@.len() implies has_source(#[trigger] result@[j], clause@, cube, rename) by {
                    if j < before.len() {
                        assert(result@[j] == before[j]);
                    }
                }
            }
        }
        k += 1;
    }
    proof {
        reveal(copied);
    }
    result
}

/// Appends the clauses of one copy.
fn add_copy(
    source: &Vec<Vec<Lit>>,
    cube: &Vec<Lit>,
    rename: &Vec<(Var, Var)>,
    y_set: &VarSet,
    z_set: &VarSet,
    first: bool,
    matrix: &mut Vec<Vec<Lit>>,
    Ghost(ys): Ghost<Seq<Var>>,
    Ghost(zs): Ghost<Seq<Var>>,
    Ghost(base): Ghost<int>,
)
    requires
        forall|x: Var| #[trigger] y_set@.contains(x) <==> ys.contains(x),
        forall|x: Var| #[trigger] z_set@.contains(x) <==> zs.contains(x),
        rename_ok(rename@, zs, base),
        zs.no_duplicates(),
    ensures
        exists|more: Matrix| #[trigger] copy_of_all(matrix_of(source@), more, cube@, rename@, first, ys, zs) && matrix_of(
            final(matrix)@,
        ) == matrix_of(old(matrix)@) + more && lists_copy(
            matrix_of(source@),
            more,
            cube@,
            rename@,
            first,
            ys,
            zs,
            matrix_of(source@).len() as int,
        ),
{
    let ghost m = matrix_of(source@);
    let ghost before = matrix_of(matrix@);
    let ghost mut more: Matrix = Seq::empty();
    let set = LitSet::from_lits(cube);
    let table = rename_table(rename, Ghost(zs), Ghost(base));
    let mut i: usize = 0;
    assert(before + more =~= before);
    while i < source.len()
        invariant
            i <= source@.len(),
            m == matrix_of(source@),
            forall|l: Lit| #[trigger] set@.contains(l) <==> cube@.contains(l),
            forall|x: Var| renamed(rename@, x) == (if #[trigger] table@.contains_key(x) { table@[x] } else { x }),
            forall|x: Var| #[trigger] y_set@.contains(x) <==> ys.contains(x),
            forall|x: Var| #[trigger] z_set@.contains(x) <==> zs.contains(x),
            matrix_of(matrix@) == before + more,
            forall|k: int|
                0 <= k < i ==> satisfies(#[trigger] m[k], cube@) || (!first && !touches(m[k], ys, zs)) || has_copy(
                    m[k],
                    more,
                    cube@,
                    rename@,
                ),
            forall|j: int| 0 <= j < more.len() ==> is_copy(#[trigger] more[j], m, cube@, rename@),
            lists_copy(m, more, cube@, rename@, first, ys, zs, i as int),
        decreases source.len() - i,
    {
        let ghost old_more = more;
        let satisfied = hits(&source[i], &set);
        let touched = mentions_any(&source[i], y_set, z_set);
        proof {
            assert(satisfied == satisfies(m[i as int], cube@)) by {
                let c = m[i as int];
                if satisfied {
                    let k = choose|k: int| 0 <= k < c.len() && set@.contains(#[trigger] c[k]);
                    assert(cube@.contains(c[k]));
                }
                if satisfies(c, cube@) {
                    let k = choose|k: int| 0 <= k < c.len() && cube@.contains(#[trigger] c[k]);
                    assert(set@.contains(c[k]));
                }
            }
            assert(touched == touches(m[i as int], ys, zs)) by {
                let c = m[i as int];
                if touched {
                    let k = choose|k: int| 0 <= k < c.len() && (y_set@.contains((#[trigger] c[k]).v()) || z_set@.contains(c[k].v()));
                    assert(ys.contains(c[k].v()) || zs.contains(c[k].v()));
                }
                if touches(c, ys, zs) {
                    let k = choose|k: int| 0 <= k < c.len() && (ys.contains((#[trigger] c[k]).v()) || zs.contains(c[k].v()));
                    assert(y_set@.contains(c[k].v()) || z_set@.contains(c[k].v()));
                }
            }
        }
        if !satisfied && (touched || first) {
            let lits = copy_clause(&source[i], &set, &table, Ghost(cube@), Ghost(rename@));
            let ghost d = lits@;
            let ghost last = matrix_of(matrix@);
            matrix.push(lits);
            proof {
                more = more.push(d);
                assert(matrix_of(matrix@) =~= last.push(d));
                assert(matrix_of(matrix@) =~= before + more);
                assert(more[old_more.len() as int] == d);
                assert(copied(m[i as int], more[old_more.len() as int], cube@, rename@));
                assert(is_copy(d, m, cube@, rename@)) by {
                    assert(!satisfies(m[i as int], cube@) && copied(m[i as int], d, cube@, rename@));
                }
            }
        }
        proof {
            assert forall|k: int| 0 <= k < i + 1 implies satisfies(#[trigger] m[k], cube@) || (!first && !touches(m[k], ys, zs))
                || has_copy(m[k], more, cube@, rename@) by {
                if k < i && has_copy(m[k], old_more, cube@, rename@) {
                    let j = choose|j: int| 0 <= j < old_more.len() && copied(m[k], #[trigger] old_more[j], cube@, rename@);
                    assert(more[j] == old_more[j]);
                }
            }
            assert forall|j: int| 0 <= j < more.len() implies is_copy(#[trigger] more[j], m, cube@, rename@) by {
                if j < old_more.len() {
                    assert(more[j] == old_more[j]);
                }
            }
            assert(lists_copy(m, more, cube@, rename@, first, ys, zs, i as int + 1)) by {
                let from = sources(m, cube@, first, ys, zs, i as int + 1);
                assert forall|j: int| 0 <= j < more.len() implies copied_in_order(m[from[j]], #[trigger] more[j], cube@, rename@) by {
                    if j < old_more.len() {
                        assert(more[j] == old_more[j]);
                        assert(from[j] == sources(m, cube@, first, ys, zs, i as int)[j]);
                    }
                }
            }
        }
        i += 1;
    }
    assert(copy_of_all(m, more, cube@, rename@, first, ys, zs));
}

/// The clauses of one copy.
pub open spec fn copy_of_all(m: Matrix, more: Matrix, cube: Seq<Lit>, rename: Seq<(Var, Var)>, first: bool, ys: Seq<Var>, zs: Seq<Var>) -> bool {
    &&& forall|k: int|
        0 <= k < m.len() ==> satisfies(#[trigger] m[k], cube) || (!first && !touches(m[k], ys, zs)) || has_copy(m[k], more, cube, rename)
    &&& forall|j: int| 0 <= j < more.len() ==> is_copy(#[trigger] more[j], m, cube, rename)
}

/// The renaming as a table.
fn rename_table(rename: &Vec<(Var, Var)>, Ghost(zs): Ghost<Seq<Var>>, Ghost(base): Ghost<int>) -> (table: VarMap<Var>)
    requires
        rename_ok(rename@, zs, base),
        zs.no_duplicates(),
    ensures
        forall|x: Var| renamed(rename@, x) == (if #[trigger] table@.contains_key(x) { table@[x] } else { x }),
{
    let mut table: VarMap<Var> = VarMap::new();
    let mut k: usize = 0;
    while k < rename.len()
        invariant
            k <= rename@.len(),
            rename_ok(rename@, zs, base),
            zs.no_duplicates(),
            forall|x: Var| #[trigger] table@.contains_key(x) ==> zs.contains(x) && table@[x] == renamed(rename@, x),
            forall|j: int| 0 <= j < k ==> table@.contains_key(#[trigger] zs[j]),
        decreases rename.len() - k,
    {
        let (original, copy) = rename[k];
        table.insert(original, copy);
        proof {
            assert(rename@[k as int].0 == zs[k as int]);
            assert(zs.contains(zs[k as int]));
            lemma_renamed(rename@, zs, base, original);
            let t = zs.index_of(original);
            assert(zs[t] == zs[k as int]);
        }
        k += 1;
    }
    proof {
        assert forall|x: Var| renamed(rename@, x) == (if #[trigger] table@.contains_key(x) { table@[x] } else { x }) by {
            lemma_renamed(rename@, zs, base, x);
            if zs.contains(x) {
                let t = zs.index_of(x);
                assert(table@.contains_key(zs[t]));
            }
        }
    }
    table
}

/// Expands an innermost universal block with at most one existential block
/// behind it. Fresh variables start at `base`.
#[verifier::loop_isolation(false)]
pub(crate) fn expand_universal_block(qcnf: &QCNF, block: usize, base: u32) -> (result: (QCNF, Copies))
    requires
        qcnf.wf(),
        closed_formula(qcnf.blocks(), qcnf.clauses()),
        block < qcnf.prefix@.len() <= block + 2,
        qcnf.prefix@[block as int].0 == QuantTy::Forall,
        block + 1 < qcnf.prefix@.len() ==> qcnf.prefix@[block + 1].0 == QuantTy::Exists,
        qcnf.prefix@[block as int].1@.len() <= 8,
        forall|x: Var| #[trigger] bound(qcnf.blocks(), x) ==> x.id() < base,
        base + two_to(qcnf.prefix@[block as int].1@.len()) * behind(qcnf.blocks(), block as int).len() <= MAX_INDEX + 1,
    ensures
        expansion_of(
            qcnf.blocks(),
            qcnf.clauses(),
            result.0.blocks(),
            result.0.clauses(),
            result.1@,
            block as int,
            base as int,
        ),
{
    let ghost p = qcnf.blocks();
    let ghost m = qcnf.clauses();
    let ys = copy_vars(&qcnf.prefix[block].1);
    let zs = if qcnf.prefix.len() - block > 1 {
        copy_vars(&qcnf.prefix[block + 1].1)
    } else {
        Vec::new()
    };
    proof {
        assert(ys@ == p[block as int].1);
        assert(zs@ =~= behind(p, block as int));
        assert(p[block as int].1.no_duplicates());
        if block + 1 < p.len() {
            assert(p[block + 1].1.no_duplicates());
        }
    }
    let y_set = VarSet::from_vars(&ys);
    let z_set = VarSet::from_vars(&zs);
    let cubes = all_cubes(&ys);
    let mut copies: Copies = Vec::new();
    let mut fresh: Vec<Var> = Vec::new();
    let mut matrix: Vec<Vec<Lit>> = Vec::new();
    let mut next: u32 = base;
    let mut k: usize = 0;
    let ghost width = zs@.len() as int;
    let ghost total = cubes@.len() as int;
    assert(0 * width == 0);
    while k < cubes.len()
        invariant
            k <= cubes@.len(),
            copies@.len() == k,
            next == base + k * width,
            fresh@.len() == k * width,
            forall|i: int| 0 <= i < fresh@.len() ==> (#[trigger] fresh@[i]).id() == base + i,
            forall|i: int| 0 <= i < k ==> (#[trigger] copies@[i]).0@ == cubes@[i]@ && rename_ok(
                copies@[i].1@,
                zs@,
                base + i * width,
            ),
            forall|x: Var| #[trigger] fresh@.contains(x) <==> is_fresh(copies@, x),
            forall|c: int, i: int|
                #![trigger copies@[c], m[i]]
                0 <= c < k && 0 <= i < m.len() ==> covered_by(m, i, c, matrix_of(matrix@), copies@[c].0@, copies@[c].1@, ys@, zs@),
            forall|j: int| 0 <= j < matrix@.len() ==> from_some_copy((#[trigger] matrix@[j])@, m, copies@),
            lists_copies(m, matrix_of(matrix@), copies@, ys@, zs@, k as int),
        decreases cubes.len() - k,
    {
        let ghost start = next as int;
        let ghost old_fresh = fresh@;
        let mut rename: Vec<(Var, Var)> = Vec::new();
        let mut j: usize = 0;
        proof {
            assert((k + 1) * width <= total * width) by (nonlinear_arith)
                requires
                    k + 1 <= total,
                    width >= 0,
            ;
            assert((k + 1) * width == k * width + width) by (nonlinear_arith);
            assert(two_to(ys@.len()) * (zs@.len()) == total * width) by (nonlinear_arith)
                requires
                    two_to(ys@.len()) == total,
                    zs@.len() == width,
            ;
        }
        while j < zs.len()
            invariant
                j <= zs@.len(),
                next == start + j,
                start + width <= MAX_INDEX + 1,
                rename@.len() == j,
                forall|i: int| 0 <= i < j ==> (#[trigger] rename@[i]).0 == zs@[i] && rename@[i].1.id() == start + i,
                fresh@.len() == old_fresh.len() + j,
                forall|i: int| 0 <= i < old_fresh.len() ==> fresh@[i] == old_fresh[i],
                forall|i: int| 0 <= i < j ==> #[trigger] fresh@[old_fresh.len() + i] == rename@[i].1,
            decreases zs.len() - j,
        {
            let copy = Var::from_index(next);
            next = next + 1;
            rename.push((zs[j], copy));
            fresh.push(copy);
            j += 1;
        }
        let ghost old_copies = copies@;
        let ghost old_matrix = matrix_of(matrix@);
        let is_first = k == 0;
        let cube = crate::normal::copy_lits(&cubes[k]);
        add_copy(
            &qcnf.matrix,
            &cube,
            &rename,
            &y_set,
            &z_set,
            is_first,
            &mut matrix,
            Ghost(ys@),
            Ghost(zs@),
            Ghost(start),
        );
        let ghost more = choose|more: Matrix| #[trigger]
            copy_of_all(m, more, cube@, rename@, is_first, ys@, zs@) && matrix_of(matrix@) == old_matrix + more && lists_copy(
                m,
                more,
                cube@,
                rename@,
                is_first,
                ys@,
                zs@,
                m.len() as int,
            );
        assert(copy_of_all(m, more, cube@, rename@, is_first, ys@, zs@) && matrix_of(matrix@) == old_matrix + more);
        copies.push((cube, rename));
        proof {
            let n = matrix_of(matrix@);
            lemma_lists_more(m, old_matrix, old_copies, more, (cube, rename), ys@, zs@);
            assert(copies@ == old_copies.push((cube, rename)));
            assert(n.len() == old_matrix.len() + more.len());
            assert(copies@[k as int].0@ == cube@ && copies@[k as int].1@ == rename@);
            assert forall|c: int, i: int|
                #![trigger copies@[c], m[i]]
                0 <= c < k + 1 && 0 <= i < m.len() implies covered_by(m, i, c, n, copies@[c].0@, copies@[c].1@, ys@, zs@) by {
                if c < k {
                    assert(copies@[c] == old_copies[c]);
                    assert(covered_by(m, i, c, old_matrix, old_copies[c].0@, old_copies[c].1@, ys@, zs@));
                    lemma_has_copy_grow(m[i], old_matrix, more, old_copies[c].0@, old_copies[c].1@);
                } else {
                    assert(satisfies(m[i], cube@) || (k > 0 && !touches(m[i], ys@, zs@)) || has_copy(m[i], more, cube@, rename@));
                    lemma_has_copy_grow(m[i], old_matrix, more, cube@, rename@);
                }
            }
            assert forall|j: int| 0 <= j < matrix@.len() implies from_some_copy((#[trigger] matrix@[j])@, m, copies@) by {
                assert(n[j] == matrix@[j]@);
                if j < old_matrix.len() {
                    assert(n[j] == old_matrix[j]);
                    let c = choose|c: int| 0 <= c < old_copies.len() && is_copy(n[j], m, (#[trigger] old_copies[c]).0@, old_copies[c].1@);
                    assert(copies@[c] == old_copies[c]);
                    assert(is_copy(n[j], m, copies@[c].0@, copies@[c].1@));
                } else {
                    assert(n[j] == more[j - old_matrix.len()]);
                    assert(is_copy(n[j], m, copies@[k as int].0@, copies@[k as int].1@));
                }
            }
            assert forall|x: Var| #[trigger] fresh@.contains(x) <==> is_fresh(copies@, x) by {
                if fresh@.contains(x) {
                    let i = choose|i: int| 0 <= i < fresh@.len() && fresh@[i] == x;
                    if i < old_fresh.len() {
                        assert(fresh@[i] == old_fresh[i]);
                        assert(old_fresh.contains(x));
                        let (c, t) = choose|c: int, t: int| 0 <= c < old_copies.len() && 0 <= t < old_copies[c].1@.len() && (#[trigger] old_copies[c].1@[t]).1 == x;
                        assert(copies@[c].1@[t].1 == x);
                    } else {
                        let t = i - old_fresh.len();
                        assert(fresh@[old_fresh.len() + t] == rename@[t].1);
                        assert(copies@[k as int].1@[t].1 == x);
                    }
                }
                if is_fresh(copies@, x) {
                    let (c, t) = choose|c: int, t: int| 0 <= c < copies@.len() && 0 <= t < copies@[c].1@.len() && (#[trigger] copies@[c].1@[t]).1 == x;
                    if c < k {
                        assert(old_copies[c].1@[t].1 == x);
                        assert(is_fresh(old_copies, x));
                        assert(old_fresh.contains(x));
                        let i = choose|i: int| 0 <= i < old_fresh.len() && old_fresh[i] == x;
                        assert(fresh@[i] == old_fresh[i]);
                    } else {
                        assert(fresh@[old_fresh.len() + t] == x);
                    }
                }
            }
            assert forall|i: int| 0 <= i < fresh@.len() implies (#[trigger] fresh@[i]).id() == base + i by {
                if i >= old_fresh.len() {
                    let t = i - old_fresh.len();
                    assert(fresh@[old_fresh.len() + t] == rename@[t].1);
                } else {
                    assert(fresh@[i] == old_fresh[i]);
                }
            }
            assert forall|i: int| 0 <= i < k + 1 implies (#[trigger] copies@[i]).0@ == cubes@[i]@ && rename_ok(
                copies@[i].1@,
                zs@,
                base + i * width,
            ) by {
                if i < k {
                    assert(copies@[i] == old_copies[i]);
                }
            }
        }
        k += 1;
    }
    let mut prefix: Vec<(QuantTy, Vec<Var>)> = Vec::new();
    let mut i: usize = 0;
    while i < block
        invariant
            i <= block,
            prefix@.len() == i,
            forall|c: int| 0 <= c < i ==> (#[trigger] prefix@[c]).0 == qcnf.prefix@[c].0 && prefix@[c].1@ == qcnf.prefix@[c].1@,
        decreases block - i,
    {
        prefix.push((qcnf.prefix[i].0, copy_vars(&qcnf.prefix[i].1)));
        i += 1;
    }
    prefix.push((QuantTy::Exists, fresh));
    let result = QCNF { prefix, matrix };
    proof {
        let q = result.blocks();
        let n = result.clauses();
        assert forall|i: int| 0 <= i < block implies #[trigger] q[i] == p[i] by {
            assert(prefix@[i].0 == qcnf.prefix@[i].0);
        }
        assert(copies_ok(copies@, ys@, zs@, base as int)) by {
            assert forall|c: int| 0 <= c < copies@.len() implies cube_over((#[trigger] copies@[c]).0@, ys@) by {
                assert(cube_over(cubes@[c]@, ys@));
            }
            assert forall|c: int| 0 <= c < copies@.len() implies rename_ok((#[trigger] copies@[c]).1@, zs@, base + c * zs@.len()) by {}
            assert forall|b: Assignment| #[trigger] some_copy(copies@, b) by {
                assert(some_cube(cubes@, b));
                let c = choose|c: int| 0 <= c < cubes@.len() && cube_true(b, (#[trigger] cubes@[c])@);
                assert(copies@[c].0@ == cubes@[c]@);
                assert(cube_true(b, copies@[c].0@));
            }
        }
        assert(expands(m, n, copies@, ys@, zs@)) by {
            assert forall|j: int| 0 <= j < n.len() implies from_some_copy(#[trigger] n[j], m, copies@) by {
                assert(from_some_copy(matrix@[j]@, m, copies@));
            }
        }
        assert(in_sequence(m, n, copies@, ys@, zs@)) by {
            reveal(in_sequence);
            assert forall|c: int| 0 <= c < copies@.len() implies number_of((#[trigger] copies@[c]).0@) == c by {
                assert(copies@[c].0@ == cubes@[c]@);
            }
        }
        lemma_expansion(p, m, q, n, copies@, fresh@, block as int, base as int);
    }
    (result, copies)
}

proof fn lemma_has_copy_grow(c: Seq<Lit>, n: Matrix, more: Matrix, cube: Seq<Lit>, rename: Seq<(Var, Var)>)
    ensures
        has_copy(c, n, cube, rename) ==> has_copy(c, n + more, cube, rename),
        has_copy(c, more, cube, rename) ==> has_copy(c, n + more, cube, rename),
{
    let all = n + more;
    if has_copy(c, n, cube, rename) {
        let j = choose|j: int| 0 <= j < n.len() && copied(c, #[trigger] n[j], cube, rename);
        assert(all[j] == n[j]);
    }
    if has_copy(c, more, cube, rename) {
        let j = choose|j: int| 0 <= j < more.len() && copied(c, #[trigger] more[j], cube, rename);
        assert(all[n.len() + j] == more[j]);
    }
}

/// The expanded formula has the value of the formula.
proof fn lemma_expansion(
    p: Prefix,
    m: Matrix,
    q: Prefix,
    n: Matrix,
    copies: Seq<(Vec<Lit>, Vec<(Var, Var)>)>,
    fresh: Seq<Var>,
    block: int,
    base: int,
)
    requires
        prefix_distinct(p),
        closed_formula(p, m),
        0 <= block < p.len() <= block + 2,
        p[block].0 == QuantTy::Forall,
        block + 1 < p.len() ==> p[block + 1].0 == QuantTy::Exists,
        forall|x: Var| #[trigger] bound(p, x) ==> x.id() < base,
        copies_ok(copies, p[block].1, behind(p, block), base),
        expands(m, n, copies, p[block].1, behind(p, block)),
        q.len() == block + 1,
        forall|i: int| 0 <= i < block ==> #[trigger] q[i] == p[i],
        q[block] == (QuantTy::Exists, fresh),
        forall|x: Var| #[trigger] fresh.contains(x) <==> is_fresh(copies, x),
        forall|i: int| 0 <= i < fresh.len() ==> (#[trigger] fresh[i]).id() == base + i,
        fresh.len() == two_to(p[block].1.len()) * behind(p, block).len(),
        in_sequence(m, n, copies, p[block].1, behind(p, block)),
    ensures
        expansion_of(p, m, q, n, copies, block, base),
{
    let ys = p[block].1;
    let zs = behind(p, block);
    let h = p.take(block);
    let none = Prefix::empty();
    let inner = with_block(QuantTy::Exists, zs, none);
    let two = with_block(QuantTy::Forall, ys, inner);
    let one = with_block(QuantTy::Exists, fresh, none);
    assert forall|x: Var| #[trigger] ys.contains(x) implies x.id() < base by {
        assert(p[block].1.contains(x));
        assert(bound(p, x));
    }
    assert forall|x: Var| #[trigger] zs.contains(x) implies x.id() < base by {
        assert(p[block + 1].1.contains(x));
        assert(bound(p, x));
    }
    assert forall|x: Var| ys.contains(x) implies !#[trigger] zs.contains(x) by {
        if zs.contains(x) {
            assert(p[block].1.contains(x));
            assert(p[block + 1].1.contains(x));
        }
    }
    if block + 1 < p.len() {
        assert(p[block + 1].1.no_duplicates());
    }
    assert forall|a: Assignment| #[trigger] qbf(p, m, a) == qbf(q, n, a) by {
        assert forall|b: Assignment| #[trigger] qbf(two, m, b) == qbf(one, n, b) by {
            lemma_expand_blocks(m, n, copies, ys, zs, fresh, base, b);
        }
        lemma_congruence(h, two, m, one, n, a);
        assert(q =~= h + one);
        if block + 1 < p.len() {
            assert(p =~= h + two);
        } else {
            let single = with_block(QuantTy::Forall, ys, none);
            assert(p =~= h + single);
            assert forall|b: Assignment| #[trigger] qbf(single, m, b) == qbf(two, m, b) by {
                lemma_forall_block(ys, none, m, b);
                lemma_forall_block(ys, inner, m, b);
                assert forall|c: Assignment| qbf(none, m, c) == #[trigger] qbf(inner, m, c) by {
                    assert(zs =~= Seq::empty());
                    lemma_empty_block(QuantTy::Exists, none, m, c);
                }
            }
            lemma_congruence(h, single, m, two, m, a);
        }
    }
    assert forall|x: Var| #[trigger] fresh.contains(x) implies x.id() >= base by {
        lemma_fresh_range(copies, ys, zs, base, x);
    }
    assert forall|i: int| 0 <= i < q.len() implies (#[trigger] q[i]).1.no_duplicates() by {
        if i < block {
            assert(q[i] == p[i]);
        } else {
            assert forall|a: int, b: int| 0 <= a < b < fresh.len() implies fresh[a] != fresh[b] by {
                assert(fresh[a].id() == base + a);
                assert(fresh[b].id() == base + b);
            }
        }
    }
    assert forall|i: int, j: int, x: Var|
        0 <= i < j < q.len() && #[trigger] q[i].1.contains(x) implies !#[trigger] q[j].1.contains(x) by {
        assert(q[i] == p[i]);
        assert(p[i].1.contains(x));
        if j < block {
            assert(q[j] == p[j]);
        } else {
            assert(bound(p, x));
        }
    }
    assert forall|x: Var| #[trigger] mentions(n, x) implies bound(q, x) by {
        lemma_expansion_mentions(m, n, copies, ys, zs, base, x);
        if is_fresh(copies, x) {
            assert(q[block].1.contains(x));
        } else {
            assert(bound(p, x));
            let i = choose|i: int| 0 <= i < p.len() && (#[trigger] p[i]).1.contains(x);
            if i == block + 1 {
                assert(zs.contains(x));
            }
            assert(i < block);
            assert(q[i].1.contains(x));
        }
    }
}

/// The first copy whose cube is played.
proof fn lemma_first_copy(copies: Seq<(Vec<Lit>, Vec<(Var, Var)>)>, from: int, universal: Seq<i32>, some: int)
    requires
        0 <= from <= some < copies.len(),
        cube_played(universal, copies[some].0@),
    ensures
        from <= first_copy(copies, from, universal) < copies.len(),
        cube_played(universal, copies[first_copy(copies, from, universal)].0@),
    decreases copies.len() - from,
{
    if !cube_played(universal, copies[from].0@) {
        lemma_first_copy(copies, from + 1, universal, some);
    }
}

/// What taking the values of copies does.
proof fn lemma_take_copies(values: Map<Var, bool>, rename: Seq<(Var, Var)>, zs: Seq<Var>, first: int)
    requires
        rename_ok(rename, zs, first),
        zs.no_duplicates(),
    ensures
        forall|j: int|
            0 <= j < zs.len() && values.contains_key((#[trigger] rename[j]).1) ==> take_copies(values, rename).contains_key(zs[j])
                && take_copies(values, rename)[zs[j]] == values[rename[j].1],
        forall|x: Var|
            !zs.contains(x) ==> (#[trigger] take_copies(values, rename).contains_key(x) <==> values.contains_key(x)) && (
            values.contains_key(x) ==> take_copies(values, rename)[x] == values[x]),
    decreases zs.len(),
{
    if zs.len() > 0 {
        let front = rename.drop_last();
        let zf = zs.drop_last();
        assert(rename_ok(front, zf, first)) by {
            assert forall|j: int| 0 <= j < zf.len() implies (#[trigger] front[j]).0 == zf[j] && front[j].1.id() == first + j by {
                assert(front[j] == rename[j]);
            }
        }
        assert(zf.no_duplicates()) by {
            assert forall|i: int, j: int| 0 <= i < j < zf.len() implies zf[i] != zf[j] by {
                assert(zs[i] != zs[j]);
            }
        }
        lemma_take_copies(values, front, zf, first);
        let last = zs.len() - 1;
        let after = take_copies(values, rename);
        let before = take_copies(values, front);
        assert(rename[last] == rename.last());
        assert forall|j: int| 0 <= j < zs.len() && values.contains_key((#[trigger] rename[j]).1) implies after.contains_key(zs[j])
            && after[zs[j]] == values[rename[j].1] by {
            if j < last {
                assert(front[j] == rename[j]);
                assert(zf[j] == zs[j]);
                assert(zs[j] != zs[last]);
            }
        }
        assert forall|x: Var| !zs.contains(x) implies (#[trigger] after.contains_key(x) <==> values.contains_key(x)) && (
        values.contains_key(x) ==> after[x] == values[x]) by {
            assert(!zf.contains(x)) by {
                if zf.contains(x) {
                    let i = choose|i: int| 0 <= i < zf.len() && zf[i] == x;
                    assert(zs[i] == x);
                }
            }
            assert(zs[last] != x) by {
                assert(zs.contains(zs[last]));
            }
            assert(before.contains_key(x) <==> values.contains_key(x));
        }
    }
}

/// Dropping copies leaves the other variables alone.
proof fn lemma_drop_renamed(values: Map<Var, bool>, rename: Seq<(Var, Var)>, x: Var)
    requires
        forall|j: int| 0 <= j < rename.len() ==> (#[trigger] rename[j]).1 != x,
    ensures
        drop_renamed(values, rename).contains_key(x) == values.contains_key(x),
        values.contains_key(x) ==> drop_renamed(values, rename)[x] == values[x],
    decreases rename.len(),
{
    if rename.len() > 0 {
        let front = rename.drop_last();
        assert forall|j: int| 0 <= j < front.len() implies (#[trigger] front[j]).1 != x by {
            assert(front[j] == rename[j]);
        }
        lemma_drop_renamed(values, front, x);
        assert(rename[rename.len() - 1].1 != x);
    }
}

proof fn lemma_drop_copies(values: Map<Var, bool>, copies: Seq<(Vec<Lit>, Vec<(Var, Var)>)>, x: Var)
    requires
        !is_fresh(copies, x),
    ensures
        drop_copies(values, copies).contains_key(x) == values.contains_key(x),
        values.contains_key(x) ==> drop_copies(values, copies)[x] == values[x],
    decreases copies.len(),
{
    if copies.len() > 0 {
        let front = copies.drop_last();
        let last = copies.len() - 1;
        assert(!is_fresh(front, x)) by {
            if is_fresh(front, x) {
                let (k, j) = choose|k: int, j: int| 0 <= k < front.len() && 0 <= j < front[k].1@.len() && (#[trigger] front[k].1@[j]).1 == x;
                assert(copies[k].1@[j].1 == x);
            }
        }
        lemma_drop_copies(values, front, x);
        let rename = copies.last().1@;
        assert forall|j: int| 0 <= j < rename.len() implies (#[trigger] rename[j]).1 != x by {
            assert(copies[last].1@[j] == rename[j]);
        }
        lemma_drop_renamed(drop_copies(values, front), rename, x);
    }
}

/// A value that is neither of a copy nor of an original stays.
proof fn lemma_kept_value(
    values: Map<Var, bool>,
    rename: Seq<(Var, Var)>,
    zs: Seq<Var>,
    first: int,
    copies: Seq<(Vec<Lit>, Vec<(Var, Var)>)>,
    x: Var,
)
    requires
        rename_ok(rename, zs, first),
        zs.no_duplicates(),
        !zs.contains(x),
        !is_fresh(copies, x),
        values.contains_key(x),
    ensures
        drop_copies(take_copies(values, rename), copies).contains_key(x),
        drop_copies(take_copies(values, rename), copies)[x] == values[x],
{
    lemma_take_copies(values, rename, zs, first);
    assert(take_copies(values, rename).contains_key(x));
    lemma_drop_copies(take_copies(values, rename), copies, x);
}

/// A strategy for the expansion, read back by the copy that the universal
/// player selects.
pub proof fn lemma_plays_expanded(
    copies: Copies,
    rest: Rc<Strategy>,
    p: Prefix,
    m: Matrix,
    q: Prefix,
    n: Matrix,
    block: int,
    base: int,
)
    requires
        prefix_distinct(p),
        closed_formula(p, m),
        0 <= block < p.len() <= block + 2,
        p[block].0 == QuantTy::Forall,
        forall|x: Var| #[trigger] bound(p, x) ==> x.id() < base,
        base <= unlimited(),
        expansion_of(p, m, q, n, copies@, block, base),
        plays(*rest, q, n, unlimited()),
    ensures
        plays(Strategy::Expanded { copies, rest }, p, m, base),
{
    let s = Strategy::Expanded { copies, rest };
    let ys = p[block].1;
    let zs = behind(p, block);
    if block + 1 < p.len() {
        assert(p[block + 1].1.no_duplicates());
    }
    assert forall|x: Var| #[trigger] zs.contains(x) implies bound(p, x) by {
        assert(p[block + 1].1.contains(x));
    }
    lemma_expanded_shaped(copies, rest, p, m, q, n, block, base);
    assert forall|universal: Seq<i32>, values: Map<Var, bool>|
        #![trigger s.values(universal, values)]
        covers(universal, p) && outside(values, p, m, base) implies keeps(
        values,
        s.values(universal, values),
    ) && wins_at(s.values(universal, values), universal, p, m) by {
        lemma_expanded_at(copies, rest, p, m, q, n, block, base, universal, values);
    }
}

proof fn lemma_expanded_shaped(copies: Copies, rest: Rc<Strategy>, p: Prefix, m: Matrix, q: Prefix, n: Matrix, block: int, base: int)
    requires
        prefix_distinct(p),
        0 <= block < p.len() <= block + 2,
        p[block].0 == QuantTy::Forall,
        behind(p, block).no_duplicates(),
        forall|x: Var| #[trigger] behind(p, block).contains(x) ==> bound(p, x),
        forall|x: Var| #[trigger] bound(p, x) ==> x.id() < base,
        base <= unlimited(),
        expansion_of(p, m, q, n, copies@, block, base),
        shaped(*rest, q, n, unlimited()),
    ensures
        shaped(Strategy::Expanded { copies, rest }, p, m, base),
{
    let s = Strategy::Expanded { copies, rest };
    let ys = p[block].1;
    let zs = behind(p, block);
    let all = universal_set(p);
    assert forall|x: Var| #[trigger] bound(q, x) implies (bound(p, x) && !zs.contains(x)) || x.id() >= base by {
        let i = choose|i: int| 0 <= i < q.len() && (#[trigger] q[i]).1.contains(x);
        if i < block {
            assert(q[i] == p[i]);
            assert(p[i].1.contains(x));
            if zs.contains(x) {
                assert(p[block + 1].1.contains(x));
            }
        } else {
            lemma_fresh_range(copies@, ys, zs, base, x);
        }
    }
    assert forall|x: Var| #[trigger] concerned(q, n, unlimited(), x) implies concerned(p, m, base, x) && !(zs.contains(x)) by {
        if mentions(n, x) {
            assert(bound(q, x));
        }
    }
    assert forall|x: Var| #[trigger] universal_set(q).contains(x) implies all.contains(x) by {
        let i = choose|i: int| 0 <= i < q.len() && (#[trigger] q[i]).0 == QuantTy::Forall && q[i].1.contains(x);
        assert(i < block);
        assert(p[i].0 == QuantTy::Forall && p[i].1.contains(x));
    }
    lemma_steady_more(&*rest, universal_set(q), all);
    assert forall|k: int| 0 <= k < copies@.len() implies reads_only((#[trigger] copies@[k]).0@, all) && renames_once(copies@[k].1@) by {
        let cube = copies@[k].0@;
        assert(cube_over(cube, ys));
        assert(rename_ok(copies@[k].1@, zs, base + k * zs.len()));
        assert forall|i: int| 0 <= i < cube.len() implies all.contains((#[trigger] cube[i]).v()) by {
            assert(ys.contains(ys[i]));
            assert(p[block].0 == QuantTy::Forall && p[block].1.contains(cube[i].v()));
        }
    }
    assert forall|x: Var| #[trigger] is_original(copies@, x) implies zs.contains(x) by {
        let (k, j) = choose|k: int, j: int| 0 <= k < copies@.len() && 0 <= j < copies@[k].1@.len() && (#[trigger] copies@[k].1@[j]).0 == x;
        assert(rename_ok(copies@[k].1@, zs, base + k * zs.len()));
        assert(zs.contains(zs[j]));
    }
    assert forall|x: Var| #[trigger] copies_read(copies@, x) implies bound(p, x) by {
        let k = choose|k: int| 0 <= k < copies@.len() && clause_mentions((#[trigger] copies@[k]).0@, x);
        assert(cube_over(copies@[k].0@, ys));
        let i = choose|i: int| 0 <= i < copies@[k].0@.len() && (#[trigger] copies@[k].0@[i]).v() == x;
        assert(ys.contains(ys[i]));
        assert(p[block].1.contains(x));
    }
    assert forall|x: Var| #[trigger] is_original(copies@, x) implies !rest.names(x) by {
        if rest.names(x) {
            assert(concerned(q, n, unlimited(), x));
        }
    }
    assert forall|x: Var| #[trigger] s.names(x) implies concerned(p, m, base, x) by {
        if rest.names(x) {
            assert(concerned(q, n, unlimited(), x));
        }
    }
    assert forall|x: Var| #[trigger] s.pivotal(x) implies concerned(p, m, base, x) by {
        if rest.pivotal(x) {
            assert(concerned(q, n, unlimited(), x));
        }
    }
}

/// The values of a shared strategy.
spec fn shared_values(rest: Rc<Strategy>, universal: Seq<i32>, values: Map<Var, bool>) -> Map<Var, bool> {
    rest.values(universal, values)
}

proof fn lemma_expanded_at(
    copies: Copies,
    rest: Rc<Strategy>,
    p: Prefix,
    m: Matrix,
    q: Prefix,
    n: Matrix,
    block: int,
    base: int,
    universal: Seq<i32>,
    values: Map<Var, bool>,
)
    requires
        prefix_distinct(p),
        closed_formula(p, m),
        0 <= block < p.len() <= block + 2,
        p[block].0 == QuantTy::Forall,
        behind(p, block).no_duplicates(),
        forall|x: Var| #[trigger] behind(p, block).contains(x) ==> bound(p, x),
        forall|x: Var| #[trigger] bound(p, x) ==> x.id() < base,
        base <= unlimited(),
        expansion_of(p, m, q, n, copies@, block, base),
        plays(*rest, q, n, unlimited()),
        covers(universal, p),
        outside(values, p, m, base),
    ensures
        keeps(values, (Strategy::Expanded { copies, rest }).values(universal, values)),
        wins_at((Strategy::Expanded { copies, rest }).values(universal, values), universal, p, m),
{
    let s = Strategy::Expanded { copies, rest };
    let ys = p[block].1;
    let zs = behind(p, block);
    let inner = shared_values(rest, universal, values);
    let last = s.values(universal, values);
    // the values so far do not concern the expansion
    assert forall|x: Var| #[trigger] bound(q, x) implies bound(p, x) || is_fresh(copies@, x) by {
        let i = choose|i: int| 0 <= i < q.len() && (#[trigger] q[i]).1.contains(x);
        if i < block {
            assert(q[i] == p[i]);
        }
    }
    assert forall|x: Var| #[trigger] values.contains_key(x) implies !bound(q, x) && !mentions(n, x) && x.id() < unlimited() && !is_fresh(copies@, x) by {
        if is_fresh(copies@, x) {
            lemma_fresh_range(copies@, ys, zs, base, x);
        }
        if mentions(n, x) {
            lemma_expansion_mentions(m, n, copies@, ys, zs, base, x);
        }
    }
    assert(outside(values, q, n, unlimited()));
    assert forall|x: Var| #[trigger] bound_by(q, QuantTy::Forall, x) implies bound_by(p, QuantTy::Forall, x) by {
        let i = choose|i: int| 0 <= i < q.len() && (#[trigger] q[i]).0 == QuantTy::Forall && q[i].1.contains(x);
        assert(i < block);
        assert(p[i].0 == QuantTy::Forall && p[i].1.contains(x));
    }
    lemma_covers_part(universal, p, q);
    assert(keeps(values, inner) && wins_at(inner, universal, q, n));
    // the copy that is selected
    let played_as = |x: Var| played(universal, x.dimacs());
    assert(some_copy(copies@, played_as));
    let some = choose|k: int| 0 <= k < copies@.len() && cube_true(played_as, (#[trigger] copies@[k]).0@);
    assert(cube_over(copies@[some].0@, ys));
    assert forall|i: int| 0 <= i < copies@[some].0@.len() implies played(universal, (#[trigger] copies@[some].0@[i]).dimacs()) by {
        let l = copies@[some].0@[i];
        let x = l.v();
        assert(ys.contains(ys[i]));
        assert(p[block].0 == QuantTy::Forall && p[block].1.contains(x));
        assert(bound_by(p, QuantTy::Forall, x));
        assert(lit_true(played_as, l));
    }
    lemma_first_copy(copies@, 0, universal, some);
    let k = first_copy(copies@, 0, universal);
    let rename = copies@[k].1@;
    let first = base + k * zs.len();
    assert(rename_ok(copies@[k].1@, zs, base + k * zs.len()));
    assert(cube_over(copies@[k].0@, ys));
    let taken = take_copies(inner, rename);
    assert(last == drop_copies(taken, copies@));
    lemma_take_copies(inner, rename, zs, first);
    assert forall|x: Var| #[trigger] values.contains_key(x) implies last.contains_key(x) && last[x] == values[x] by {
        assert(inner.contains_key(x) && inner[x] == values[x]);
        assert(!zs.contains(x));
        assert(taken.contains_key(x) && taken[x] == inner[x]);
        lemma_drop_copies(taken, copies@, x);
    }
    assert forall|a: Assignment| #[trigger] follows_on(a, universal, p) && agrees(a, last) implies matrix_true(a, m) by {
        let b = |x: Var|
            if inner.contains_key(x) {
                inner[x]
            } else if exists|j: int| 0 <= j < rename.len() && (#[trigger] rename[j]).1 == x {
                a(zs[choose|j: int| 0 <= j < rename.len() && (#[trigger] rename[j]).1 == x])
            } else {
                a(x)
            };
        assert(agrees(b, inner));
        // outside the copies and the originals both read the same
        assert forall|x: Var| x.id() < base && !zs.contains(x) implies #[trigger] b(x) == a(x) by {
            assert(!is_fresh(copies@, x)) by {
                if is_fresh(copies@, x) {
                    lemma_fresh_range(copies@, ys, zs, base, x);
                }
            }
            if inner.contains_key(x) {
                lemma_kept_value(inner, rename, zs, first, copies@, x);
                assert(last.contains_key(x));
            } else {
                if exists|j: int| 0 <= j < rename.len() && (#[trigger] rename[j]).1 == x {
                    let j = choose|j: int| 0 <= j < rename.len() && (#[trigger] rename[j]).1 == x;
                    assert(copies@[k].1@[j].1 == x);
                    assert(is_fresh(copies@, x));
                }
            }
        }
        assert forall|x: Var| bound_by(q, QuantTy::Forall, x) implies #[trigger] b(x) == played(universal, x.dimacs()) by {
            assert(bound_by(p, QuantTy::Forall, x));
            lemma_bound_by(p, QuantTy::Forall, x);
            let i = choose|i: int| 0 <= i < q.len() && (#[trigger] q[i]).0 == QuantTy::Forall && q[i].1.contains(x);
            assert(i < block);
            assert(p[i].1.contains(x));
            if zs.contains(x) {
                assert(p[block + 1].1.contains(x));
            }
            assert(a(x) == played(universal, x.dimacs()));
        }
        assert(follows_on(b, universal, q));
        assert(matrix_true(b, n));
        // each original takes the value of its copy
        assert forall|x: Var| #[trigger] zs.contains(x) implies a(x) == b(renamed(rename, x)) by {
            lemma_renamed(rename, zs, first, x);
            let t = zs.index_of(x);
            let f = renamed(rename, x);
            assert(rename[t].1 == f);
            if inner.contains_key(f) {
                assert(inner.contains_key(rename[t].1));
                assert(taken.contains_key(zs[t]) && taken[zs[t]] == inner[f]);
                assert(!is_fresh(copies@, x)) by {
                    if is_fresh(copies@, x) {
                        lemma_fresh_range(copies@, ys, zs, base, x);
                    }
                }
                lemma_drop_copies(taken, copies@, x);
                assert(last.contains_key(x));
            } else {
                let j = choose|j: int| 0 <= j < rename.len() && (#[trigger] rename[j]).1 == f;
                assert(rename[j].1.id() == first + j);
                assert(rename[t].1.id() == first + t);
            }
        }
        let cube = copies@[k].0@;
        assert forall|i: int| 0 <= i < cube.len() implies lit_true(a, #[trigger] cube[i]) by {
            assert(played(universal, cube[i].dimacs()));
            let x = cube[i].v();
            assert(ys.contains(ys[i]));
            assert(p[block].0 == QuantTy::Forall && p[block].1.contains(x));
            assert(bound_by(p, QuantTy::Forall, x));
            assert(a(x) == played(universal, x.dimacs()));
        }
        assert forall|x: Var| #[trigger] mentions(m, x) && !ys.contains(x) && !zs.contains(x) implies a(x) == b(x) by {
            assert(bound(p, x));
        }
        lemma_project(m, n, copies@, ys, zs, base, k, b, a);
    }
}

} // verus!
