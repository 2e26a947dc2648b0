//! What the candidate loops for deep prefixes can be sure to decide.
//!
//! A loop over the outermost block excludes one candidate per round, so it
//! has an answer after as many rounds as the block has assignments. The
//! blocks that loops run over are those in front of the last two.
use crate::compose::restricts;
use crate::expand::{lemma_two_to_mono, two_to};
use crate::incdet::in_range;
use crate::literal::{Lit, Var};
use crate::normal::{free_list, lemma_merged_bound, merged, push_block};
use crate::quantifier::QuantTy;
use crate::semantics::{bound, bound_by, cube_true, lemma_bound_first, matrix_true, mentions, qbf, with_block, Assignment, Matrix, Prefix};
use crate::simplify::{simplifies, size_of, sub_blocks};
use vstd::prelude::*;
use vstd::set_lib::{lemma_int_range, lemma_len_subset, set_int_range};

verus! {

/// Number of candidates after which a loop gives up.
pub const MAX_ROUNDS: u32 = 4096;

/// Number of literals in the abstraction after which a loop gives up.
pub const MAX_LITERALS: usize = 8_000_000;

/// Bounds on a formula: its existential and universal variables in front of
/// the last two blocks, all its variables, its clauses and literals, and an
/// index above all variables.
pub ghost struct Bounds {
    pub choices: Set<Var>,
    pub moves: Set<Var>,
    pub vars: Set<Var>,
    pub size: nat,
    pub top: int,
}

/// A block of the quantifier binds the variable, with as many blocks behind
/// it.
pub open spec fn ahead(p: Prefix, n: int, q: QuantTy, x: Var) -> bool {
    exists|i: int| 0 <= i < p.len() - n && (#[trigger] p[i]).0 == q && p[i].1.contains(x)
}

/// A block of the quantifier in front of the last two binds the variable.
pub open spec fn in_front(p: Prefix, q: QuantTy, x: Var) -> bool {
    ahead(p, 2, q, x)
}

/// The bounds are within what the loops can exhaust: the rounds, the
/// literals of the abstraction and the numbering of the back end.
pub open spec fn exhaustible(b: Bounds) -> bool {
    let copies = two_to(b.choices.len()) + 1;
    &&& b.choices.finite() && b.moves.finite() && b.vars.finite()
    &&& 0 <= b.top
    &&& two_to(b.choices.len()) < MAX_ROUNDS
    &&& two_to(b.moves.len()) < MAX_ROUNDS
    &&& copies * b.size <= MAX_LITERALS
    &&& b.top + copies * b.vars.len() <= crate::sat::MAX_NUMBER
    &&& b.top + 256 * b.vars.len() <= crate::sat::MAX_NUMBER
}

/// The formula is within bounds that the loops can exhaust.
pub open spec fn fits(p: Prefix, m: Matrix, b: Bounds) -> bool {
    &&& exhaustible(b)
    &&& forall|x: Var| #[trigger] in_front(p, QuantTy::Exists, x) ==> b.choices.contains(x)
    &&& forall|x: Var| #[trigger] in_front(p, QuantTy::Forall, x) ==> b.moves.contains(x)
    &&& forall|x: Var| #[trigger] mentions(m, x) && !bound(p, x) ==> b.choices.contains(x)
    &&& forall|x: Var| #[trigger] bound(p, x) ==> b.vars.contains(x)
    &&& forall|x: Var| #[trigger] mentions(m, x) ==> b.vars.contains(x)
    &&& forall|x: Var| #[trigger] b.vars.contains(x) ==> x.id() < b.top
    &&& size_of(m) <= b.size
}

/// The universal variables are few enough to be enumerated within a budget
/// of clauses and copies.
pub open spec fn enumerable(p: Prefix, m: Matrix, budget: int, b: Bounds) -> bool {
    let copies = two_to(b.moves.len());
    &&& b.moves.finite() && b.vars.finite()
    &&& 0 <= b.top
    &&& b.moves.len() <= 8
    &&& budget > 0
    &&& copies * b.size <= budget
    &&& copies * b.vars.len() <= budget
    &&& b.top + copies * b.vars.len() <= crate::sat::MAX_NUMBER
    &&& forall|x: Var| #[trigger] bound_by(p, QuantTy::Forall, x) ==> b.moves.contains(x)
    &&& forall|x: Var| #[trigger] bound(p, x) ==> b.vars.contains(x)
    &&& forall|x: Var| #[trigger] mentions(m, x) ==> b.vars.contains(x)
    &&& forall|x: Var| #[trigger] b.vars.contains(x) ==> x.id() < b.top
    &&& size_of(m) <= b.size
}

/// Merging blocks moves no variable further to the front.
pub proof fn lemma_merged_ahead(p: Prefix, n: int, q: QuantTy, x: Var)
    requires
        0 <= n,
        ahead(merged(p), n, q, x),
    ensures
        ahead(p, n, q, x),
    decreases p.len(),
{
    if p.len() > 0 {
        let h = p.drop_last();
        let b = p.last();
        let mh = merged(h);
        let mp = merged(p);
        assert(mp == push_block(mh, b.0, b.1));
        let i = choose|i: int| 0 <= i < mp.len() - n && (#[trigger] mp[i]).0 == q && mp[i].1.contains(x);
        if b.1.len() == 0 {
            assert(ahead(mh, n, q, x));
            lemma_merged_ahead(h, n, q, x);
            lemma_ahead_push(p, n, q, x);
        } else if mh.len() > 0 && mh.last().0 == b.0 {
            if i < mh.len() - 1 {
                assert(mp[i] == mh[i]);
                assert(ahead(mh, n, q, x));
                lemma_merged_ahead(h, n, q, x);
                lemma_ahead_push(p, n, q, x);
            } else {
                assert(n == 0);
                let first = mh.last().1;
                assert(mp[i] == (b.0, first + b.1));
                let j = choose|j: int| 0 <= j < (first + b.1).len() && (first + b.1)[j] == x;
                if j < first.len() {
                    assert(first[j] == x);
                    assert(mh[mh.len() - 1].1.contains(x));
                    assert(ahead(mh, n, q, x));
                    lemma_merged_ahead(h, n, q, x);
                    lemma_ahead_push(p, n, q, x);
                } else {
                    assert(b.1[j - first.len()] == x);
                    assert(p[p.len() - 1].1.contains(x));
                }
            }
        } else {
            if i < mh.len() {
                assert(mp[i] == mh[i]);
                if n == 0 {
                    assert(ahead(mh, 0, q, x));
                    lemma_merged_ahead(h, 0, q, x);
                    lemma_ahead_push(p, 0, q, x);
                } else {
                    assert(ahead(mh, n - 1, q, x));
                    lemma_merged_ahead(h, n - 1, q, x);
                    let k = choose|k: int| 0 <= k < h.len() - (n - 1) && (#[trigger] h[k]).0 == q && h[k].1.contains(x);
                    assert(p[k] == h[k]);
                }
            } else {
                assert(n == 0);
                assert(p[p.len() - 1] == b);
                assert(mp[i] == b);
            }
        }
    }
}

proof fn lemma_ahead_push(p: Prefix, n: int, q: QuantTy, x: Var)
    requires
        0 <= n,
        p.len() > 0,
        ahead(p.drop_last(), n, q, x),
    ensures
        ahead(p, n, q, x),
{
    let h = p.drop_last();
    let k = choose|k: int| 0 <= k < h.len() - n && (#[trigger] h[k]).0 == q && h[k].1.contains(x);
    assert(p[k] == h[k]);
}

/// What fits does so in normal form.
pub proof fn lemma_fits_normal(p: Prefix, s: Prefix, m: Matrix, free: Seq<Var>, b: Bounds)
    requires
        fits(p, m, b),
        s == merged(with_block(QuantTy::Exists, free, p)),
        forall|x: Var| #[trigger] free.contains(x) <==> mentions(m, x) && !bound(p, x),
        forall|x: Var| #[trigger] bound(s, x) <==> bound(p, x) || mentions(m, x),
    ensures
        fits(s, m, b),
{
    let closed = with_block(QuantTy::Exists, free, p);
    assert forall|q: QuantTy, x: Var| #[trigger] in_front(s, q, x) implies in_front(p, q, x) || (q == QuantTy::Exists && free.contains(x)) by {
        lemma_merged_ahead(closed, 2, q, x);
        let i = choose|i: int| 0 <= i < closed.len() - 2 && (#[trigger] closed[i]).0 == q && closed[i].1.contains(x);
        if i > 0 {
            assert(closed[i] == p[i - 1]);
        } else {
            assert(closed[0] == (QuantTy::Exists, free));
        }
    }
    assert forall|x: Var| #[trigger] in_front(s, QuantTy::Exists, x) implies b.choices.contains(x) by {
        if !in_front(p, QuantTy::Exists, x) {
            assert(free.contains(x));
        }
    }
}

/// What fits does so with fewer variables and clauses.
pub proof fn lemma_fits_sub(p: Prefix, m: Matrix, r: Prefix, n: Matrix, b: Bounds)
    requires
        fits(p, m, b),
        sub_blocks(p, r),
        size_of(n) <= size_of(m),
        forall|x: Var| #[trigger] mentions(n, x) ==> mentions(m, x) && bound(r, x),
    ensures
        fits(r, n, b),
{
    assert forall|q: QuantTy, x: Var| #[trigger] in_front(r, q, x) implies in_front(p, q, x) by {
        let i = choose|i: int| 0 <= i < r.len() - 2 && (#[trigger] r[i]).0 == q && r[i].1.contains(x);
        assert(p[i].0 == q && p[i].1.contains(x));
    }
    assert forall|x: Var| #[trigger] bound(r, x) implies b.vars.contains(x) by {
        let i = choose|i: int| 0 <= i < r.len() && (#[trigger] r[i]).1.contains(x);
        assert(p[i].1.contains(x));
        assert(bound(p, x));
    }
}

/// What fits does so behind the outermost block.
pub proof fn lemma_fits_rest(p: Prefix, m: Matrix, n: Matrix, b: Bounds)
    requires
        p.len() > 0,
        fits(p, m, b),
        size_of(n) <= size_of(m),
        forall|x: Var| #[trigger] mentions(n, x) ==> mentions(m, x) && bound(p.drop_first(), x),
    ensures
        fits(p.drop_first(), n, b),
{
    let r = p.drop_first();
    assert forall|q: QuantTy, x: Var| #[trigger] in_front(r, q, x) implies in_front(p, q, x) by {
        let i = choose|i: int| 0 <= i < r.len() - 2 && (#[trigger] r[i]).0 == q && r[i].1.contains(x);
        assert(p[i + 1] == r[i]);
    }
    assert forall|x: Var| #[trigger] bound(r, x) implies b.vars.contains(x) by {
        let i = choose|i: int| 0 <= i < r.len() && (#[trigger] r[i]).1.contains(x);
        assert(p[i + 1] == r[i]);
        assert(bound(p, x));
    }
}

/// Distinct elements of a set are no more than it has.
pub proof fn lemma_distinct_len<T>(s: Seq<T>, set: Set<T>)
    requires
        s.no_duplicates(),
        set.finite(),
        forall|i: int| 0 <= i < s.len() ==> set.contains(#[trigger] s[i]),
    ensures
        s.len() <= set.len(),
{
    s.unique_seq_to_set();
    assert(s.to_set().subset_of(set)) by {
        assert forall|x: T| #[trigger] s.to_set().contains(x) implies set.contains(x) by {
            let i = choose|i: int| 0 <= i < s.len() && s[i] == x;
            assert(set.contains(s[i]));
        }
    }
    lemma_len_subset(s.to_set(), set);
}

/// The values of variables.
pub open spec fn signs(a: Assignment, vars: Seq<Var>) -> Seq<bool> {
    Seq::new(vars.len(), |i: int| a(vars[i]))
}

/// The number that bits stand for.
spec fn code(bits: Seq<bool>) -> int
    decreases bits.len(),
{
    if bits.len() == 0 {
        0
    } else {
        2 * code(bits.drop_last()) + if bits.last() {
            1int
        } else {
            0int
        }
    }
}

proof fn lemma_code(bits: Seq<bool>)
    ensures
        0 <= code(bits) < two_to(bits.len()),
    decreases bits.len(),
{
    if bits.len() > 0 {
        lemma_code(bits.drop_last());
    }
}

proof fn lemma_code_injective(left: Seq<bool>, right: Seq<bool>)
    requires
        left.len() == right.len(),
        code(left) == code(right),
    ensures
        left == right,
    decreases left.len(),
{
    if left.len() > 0 {
        lemma_code_injective(left.drop_last(), right.drop_last());
        assert(left =~= left.drop_last().push(left.last()));
        assert(right =~= right.drop_last().push(right.last()));
    } else {
        assert(left =~= right);
    }
}

/// The bounds hold all variables, clauses and literals of the formula.
pub open spec fn held(p: Prefix, m: Matrix, b: Bounds) -> bool {
    &&& b.vars.finite()
    &&& 0 <= b.top
    &&& forall|x: Var| #[trigger] bound(p, x) ==> b.vars.contains(x)
    &&& forall|x: Var| #[trigger] mentions(m, x) ==> b.vars.contains(x)
    &&& forall|x: Var| #[trigger] b.vars.contains(x) ==> x.id() < b.top
    &&& size_of(m) <= b.size
}

/// As many copies of the matrix are more than a loop may add or the back
/// end can number.
pub open spec fn overrun(p: Prefix, m: Matrix, copies: int) -> bool {
    forall|b: Bounds| #[trigger]
        held(p, m, b) ==> copies * b.size > MAX_LITERALS || b.top + copies * b.vars.len() > crate::sat::MAX_NUMBER
}

/// The player of the outermost block loses with the values for it,
/// whatever is played behind it.
pub open spec fn loses(p: Prefix, m: Matrix, values: Seq<bool>) -> bool {
    forall|a: Assignment|
        #![trigger signs(a, p[0].1)]
        signs(a, p[0].1) == values ==> qbf(p.drop_first(), m, a) == (p[0].0 == QuantTy::Forall)
}

/// The clauses can be satisfied with the values for the outermost block.
pub open spec fn possible(p: Prefix, m: Matrix, values: Seq<bool>) -> bool {
    exists|a: Assignment| #[trigger] matrix_true(a, m) && signs(a, p[0].1) == values
}

/// Different candidates for the outermost block, each of them refuted; the
/// existential ones were not ruled out by the clauses alone.
pub open spec fn tried_out(p: Prefix, m: Matrix, tried: Seq<Seq<bool>>) -> bool {
    &&& tried.no_duplicates()
    &&& forall|i: int|
        0 <= i < tried.len() ==> (#[trigger] tried[i]).len() == p[0].1.len() && loses(p, m, tried[i]) && (p[0].0 == QuantTy::Exists
            ==> possible(p, m, tried[i]))
}

/// The clauses can be satisfied with the values for the outermost block and
/// the move.
pub open spec fn answers(p: Prefix, m: Matrix, values: Seq<bool>, play: Seq<Lit>) -> bool {
    exists|a: Assignment| #[trigger] matrix_true(a, m) && signs(a, p[0].1) == values && cube_true(a, play)
}

/// The blocks are an existential one, a universal one and an existential
/// one, none of them empty.
pub open spec fn three_blocks(p: Prefix) -> bool {
    &&& p.len() == 3
    &&& p[0].0 == QuantTy::Exists
    &&& p[1].0 == QuantTy::Forall
    &&& p[2].0 == QuantTy::Exists
    &&& forall|i: int| 0 <= i < p.len() ==> (#[trigger] p[i]).1.len() > 0
}

/// What the candidates of an existential block taught: every candidate can
/// answer the moves that refuted those before it. Of three blocks, every
/// candidate was refuted by a move that it cannot answer.
pub open spec fn learnt(p: Prefix, m: Matrix, tried: Seq<Seq<bool>>, moves: Seq<Option<Seq<Lit>>>) -> bool {
    &&& moves.len() == tried.len()
    &&& forall|i: int, j: int|
        0 <= j < i < tried.len() && (#[trigger] moves[j]) is Some ==> answers(p, m, #[trigger] tried[i], moves[j]->0)
    &&& three_blocks(p) ==> forall|j: int| 0 <= j < tried.len() ==> (#[trigger] moves[j]) is Some && !answers(p, m, tried[j], moves[j]->0)
}

/// What there is to try for a formula was tried: the back end cannot number
/// a formula of at most two blocks; or as many candidates for the outermost
/// block as there are rounds are refuted, or so many that the copies for
/// them and one more are beyond the limits.
pub open spec fn exhausted(p: Prefix, m: Matrix) -> bool {
    if p.len() <= 2 {
        !in_range(p, m)
    } else {
        exists|tried: Seq<Seq<bool>>| #[trigger]
            tried_out(p, m, tried) && (tried.len() >= MAX_ROUNDS || overrun(p, m, tried.len() as int + 1)) && (p[0].0 == QuantTy::Exists
                ==> exists|moves: Seq<Option<Seq<Lit>>>| #[trigger] learnt(p, m, tried, moves))
    }
}

/// The blocks are those of the formula with its free variables outermost,
/// in normal form.
pub open spec fn normal_of(p: Prefix, m: Matrix, s: Prefix) -> bool {
    exists|free: Seq<Var>| #[trigger] free_list(p, m, free) && s == merged(with_block(QuantTy::Exists, free, p))
}

/// The second formula is the first one in normal form.
pub open spec fn arranged(p: Prefix, m: Matrix, s: Prefix, n: Matrix) -> bool {
    n == m && normal_of(p, m, s)
}

/// The second formula is the first one simplified, in normal form.
pub open spec fn shortened(p: Prefix, m: Matrix, s: Prefix, n: Matrix) -> bool {
    exists|r: Prefix, fixed: Seq<Lit>| #[trigger]
        simplifies(p, m, r, n, fixed) && sub_blocks(p, r) && size_of(n) <= size_of(m) && normal_of(r, n, s)
}

/// The cube gives every variable of the outermost block a value.
pub open spec fn settles(p: Prefix, cube: Seq<Lit>) -> bool {
    &&& cube.len() == p[0].1.len()
    &&& forall|i: int| 0 <= i < cube.len() ==> (#[trigger] cube[i]).v() == p[0].1[i]
}

/// The second formula is what remains of the first one under values for its
/// outermost block, in normal form; values for an existential block leave
/// the clauses satisfiable.
pub open spec fn entered(p: Prefix, m: Matrix, s: Prefix, n: Matrix) -> bool {
    p.len() > 2 && exists|cube: Seq<Lit>| #[trigger]
        restricts(m, n, cube) && settles(p, cube) && size_of(n) <= size_of(m) && normal_of(p.drop_first(), n, s) && (p[0].0
            == QuantTy::Exists ==> exists|a: Assignment| #[trigger] matrix_true(a, m) && cube_true(a, cube))
}

/// A step of the recursion.
pub open spec fn step(p: Prefix, m: Matrix, s: Prefix, n: Matrix) -> bool {
    arranged(p, m, s, n) || shortened(p, m, s, n) || entered(p, m, s, n)
}

/// After at most as many steps there is a formula for which everything was
/// tried.
pub open spec fn stuck(p: Prefix, m: Matrix, steps: nat) -> bool
    decreases steps,
{
    exhausted(p, m) || (steps > 0 && exists|s: Prefix, n: Matrix| #[trigger] step(p, m, s, n) && stuck(s, n, (steps - 1) as nat))
}

/// The recursion comes to a formula for which everything was tried.
pub open spec fn gave_up(p: Prefix, m: Matrix) -> bool {
    exists|steps: nat| #[trigger] stuck(p, m, steps)
}

pub proof fn lemma_exhausted(p: Prefix, m: Matrix)
    requires
        exhausted(p, m),
    ensures
        gave_up(p, m),
{
    assert(stuck(p, m, 0));
}

pub proof fn lemma_step(p: Prefix, m: Matrix, s: Prefix, n: Matrix)
    requires
        step(p, m, s, n),
        gave_up(s, n),
    ensures
        gave_up(p, m),
{
    let steps = choose|steps: nat| #[trigger] stuck(s, n, steps);
    assert(stuck(p, m, steps + 1));
}

/// A formula of the recursion, at most as many steps on.
pub open spec fn reached(p: Prefix, m: Matrix, s: Prefix, n: Matrix, steps: nat) -> bool
    decreases steps,
{
    (s == p && n == m) || (steps > 0 && exists|q: Prefix, e: Matrix| #[trigger] step(p, m, q, e) && reached(q, e, s, n, (steps - 1) as nat))
}

/// There is room for a copy of the matrix in each of 4096 rounds, and for
/// one more.
pub open spec fn roomy(b: Bounds) -> bool {
    4097 * b.size <= 8_000_000 && b.top + 4097 * b.vars.len() <= crate::sat::MAX_NUMBER
}

proof fn lemma_normal_held(p: Prefix, m: Matrix, s: Prefix, b: Bounds)
    requires
        normal_of(p, m, s),
        held(p, m, b),
    ensures
        held(s, m, b),
{
    let free = choose|free: Seq<Var>| #[trigger] free_list(p, m, free) && s == merged(with_block(QuantTy::Exists, free, p));
    let closed = with_block(QuantTy::Exists, free, p);
    assert forall|x: Var| #[trigger] bound(s, x) implies b.vars.contains(x) by {
        lemma_merged_bound(closed, x);
        lemma_bound_first(closed, x);
        assert(closed.drop_first() =~= p);
        if closed[0].1.contains(x) {
            assert(free.contains(x));
        }
    }
}

proof fn lemma_step_held(p: Prefix, m: Matrix, s: Prefix, n: Matrix, b: Bounds)
    requires
        step(p, m, s, n),
        held(p, m, b),
    ensures
        held(s, n, b),
{
    if arranged(p, m, s, n) {
        lemma_normal_held(p, m, s, b);
    } else if shortened(p, m, s, n) {
        let (r, fixed) = choose|r: Prefix, fixed: Seq<Lit>| #[trigger]
            simplifies(p, m, r, n, fixed) && sub_blocks(p, r) && size_of(n) <= size_of(m) && normal_of(r, n, s);
        assert forall|x: Var| #[trigger] bound(r, x) implies b.vars.contains(x) by {
            assert(mentions(n, x));
        }
        lemma_normal_held(r, n, s, b);
    } else {
        let cube = choose|cube: Seq<Lit>| #[trigger]
            restricts(m, n, cube) && settles(p, cube) && size_of(n) <= size_of(m) && normal_of(p.drop_first(), n, s) && (p[0].0
                == QuantTy::Exists ==> exists|a: Assignment| #[trigger] matrix_true(a, m) && cube_true(a, cube));
        assert forall|x: Var| #[trigger] bound(p.drop_first(), x) implies b.vars.contains(x) by {
            lemma_bound_first(p, x);
        }
        lemma_normal_held(p.drop_first(), n, s, b);
    }
}

proof fn lemma_stuck_reached(p: Prefix, m: Matrix, b: Bounds, steps: nat) -> (found: (Prefix, Matrix))
    requires
        stuck(p, m, steps),
        held(p, m, b),
    ensures
        reached(p, m, found.0, found.1, steps),
        held(found.0, found.1, b),
        exhausted(found.0, found.1),
    decreases steps,
{
    if exhausted(p, m) {
        (p, m)
    } else {
        let (s, n) = choose|s: Prefix, n: Matrix| #[trigger] step(p, m, s, n) && stuck(s, n, (steps - 1) as nat);
        lemma_step_held(p, m, s, n, b);
        lemma_stuck_reached(s, n, b, (steps - 1) as nat)
    }
}

/// A loop gives up only where it has refuted a candidate in every one of
/// 4096 rounds. Where there is room for the copies, a formula that is left
/// undecided leads to one of more than two blocks with that many different
/// candidates for its outermost block, all of which lose; so that block has
/// at least that many assignments. Existential candidates answer the moves
/// that refuted those before them.
pub proof fn law_undecided_formulas_have_many_losing_candidates(p: Prefix, m: Matrix, b: Bounds)
    requires
        gave_up(p, m),
        held(p, m, b),
        roomy(b),
    ensures
        exists|s: Prefix, n: Matrix, steps: nat, tried: Seq<Seq<bool>>| #[trigger]
            reached(p, m, s, n, steps) && #[trigger] tried_out(s, n, tried) && s.len() > 2 && tried.len() >= 4096 && two_to(s[0].1.len())
                >= 4096 && (s[0].0 == QuantTy::Exists ==> exists|moves: Seq<Option<Seq<Lit>>>| #[trigger] learnt(s, n, tried, moves)),
{
    let steps = choose|steps: nat| #[trigger] stuck(p, m, steps);
    let (s, n) = lemma_stuck_reached(p, m, b, steps);
    assert((MAX_ROUNDS + 1) * b.vars.len() >= 0) by (nonlinear_arith);
    if s.len() <= 2 {
        assert forall|i: int| 0 <= i < n.len() implies crate::sat::lits_ok(#[trigger] n[i]) by {
            assert forall|j: int| 0 <= j < n[i].len() implies crate::sat::lit_ok(#[trigger] n[i][j]) by {
                assert(crate::semantics::clause_mentions(n[i], n[i][j].v()));
                assert(mentions(n, n[i][j].v()));
            }
        }
        assert(in_range(s, n));
    }
    let tried = choose|tried: Seq<Seq<bool>>| #[trigger]
        tried_out(s, n, tried) && (tried.len() >= MAX_ROUNDS || overrun(s, n, tried.len() as int + 1)) && (s[0].0 == QuantTy::Exists
            ==> exists|moves: Seq<Option<Seq<Lit>>>| #[trigger] learnt(s, n, tried, moves));
    if tried.len() < MAX_ROUNDS {
        let copies = tried.len() + 1;
        assert(copies * b.size <= (MAX_ROUNDS + 1) * b.size) by (nonlinear_arith)
            requires
                copies <= MAX_ROUNDS + 1,
        ;
        assert(copies * b.vars.len() <= (MAX_ROUNDS + 1) * b.vars.len()) by (nonlinear_arith)
            requires
                copies <= MAX_ROUNDS + 1,
        ;
        assert(held(s, n, b));
    }
    lemma_candidates(tried, s[0].1.len());
    assert(reached(p, m, s, n, steps) && tried_out(s, n, tried));
}

/// Bounds that fit a formula hold it.
pub proof fn lemma_fits_held(p: Prefix, m: Matrix, b: Bounds)
    requires
        fits(p, m, b),
    ensures
        held(p, m, b),
{
}

/// A candidate that is refuted as a cube loses.
pub proof fn lemma_loses(p: Prefix, m: Matrix, cube: Seq<Lit>, here: Assignment)
    requires
        settles(p, cube),
        cube_true(here, cube),
        forall|a: Assignment| #[trigger] cube_true(a, cube) ==> qbf(p.drop_first(), m, a) == (p[0].0 == QuantTy::Forall),
    ensures
        loses(p, m, signs(here, p[0].1)),
{
    let vars = p[0].1;
    assert forall|a: Assignment|
        #![trigger signs(a, vars)]
        signs(a, vars) == signs(here, vars) implies qbf(p.drop_first(), m, a) == (p[0].0 == QuantTy::Forall) by {
        assert forall|i: int| 0 <= i < cube.len() implies crate::semantics::lit_true(a, #[trigger] cube[i]) by {
            assert(crate::semantics::lit_true(here, cube[i]));
            assert(signs(a, vars)[i] == signs(here, vars)[i]);
        }
        assert(cube_true(a, cube));
    }
}

/// Distinct candidates for variables are no more than the variables have
/// assignments.
pub proof fn lemma_candidates(tried: Seq<Seq<bool>>, n: nat)
    requires
        tried.no_duplicates(),
        forall|i: int| 0 <= i < tried.len() ==> (#[trigger] tried[i]).len() == n,
    ensures
        tried.len() <= two_to(n),
{
    let codes = Seq::new(tried.len(), |i: int| code(tried[i]));
    assert forall|i: int, j: int| 0 <= i < codes.len() && 0 <= j < codes.len() && i != j implies codes[i] != codes[j] by {
        if codes[i] == codes[j] {
            assert(tried[i].len() == n && tried[j].len() == n);
            lemma_code_injective(tried[i], tried[j]);
        }
    }
    lemma_int_range(0, two_to(n) as int);
    assert forall|i: int| 0 <= i < codes.len() implies set_int_range(0, two_to(n) as int).contains(#[trigger] codes[i]) by {
        assert(tried[i].len() == n);
        lemma_code(tried[i]);
    }
    lemma_distinct_len(codes, set_int_range(0, two_to(n) as int));
}

/// The rounds of a loop over the outermost block of a formula that fits.
pub proof fn lemma_rounds(p: Prefix, m: Matrix, b: Bounds, tried: Seq<Seq<bool>>)
    requires
        p.len() > 2,
        fits(p, m, b),
        p[0].1.no_duplicates(),
        tried.no_duplicates(),
        forall|i: int| 0 <= i < tried.len() ==> (#[trigger] tried[i]).len() == p[0].1.len(),
    ensures
        tried.len() < MAX_ROUNDS,
        p[0].0 == QuantTy::Exists ==> tried.len() <= two_to(b.choices.len()),
{
    lemma_candidates(tried, p[0].1.len());
    let set = if p[0].0 == QuantTy::Exists {
        b.choices
    } else {
        b.moves
    };
    assert forall|i: int| 0 <= i < p[0].1.len() implies set.contains(#[trigger] p[0].1[i]) by {
        assert(p[0].1.contains(p[0].1[i]));
        assert(in_front(p, p[0].0, p[0].1[i]));
    }
    lemma_distinct_len(p[0].1, set);
    lemma_two_to_mono(p[0].1.len(), set.len());
}

} // verus!
