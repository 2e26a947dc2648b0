//! The normal form of a prefix: no empty block, alternating quantifiers,
//! and no free variable.
use crate::literal::{Lit, Var};
use crate::qcnf::{matrix_of, prefix_of, QCNF};
use crate::quantifier::QuantTy;
use crate::semantics::{
    bound, bound_by, lemma_bound_concat, lemma_bound_first, lemma_close_free, lemma_closed_truth, lemma_concat_contains, lemma_congruence,
    lemma_empty_block, lemma_merge_blocks, lemma_with_block, mentions, prefix_distinct, qbf, with_block, Assignment, Matrix, Prefix,
};
use vstd::prelude::*;

verus! {

/// A prefix with one more innermost block: an empty block is dropped and a
/// block of the last quantifier joins the last block.
pub open spec fn push_block(p: Prefix, q: QuantTy, vs: Seq<Var>) -> Prefix {
    if vs.len() == 0 {
        p
    } else if p.len() > 0 && p.last().0 == q {
        p.drop_last().push((q, p.last().1 + vs))
    } else {
        p.push((q, vs))
    }
}

/// The prefix without empty blocks and with adjacent blocks of one
/// quantifier merged.
pub open spec fn merged(p: Prefix) -> Prefix
    decreases p.len(),
{
    if p.len() == 0 {
        Seq::empty()
    } else {
        push_block(merged(p.drop_last()), p.last().0, p.last().1)
    }
}

/// The quantifiers differ from block to block and no block is empty.
pub open spec fn alternating(p: Prefix) -> bool {
    &&& forall|i: int| 0 <= i < p.len() ==> (#[trigger] p[i]).1.len() > 0
    &&& forall|i: int| 0 <= i && i + 1 < p.len() ==> (#[trigger] p[i]).0 != p[i + 1].0
}

/// Some variable of the matrix is free.
pub open spec fn has_free(p: Prefix, m: Matrix) -> bool {
    exists|x: Var| #[trigger] mentions(m, x) && !bound(p, x)
}

/// The free variables in increasing order.
pub open spec fn free_list(p: Prefix, m: Matrix, free: Seq<Var>) -> bool {
    &&& forall|x: Var| #[trigger] free.contains(x) <==> mentions(m, x) && !bound(p, x)
    &&& forall|i: int, j: int| 0 <= i < j < free.len() ==> (#[trigger] free[i]).id() < (#[trigger] free[j]).id()
}

/// The quantifier pattern after one more block.
pub open spec fn push_shape(s: Seq<QuantTy>, q: QuantTy, empty: bool) -> Seq<QuantTy> {
    if empty || (s.len() > 0 && s.last() == q) {
        s
    } else {
        s.push(q)
    }
}

/// The alternation pattern of a prefix behind a given outer pattern.
pub open spec fn shape_after(s: Seq<QuantTy>, p: Prefix) -> Seq<QuantTy>
    decreases p.len(),
{
    if p.len() == 0 {
        s
    } else {
        push_shape(shape_after(s, p.drop_last()), p.last().0, p.last().1.len() == 0)
    }
}

/// The alternation pattern of a formula; free variables are existential
/// and outermost.
pub open spec fn shape(p: Prefix, m: Matrix) -> Seq<QuantTy> {
    shape_after(
        if has_free(p, m) {
            seq![QuantTy::Exists]
        } else {
            Seq::empty()
        },
        p,
    )
}

/// The quantifiers of a prefix.
pub open spec fn quants(p: Prefix) -> Seq<QuantTy> {
    Seq::new(p.len(), |i: int| p[i].0)
}

pub(crate) proof fn lemma_push_block_qbf(p: Prefix, q: QuantTy, vs: Seq<Var>, t: Prefix, m: Matrix, a: Assignment)
    ensures
        qbf(push_block(p, q, vs) + t, m, a) == qbf(p + with_block(q, vs, t), m, a),
{
    let full = with_block(q, vs, t);
    if vs.len() == 0 {
        assert(vs =~= Seq::empty());
        assert forall|b: Assignment| #[trigger] qbf(t, m, b) == qbf(full, m, b) by {
            lemma_empty_block(q, t, m, b);
        }
        lemma_congruence(p, t, m, full, m, a);
    } else if p.len() > 0 && p.last().0 == q {
        let h = p.drop_last();
        let v = p.last().1;
        let joined = with_block(q, v + vs, t);
        let two = with_block(q, v, full);
        assert forall|b: Assignment| #[trigger] qbf(joined, m, b) == qbf(two, m, b) by {
            lemma_merge_blocks(q, v, vs, t, m, b);
        }
        lemma_congruence(h, joined, m, two, m, a);
        assert(push_block(p, q, vs) + t =~= h + joined);
        assert(p + full =~= h + two);
    } else {
        assert(push_block(p, q, vs) + t =~= p + full);
    }
}

/// Merging blocks keeps the value of the formula.
pub proof fn lemma_merged_qbf(p: Prefix, t: Prefix, m: Matrix, a: Assignment)
    ensures
        qbf(merged(p) + t, m, a) == qbf(p + t, m, a),
    decreases p.len(),
{
    if p.len() == 0 {
        assert(merged(p) + t =~= p + t);
    } else {
        let h = p.drop_last();
        let b = p.last();
        lemma_push_block_qbf(merged(h), b.0, b.1, t, m, a);
        lemma_merged_qbf(h, with_block(b.0, b.1, t), m, a);
        assert(h + with_block(b.0, b.1, t) =~= p + t);
    }
}

/// Adding a block binds the variables of the block.
proof fn lemma_push_block_bound(p: Prefix, q: QuantTy, vs: Seq<Var>, x: Var)
    ensures
        bound(push_block(p, q, vs), x) == (bound(p, x) || vs.contains(x)),
{
    let r = push_block(p, q, vs);
    if vs.len() == 0 {
    } else if p.len() > 0 && p.last().0 == q {
        let h = p.drop_last();
        let last = seq![p.last()];
        let joined = seq![(q, p.last().1 + vs)];
        assert(p =~= h + last);
        assert(r =~= h + joined);
        lemma_bound_concat(h, last, x);
        lemma_bound_concat(h, joined, x);
        lemma_bound_single(p.last().0, p.last().1, x);
        lemma_bound_single(q, p.last().1 + vs, x);
        assert(last =~= seq![(p.last().0, p.last().1)]);
        lemma_concat_contains(p.last().1, vs, x);
    } else {
        let b = seq![(q, vs)];
        assert(r =~= p + b);
        lemma_bound_concat(p, b, x);
        lemma_bound_single(q, vs, x);
    }
}

/// A prefix of one block binds the variables of the block.
pub proof fn lemma_bound_single(q: QuantTy, vs: Seq<Var>, x: Var)
    ensures
        bound(seq![(q, vs)], x) == vs.contains(x),
{
    let p = seq![(q, vs)];
    assert(p[0].1 == vs);
    if bound(p, x) {
        let i = choose|i: int| 0 <= i < p.len() && (#[trigger] p[i]).1.contains(x);
        assert(i == 0);
    }
}

/// Merging blocks binds the same variables.
pub proof fn lemma_merged_bound(p: Prefix, x: Var)
    ensures
        bound(merged(p), x) == bound(p, x),
    decreases p.len(),
{
    if p.len() > 0 {
        let h = p.drop_last();
        let b = p.last();
        lemma_merged_bound(h, x);
        lemma_push_block_bound(merged(h), b.0, b.1, x);
        assert(p =~= h + seq![(b.0, b.1)]);
        lemma_bound_concat(h, seq![(b.0, b.1)], x);
        lemma_bound_single(b.0, b.1, x);
    }
}

/// Merging blocks binds every variable by the quantifier it was bound by.
proof fn lemma_merged_bound_by(p: Prefix, q: QuantTy, x: Var)
    requires
        bound_by(merged(p), q, x),
    ensures
        bound_by(p, q, x),
    decreases p.len(),
{
    let h = p.drop_last();
    let r = merged(p);
    let i = choose|i: int| 0 <= i < r.len() && (#[trigger] r[i]).0 == q && r[i].1.contains(x);
    let f = merged(h);
    let b = p.last();
    if p.len() > 0 {
        let inner = i < f.len() && f[i].0 == q && f[i].1.contains(x);
        if inner {
            lemma_merged_bound_by(h, q, x);
            let k = choose|k: int| 0 <= k < h.len() && (#[trigger] h[k]).0 == q && h[k].1.contains(x);
            assert(p[k] == h[k]);
        } else {
            if f.len() > 0 && f.last().0 == b.0 && i == f.len() - 1 {
                lemma_concat_contains(f.last().1, b.1, x);
            }
            assert(p[p.len() - 1] == b);
        }
    }
}

/// Merged prefixes alternate.
pub proof fn lemma_merged_alternating(p: Prefix)
    ensures
        alternating(merged(p)),
    decreases p.len(),
{
    if p.len() > 0 {
        let h = merged(p.drop_last());
        let q = p.last().0;
        let vs = p.last().1;
        let r = push_block(h, q, vs);
        lemma_merged_alternating(p.drop_last());
        assert forall|i: int| 0 <= i < r.len() implies (#[trigger] r[i]).1.len() > 0 by {
            if i < h.len() {
                assert(h[i].1.len() > 0);
            }
        }
        assert forall|i: int| 0 <= i && i + 1 < r.len() implies (#[trigger] r[i]).0 != r[i + 1].0 by {
            if i + 1 < h.len() {
                assert(h[i].0 != h[i + 1].0);
            }
        }
    }
}

/// A part of a distinct prefix is distinct, and its last block is apart.
proof fn lemma_distinct_front(p: Prefix)
    requires
        p.len() > 0,
        prefix_distinct(p),
    ensures
        prefix_distinct(p.drop_last()),
        p.last().1.no_duplicates(),
        forall|x: Var| bound(p.drop_last(), x) ==> !#[trigger] p.last().1.contains(x),
{
    let h = p.drop_last();
    assert forall|i: int| 0 <= i < h.len() implies (#[trigger] h[i]).1.no_duplicates() by {
        assert(h[i] == p[i]);
    }
    assert forall|i: int, j: int, x: Var|
        0 <= i < j < h.len() && #[trigger] h[i].1.contains(x) implies !#[trigger] h[j].1.contains(x) by {
        assert(h[i] == p[i] && h[j] == p[j]);
        assert(p[i].1.contains(x));
    }
    assert forall|x: Var| bound(h, x) implies !#[trigger] p.last().1.contains(x) by {
        let i = choose|i: int| 0 <= i < h.len() && (#[trigger] h[i]).1.contains(x);
        assert(h[i] == p[i]);
        assert(p[i].1.contains(x));
        assert(p[p.len() - 1] == p.last());
    }
}

/// Merging blocks keeps a prefix distinct.
pub proof fn lemma_merged_distinct(p: Prefix)
    requires
        prefix_distinct(p),
    ensures
        prefix_distinct(merged(p)),
    decreases p.len(),
{
    if p.len() > 0 {
        let front = p.drop_last();
        let h = merged(front);
        let q = p.last().0;
        let vs = p.last().1;
        lemma_distinct_front(p);
        lemma_merged_distinct(front);
        assert forall|x: Var| #[trigger] vs.contains(x) implies !bound(h, x) by {
            lemma_merged_bound(front, x);
        }
        let r = push_block(h, q, vs);
        assert forall|i: int, x: Var| 0 <= i < h.len() && #[trigger] h[i].1.contains(x) implies bound(h, x) by {}
        if vs.len() > 0 {
            if h.len() > 0 && h.last().0 == q {
                let v = h.last().1;
                let n = h.len() - 1;
                assert(h[n] == h.last());
                assert(r[n].1 == v + vs);
                assert forall|i: int, j: int| 0 <= i < j < (v + vs).len() implies (v + vs)[i] != (v + vs)[j] by {
                    if j < v.len() {
                        assert(v.no_duplicates());
                    } else if i >= v.len() {
                        assert(vs[i - v.len()] != vs[j - v.len()]);
                    } else {
                        assert(vs.contains(vs[j - v.len()]));
                        assert(h[n].1.contains(v[i]));
                    }
                }
                assert forall|i: int| 0 <= i < r.len() implies (#[trigger] r[i]).1.no_duplicates() by {
                    if i < n {
                        assert(r[i] == h[i]);
                    }
                }
                assert forall|i: int, j: int, x: Var|
                    0 <= i < j < r.len() && #[trigger] r[i].1.contains(x) implies !#[trigger] r[j].1.contains(x) by {
                    assert(r[i] == h[i]);
                    assert(h[i].1.contains(x));
                    if j < n {
                        assert(r[j] == h[j]);
                    } else {
                        lemma_concat_contains(v, vs, x);
                        assert(!h[n].1.contains(x));
                    }
                }
            } else {
                let n = h.len() as int;
                assert(r[n].1 == vs);
                assert forall|i: int| 0 <= i < r.len() implies (#[trigger] r[i]).1.no_duplicates() by {
                    if i < n {
                        assert(r[i] == h[i]);
                    }
                }
                assert forall|i: int, j: int, x: Var|
                    0 <= i < j < r.len() && #[trigger] r[i].1.contains(x) implies !#[trigger] r[j].1.contains(x) by {
                    assert(r[i] == h[i]);
                    assert(h[i].1.contains(x));
                    if j < n {
                        assert(r[j] == h[j]);
                    }
                }
            }
        }
    }
}

/// The quantifiers of a merged prefix are its alternation pattern.
proof fn lemma_merged_quants(p: Prefix)
    ensures
        quants(merged(p)) == shape_after(Seq::empty(), p),
    decreases p.len(),
{
    if p.len() > 0 {
        let h = merged(p.drop_last());
        let b = p.last();
        lemma_merged_quants(p.drop_last());
        assert(quants(merged(p)) =~= push_shape(quants(h), b.0, b.1.len() == 0));
    } else {
        assert(quants(merged(p)) =~= Seq::empty());
    }
}

/// A leading existential block only adds its quantifier.
proof fn lemma_shape_first(free: Seq<Var>, p: Prefix)
    ensures
        shape_after(Seq::empty(), with_block(QuantTy::Exists, free, p)) == shape_after(
            if free.len() > 0 {
                seq![QuantTy::Exists]
            } else {
                Seq::empty()
            },
            p,
        ),
    decreases p.len(),
{
    let f = with_block(QuantTy::Exists, free, p);
    lemma_with_block(QuantTy::Exists, free, p);
    if p.len() == 0 {
        assert(f.drop_last() =~= Seq::empty());
        assert(f.last() == (QuantTy::Exists, free));
        assert(shape_after(Seq::empty(), f.drop_last()) == Seq::<QuantTy>::empty());
        assert(Seq::<QuantTy>::empty().push(QuantTy::Exists) =~= seq![QuantTy::Exists]);
    } else {
        assert(f.drop_last() =~= with_block(QuantTy::Exists, free, p.drop_last()));
        assert(f.last() == p.last());
        lemma_shape_first(free, p.drop_last());
    }
}

/// A prefix adds at most one alternation per block.
pub proof fn lemma_shape_len(s: Seq<QuantTy>, p: Prefix)
    ensures
        shape_after(s, p).len() <= s.len() + p.len(),
    decreases p.len(),
{
    if p.len() > 0 {
        lemma_shape_len(s, p.drop_last());
    }
}

/// A copy of a list of blocks' variables.
pub(crate) fn copy_vars(vars: &Vec<Var>) -> (copy: Vec<Var>)
    ensures
        copy@ == vars@,
{
    let mut copy: Vec<Var> = Vec::new();
    let mut k: usize = 0;
    while k < vars.len()
        invariant
            k <= vars@.len(),
            copy@ =~= vars@.take(k as int),
        decreases vars.len() - k,
    {
        copy.push(vars[k]);
        k += 1;
    }
    assert(copy@ =~= vars@);
    copy
}

/// A copy of a list of literals.
pub(crate) fn copy_lits(lits: &Vec<Lit>) -> (copy: Vec<Lit>)
    ensures
        copy@ == lits@,
{
    let mut copy: Vec<Lit> = Vec::new();
    let mut k: usize = 0;
    while k < lits.len()
        invariant
            k <= lits@.len(),
            copy@ =~= lits@.take(k as int),
        decreases lits.len() - k,
    {
        copy.push(lits[k]);
        k += 1;
    }
    assert(copy@ =~= lits@);
    copy
}

/// A copy of a list of clauses.
pub(crate) fn copy_clauses(clauses: &Vec<Vec<Lit>>) -> (copy: Vec<Vec<Lit>>)
    ensures
        matrix_of(copy@) == matrix_of(clauses@),
{
    let mut copy: Vec<Vec<Lit>> = Vec::new();
    let mut k: usize = 0;
    while k < clauses.len()
        invariant
            k <= clauses@.len(),
            copy@.len() == k,
            forall|i: int| 0 <= i < k ==> (#[trigger] copy@[i])@ == clauses@[i]@,
        decreases clauses.len() - k,
    {
        copy.push(copy_lits(&clauses[k]));
        k += 1;
    }
    assert(matrix_of(copy@) =~= matrix_of(clauses@));
    copy
}

/// Adds an innermost block.
pub(crate) fn add_block(prefix: &mut Vec<(QuantTy, Vec<Var>)>, quant: QuantTy, vars: &Vec<Var>)
    ensures
        prefix_of(final(prefix)@) == push_block(prefix_of(old(prefix)@), quant, vars@),
{
    let ghost before = prefix_of(prefix@);
    if vars.len() == 0 {
        return;
    }
    let n = prefix.len();
    if n > 0 && prefix[n - 1].0 == quant {
        let mut last = match prefix.pop() {
            Some(block) => block,
            None => (quant, Vec::new()),
        };
        let ghost first = last.1@;
        let mut k: usize = 0;
        while k < vars.len()
            invariant
                k <= vars@.len(),
                last.0 == quant,
                last.1@ =~= first + vars@.take(k as int),
            decreases vars.len() - k,
        {
            last.1.push(vars[k]);
            k += 1;
        }
        assert(last.1@ =~= first + vars@);
        prefix.push(last);
        assert(before.last() == (quant, first));
        assert(prefix_of(prefix@) =~= push_block(before, quant, vars@));
    } else {
        prefix.push((quant, copy_vars(vars)));
        assert(prefix_of(prefix@) =~= push_block(before, quant, vars@));
    }
}

impl QCNF {
    /// Drops empty blocks, merges adjacent blocks of the same quantifier,
    /// and binds free variables to an outermost existential block.
    pub fn normalized(&self) -> (result: QCNF)
        ensures
            result.clauses() == self.clauses(),
            exists|free: Seq<Var>| #[trigger]
                free_list(self.blocks(), self.clauses(), free) && result.blocks() == merged(
                    with_block(QuantTy::Exists, free, self.blocks()),
                ),
            alternating(result.blocks()),
            quants(result.blocks()) == shape(self.blocks(), self.clauses()),
            forall|x: Var| #[trigger] bound(result.blocks(), x) <==> bound(self.blocks(), x) || mentions(
                self.clauses(),
                x,
            ),
            forall|q: QuantTy, x: Var| #[trigger] bound_by(result.blocks(), q, x) ==> bound_by(self.blocks(), q, x) || (q
                == QuantTy::Exists && !bound(self.blocks(), x)),
            has_free(self.blocks(), self.clauses()) || result.prefix@.len() <= self.prefix@.len(),
            self.wf() ==> result.wf(),
            result.truth() == self.truth(),
            forall|a: Assignment| #[trigger] qbf(result.blocks(), result.clauses(), a) == self.truth(),
    {
        let free = self.free_variables();
        let ghost p = self.blocks();
        let ghost m = self.clauses();
        let ghost closed = with_block(QuantTy::Exists, free@, p);
        let mut prefix: Vec<(QuantTy, Vec<Var>)> = Vec::new();
        proof {
            lemma_with_block(QuantTy::Exists, free@, p);
            assert(closed.take(1).drop_last() =~= Seq::empty());
            assert(closed.take(1).last() == closed[0]);
            assert(prefix_of(prefix@) =~= merged(closed.take(1).drop_last()));
        }
        add_block(&mut prefix, QuantTy::Exists, &free);
        let mut k: usize = 0;
        while k < self.prefix.len()
            invariant
                k <= self.prefix@.len(),
                p == self.blocks(),
                closed == with_block(QuantTy::Exists, free@, p),
                prefix_of(prefix@) == merged(closed.take(k as int + 1)),
            decreases self.prefix.len() - k,
        {
            proof {
                let next = closed.take(k as int + 2);
                assert(next.drop_last() =~= closed.take(k as int + 1));
                assert(next.last() == p[k as int]);
            }
            add_block(&mut prefix, self.prefix[k].0, &self.prefix[k].1);
            k += 1;
        }
        let result = QCNF { prefix, matrix: copy_clauses(&self.matrix) };
        proof {
            assert(closed.take(closed.len() as int) =~= closed);
            let r = result.blocks();
            assert(r == merged(closed));
            assert(free_list(p, m, free@));
            lemma_merged_alternating(closed);
            lemma_merged_quants(closed);
            lemma_shape_first(free@, p);
            assert(has_free(p, m) == (free@.len() > 0)) by {
                if free@.len() > 0 {
                    assert(free@.contains(free@[0]));
                }
                if has_free(p, m) {
                    let x = choose|x: Var| #[trigger] mentions(m, x) && !bound(p, x);
                    assert(free@.contains(x));
                }
            }
            if !has_free(p, m) {
                lemma_shape_len(Seq::empty(), p);
                assert(quants(r).len() == r.len());
            }
            assert forall|x: Var| #[trigger] bound(r, x) <==> bound(p, x) || mentions(m, x) by {
                lemma_merged_bound(closed, x);
                lemma_bound_first(closed, x);
            }
            assert forall|q: QuantTy, x: Var| #[trigger] bound_by(r, q, x) implies bound_by(p, q, x) || (q == QuantTy::Exists
                && !bound(p, x)) by {
                lemma_merged_bound_by(closed, q, x);
                let i = choose|i: int| 0 <= i < closed.len() && (#[trigger] closed[i]).0 == q && closed[i].1.contains(x);
                if i == 0 {
                    assert(free@.contains(x));
                } else {
                    assert(p[i - 1] == closed[i]);
                }
            }
            if self.wf() {
                assert forall|i: int| 0 <= i < closed.len() implies (#[trigger] closed[i]).1.no_duplicates() by {
                    if i > 0 {
                        assert(closed[i] == p[i - 1]);
                    }
                }
                assert forall|i: int, j: int, x: Var|
                    0 <= i < j < closed.len() && #[trigger] closed[i].1.contains(x) implies !#[trigger] closed[j].1.contains(x) by {
                    assert(closed[j] == p[j - 1]);
                    if i > 0 {
                        assert(closed[i] == p[i - 1]);
                        assert(p[i - 1].1.contains(x));
                    } else {
                        assert(free@.contains(x));
                        assert(!bound(p, x));
                    }
                }
                lemma_merged_distinct(closed);
            }
            assert forall|a: Assignment| #[trigger] qbf(r, m, a) == self.truth() by {
                lemma_close_free(p, m, free@, a);
                lemma_merged_qbf(closed, Seq::empty(), m, a);
                assert(r + Seq::empty() =~= r);
                assert(closed + Seq::empty() =~= closed);
            }
            lemma_closed_truth(r, m, |x: Var| false);
        }
        result
    }
}

} // verus!
