//! Conflict analysis.
//!
//! A learnt clause is a resolvent: it starts from one implication clause of
//! either polarity of the conflicted variable and is resolved with the
//! reasons of its literals along the trail. Everything derived here follows
//! from the original clauses.
use crate::clause::implied;
use crate::datastructure::LitSet;
use crate::incdet::matrix::{lemma_implied_resolvent, Clauses};
use crate::incdet::skolem::{Impl, Skolem};
use crate::literal::Lit;
use crate::semantics::{clause_true, lit_true, matrix_true, Assignment, Matrix};
use crate::simplify::contains_lit;
use vstd::prelude::*;

verus! {

broadcast use crate::literal::group_literal;

/// The clause contains the literal, and no other of its literals is in the
/// set.
pub open spec fn forces(c: Seq<Lit>, lit: Lit, holding: Set<Lit>) -> bool {
    c.contains(lit) && forall|l: Lit| #[trigger] c.contains(l) && l != lit ==> !holding.contains(l)
}

/// Whether the clause contains the literal and no other of its literals
/// is in the set.
pub fn is_implied(clause: &Vec<Lit>, lit: Lit, holding: &LitSet) -> (yes: bool)
    ensures
        yes == forces(clause@, lit, holding@),
{
    let mut found = false;
    let mut k: usize = 0;
    while k < clause.len()
        invariant
            k <= clause@.len(),
            found == clause@.take(k as int).contains(lit),
            forall|i: int| 0 <= i < k && (#[trigger] clause@[i]) != lit ==> !holding@.contains(clause@[i]),
        decreases clause.len() - k,
    {
        let l = clause[k];
        assert(clause@.take(k as int + 1) =~= clause@.take(k as int).push(l));
        proof {
            crate::datastructure::lemma_push_contains(clause@.take(k as int), l, lit);
        }
        if l == lit {
            found = true;
        } else if holding.contains(l) {
            assert(clause@.contains(l));
            return false;
        }
        k += 1;
    }
    assert(clause@.take(clause@.len() as int) =~= clause@);
    found
}

/// A reason of a literal under a set of literals that hold: the first of
/// its implication clauses that forces it.
pub fn find_reason(clauses: &Clauses, skolem: &Skolem, lit: Lit, holding: &LitSet) -> (reason: Option<Impl>)
    requires
        clauses.wf(),
    ensures
        match reason {
            Some(reason) => exists|k: int| #[trigger]
                reason_at(*clauses, *skolem, lit, holding@, k) && skolem.of(lit)[k] == reason && forall|i: int|
                    i < k ==> !#[trigger] reason_at(*clauses, *skolem, lit, holding@, i),
            None => forall|k: int| !#[trigger] reason_at(*clauses, *skolem, lit, holding@, k),
        },
        match reason {
            Some(reason) => reason_lits(*clauses, *skolem, lit, holding@) == Some(
                Set::new(|l: Lit| clauses.lits(reason.clause)->0.contains(l)),
            ),
            None => reason_lits(*clauses, *skolem, lit, holding@) is None,
        },
        reason matches Some(reason) ==> skolem.of(lit).contains(reason) && clauses.lits(reason.clause) is Some && forces(
            clauses.lits(reason.clause)->0,
            lit,
            holding@,
        ),
{
    let count = skolem.count(lit);
    let mut k: usize = 0;
    while k < count
        invariant
            k <= count,
            count == skolem.of(lit).len(),
            clauses.wf(),
            forall|i: int| i < k ==> !#[trigger] reason_at(*clauses, *skolem, lit, holding@, i),
        decreases count - k,
    {
        let implication = skolem.at(lit, k);
        match clauses.get(implication.clause) {
            Some(lits) => {
                if is_implied(lits, lit, holding) {
                    assert(reason_at(*clauses, *skolem, lit, holding@, k as int));
                    proof {
                        lemma_reason_lits(*clauses, *skolem, lit, holding@, k as int);
                    }
                    return Some(implication);
                }
            },
            None => {},
        }
        k += 1;
    }
    None
}

/// An implication clause of a literal forces it.
pub open spec fn reason_at(clauses: Clauses, skolem: Skolem, lit: Lit, holding: Set<Lit>, k: int) -> bool {
    &&& 0 <= k < skolem.of(lit).len()
    &&& match clauses.lits(skolem.of(lit)[k].clause) {
        Some(lits) => forces(lits, lit, holding),
        None => false,
    }
}

/// The literals of the first implication clause that forces a literal.
pub open spec fn reason_lits(clauses: Clauses, skolem: Skolem, lit: Lit, holding: Set<Lit>) -> Option<Set<Lit>> {
    if exists|k: int| #[trigger] reason_at(clauses, skolem, lit, holding, k) {
        let k = choose|k: int| #[trigger]
            reason_at(clauses, skolem, lit, holding, k) && forall|i: int| i < k ==> !#[trigger] reason_at(clauses, skolem, lit, holding, i);
        Some(Set::new(|l: Lit| clauses.lits(skolem.of(lit)[k].clause)->0.contains(l)))
    } else {
        None
    }
}

/// The literals of the resolvent of two clauses.
pub open spec fn resolvent(first: Set<Lit>, second: Set<Lit>, pivot: Lit) -> Set<Lit> {
    Set::new(|l: Lit| first.contains(l) && l != pivot.neg() || second.contains(l) && l != pivot)
}

/// The first implication clause that forces a literal is its reason.
pub proof fn lemma_reason_lits(clauses: Clauses, skolem: Skolem, lit: Lit, holding: Set<Lit>, k: int)
    requires
        reason_at(clauses, skolem, lit, holding, k),
        forall|i: int| i < k ==> !#[trigger] reason_at(clauses, skolem, lit, holding, i),
    ensures
        reason_lits(clauses, skolem, lit, holding) == Some(
            Set::new(|l: Lit| clauses.lits(skolem.of(lit)[k].clause)->0.contains(l)),
        ),
{
    let j = choose|j: int| #[trigger]
        reason_at(clauses, skolem, lit, holding, j) && forall|i: int| i < j ==> !#[trigger] reason_at(clauses, skolem, lit, holding, i);
    assert(j == k);
}

/// The literal has a reason, and the first one has no other literal.
pub open spec fn forced_alone(clauses: Clauses, skolem: Skolem, lit: Lit, holding: Set<Lit>) -> bool {
    exists|k: int| #[trigger]
        reason_at(clauses, skolem, lit, holding, k) && (forall|i: int| i < k ==> !#[trigger] reason_at(clauses, skolem, lit, holding, i))
            && only_literal(clauses.lits(skolem.of(lit)[k].clause)->0, lit)
}

/// The clause has no other literal.
pub open spec fn only_literal(c: Seq<Lit>, lit: Lit) -> bool {
    forall|i: int| 0 <= i < c.len() ==> #[trigger] c[i] == lit
}

/// The resolvent of two clauses: the first without the negated pivot, the
/// second without the pivot.
pub fn resolve(first: &Vec<Lit>, second: &Vec<Lit>, pivot: Lit, Ghost(m): Ghost<Matrix>) -> (clause: Vec<Lit>)
    ensures
        forall|l: Lit| #[trigger] clause@.contains(l) <==> (first@.contains(l) && l != pivot.neg()) || (second@.contains(l) && l != pivot),
        implied(m, first@) && implied(m, second@) ==> implied(m, clause@),
{
    let mut clause: Vec<Lit> = Vec::new();
    let negated = pivot.negated();
    add_without(&mut clause, first, negated);
    add_without(&mut clause, second, pivot);
    proof {
        if implied(m, first@) && implied(m, second@) {
            lemma_implied_resolvent(m, first@, second@, pivot, clause@);
        }
    }
    clause
}

/// Adds the literals of a clause that are not there yet, but one.
fn add_without(clause: &mut Vec<Lit>, source: &Vec<Lit>, skip: Lit)
    ensures
        forall|l: Lit| #[trigger] final(clause)@.contains(l) <==> old(clause)@.contains(l) || (source@.contains(l) && l != skip),
{
    let ghost start = clause@;
    let mut k: usize = 0;
    while k < source.len()
        invariant
            k <= source@.len(),
            forall|l: Lit| #[trigger] clause@.contains(l) <==> start.contains(l) || (source@.take(k as int).contains(l) && l != skip),
        decreases source.len() - k,
    {
        let l = source[k];
        let ghost before = clause@;
        if l != skip && !contains_lit(clause, l) {
            clause.push(l);
        }
        proof {
            let part = source@.take(k as int);
            assert(source@.take(k as int + 1) =~= part.push(l));
            assert forall|x: Lit| #[trigger] clause@.contains(x) <==> start.contains(x) || (source@.take(k as int + 1).contains(x) && x
                != skip) by {
                crate::datastructure::lemma_push_contains(part, l, x);
                crate::datastructure::lemma_push_contains(before, l, x);
                assert(before.contains(x) <==> start.contains(x) || (part.contains(x) && x != skip));
            }
        }
        k += 1;
    }
    assert(source@.take(source@.len() as int) =~= source@);
}

/// The negation of every literal of the set follows from the clauses.
pub open spec fn all_false(m: Matrix, lits: Set<Lit>) -> bool {
    forall|l: Lit| #[trigger] lits.contains(l) ==> implied(m, seq![l.neg()])
}

proof fn lemma_unit_follows(m: Matrix, reason: Seq<Lit>, lit: Lit, redundant: Set<Lit>)
    requires
        implied(m, reason),
        all_false(m, redundant),
        forall|l: Lit| #[trigger] reason.contains(l) && l != lit.neg() ==> redundant.contains(l),
    ensures
        implied(m, seq![lit.neg()]),
{
    let unit = seq![lit.neg()];
    assert forall|a: Assignment| #[trigger] matrix_true(a, m) implies clause_true(a, unit) by {
        assert(clause_true(a, reason));
        let j = choose|j: int| 0 <= j < reason.len() && lit_true(a, #[trigger] reason[j]);
        let l = reason[j];
        assert(reason.contains(l));
        if l != lit.neg() {
            assert(redundant.contains(l));
            let other = seq![l.neg()];
            assert(implied(m, other));
            assert(clause_true(a, other));
            let i = choose|i: int| 0 <= i < other.len() && lit_true(a, #[trigger] other[i]);
            assert(other[i] == l.neg());
        }
        assert(unit[0] == lit.neg());
        assert(lit_true(a, unit[0]));
    }
}

/// What was found out about the redundancy of literals.
pub struct Redundancy {
    /// literals whose negation follows from the clauses
    redundant: LitSet,
    /// literals of which this was not found
    needed: LitSet,
}

impl Redundancy {
    /// The literals known as redundant are false.
    pub closed spec fn wf(&self, m: Matrix) -> bool {
        all_false(m, self.redundant@)
    }

    /// The literal is known as redundant.
    pub closed spec fn knows(&self, lit: Lit) -> bool {
        self.redundant@.contains(lit)
    }

    /// The literal was not found redundant.
    pub closed spec fn rejects(&self, lit: Lit) -> bool {
        self.needed@.contains(lit)
    }

    /// No literal was rejected that a reason of no other literal makes
    /// redundant.
    pub open spec fn fair(&self, clauses: Clauses, skolem: Skolem, holding: Set<Lit>) -> bool {
        forall|l: Lit| #[trigger] self.rejects(l) ==> !forced_alone(clauses, skolem, l.neg(), holding)
    }

    /// Nothing is known.
    pub fn new(Ghost(m): Ghost<Matrix>) -> (redundancy: Redundancy)
        ensures
            redundancy.wf(m),
            forall|l: Lit| !#[trigger] redundancy.knows(l),
            forall|l: Lit| !#[trigger] redundancy.rejects(l),
    {
        Redundancy { redundant: LitSet::new(), needed: LitSet::new() }
    }

    /// Checks whether the negation of a literal is implied outright, so
    /// that the literal can be removed from every learnt clause: by a
    /// reason whose other literals are redundant themselves. The depth of
    /// the search along the implication graph is bounded.
    pub fn is_literal_redundant(&mut self, clauses: &Clauses, skolem: &Skolem, lit: Lit, holding: &LitSet, depth: u32) -> (yes: bool)
        requires
            clauses.wf(),
            old(self).wf(clauses.matrix()),
        ensures
            final(self).wf(clauses.matrix()),
            yes ==> implied(clauses.matrix(), seq![lit.neg()]),
            old(self).knows(lit) ==> yes,
            !old(self).knows(lit) && (old(self).rejects(lit) || depth == 0) ==> !yes,
            old(self).knows(lit) || old(self).rejects(lit) || depth == 0 ==> *final(self) == *old(self),
            !old(self).knows(lit) && !old(self).rejects(lit) && depth > 0 ==> {
                &&& yes ==> final(self).knows(lit) && exists|k: int| #[trigger] reason_at(*clauses, *skolem, lit.neg(), holding@, k)
                &&& !yes ==> final(self).rejects(lit)
                &&& forced_alone(*clauses, *skolem, lit.neg(), holding@) ==> yes
            },
            forall|l: Lit| #[trigger] old(self).knows(l) ==> final(self).knows(l),
            forall|l: Lit| #[trigger] old(self).rejects(l) ==> final(self).rejects(l),
            old(self).fair(*clauses, *skolem, holding@) ==> final(self).fair(*clauses, *skolem, holding@),
        decreases depth,
    {
        if self.redundant.contains(lit) {
            return true;
        }
        if self.needed.contains(lit) || depth == 0 {
            return false;
        }
        let negated = lit.negated();
        let redundant = match find_reason(clauses, skolem, negated, holding) {
            None => false,
            Some(implication) => match clauses.get(implication.clause) {
                None => false,
                Some(reason) => {
                    let mut all = true;
                    let mut k: usize = 0;
                    while k < reason.len() && all
                        invariant
                            k <= reason@.len(),
                            clauses.wf(),
                            self.wf(clauses.matrix()),
                            negated == lit.neg(),
                            depth > 0,
                            only_literal(reason@, negated) ==> all,
                            forall|l: Lit| #[trigger] old(self).knows(l) ==> self.knows(l),
                            forall|l: Lit| #[trigger] old(self).rejects(l) ==> self.rejects(l),
                            old(self).fair(*clauses, *skolem, holding@) ==> self.fair(*clauses, *skolem, holding@),
                            all ==> forall|i: int|
                                0 <= i < k && (#[trigger] reason@[i]) != lit.neg() ==> implied(
                                    clauses.matrix(),
                                    seq![reason@[i].neg()],
                                ),
                        decreases reason.len() - k,
                    {
                        let premise = reason[k];
                        if premise != negated {
                            all = self.is_literal_redundant(clauses, skolem, premise, holding, depth - 1);
                        }
                        k += 1;
                    }
                    proof {
                        if forced_alone(*clauses, *skolem, lit.neg(), holding@) {
                            let k = choose|k: int| #[trigger]
                                reason_at(*clauses, *skolem, negated, holding@, k) && (forall|i: int|
                                    i < k ==> !#[trigger] reason_at(*clauses, *skolem, negated, holding@, i)) && only_literal(
                                    clauses.lits(skolem.of(negated)[k].clause)->0,
                                    negated,
                                );
                            let j = choose|j: int| #[trigger]
                                reason_at(*clauses, *skolem, negated, holding@, j) && skolem.of(negated)[j] == implication && forall|i: int|
                                    i < j ==> !#[trigger] reason_at(*clauses, *skolem, negated, holding@, i);
                            assert(k == j);
                            assert(all);
                        }
                        if all {
                            let known = Set::new(|l: Lit| reason@.contains(l) && l != lit.neg());
                            assert forall|l: Lit| #[trigger] known.contains(l) implies implied(clauses.matrix(), seq![l.neg()]) by {
                                let i = choose|i: int| 0 <= i < reason@.len() && reason@[i] == l;
                                assert(reason@[i] != lit.neg());
                            }
                            lemma_unit_follows(clauses.matrix(), reason@, lit, known);
                        }
                    }
                    all
                },
            },
        };
        let ghost found = *self;
        if redundant {
            let ghost before = self.redundant@;
            self.redundant.insert(lit);
            assert forall|l: Lit| #[trigger] self.redundant@.contains(l) implies implied(clauses.matrix(), seq![l.neg()]) by {
                if l != lit {
                    assert(before.contains(l));
                }
            }
        } else {
            self.needed.insert(lit);
        }
        proof {
            if old(self).fair(*clauses, *skolem, holding@) {
                assert(found.fair(*clauses, *skolem, holding@));
                assert forall|l: Lit| #[trigger] self.rejects(l) implies !forced_alone(*clauses, *skolem, l.neg(), holding@) by {
                    if l != lit || redundant {
                        assert(found.rejects(l));
                    }
                }
            }
        }
        redundant
    }
}

/// The clause without literals that are false outright follows where the
/// clause does.
pub proof fn lemma_minimized(m: Matrix, c: Seq<Lit>, d: Seq<Lit>)
    requires
        implied(m, c),
        forall|l: Lit| #[trigger] c.contains(l) ==> d.contains(l) || implied(m, seq![l.neg()]),
    ensures
        implied(m, d),
{
    assert forall|a: Assignment| #[trigger] matrix_true(a, m) implies clause_true(a, d) by {
        assert(clause_true(a, c));
        let j = choose|j: int| 0 <= j < c.len() && lit_true(a, #[trigger] c[j]);
        let l = c[j];
        assert(c.contains(l));
        if !d.contains(l) {
            let unit = seq![l.neg()];
            assert(clause_true(a, unit));
            let i = choose|i: int| 0 <= i < unit.len() && lit_true(a, #[trigger] unit[i]);
            assert(unit[i] == l.neg());
        }
        let i = choose|i: int| 0 <= i < d.len() && d[i] == l;
        assert(lit_true(a, d[i]));
    }
}

} // verus!
