//! Partial Skolem functions as implication clauses.
//!
//! An implication clause of a literal forces it where all its other
//! literals are false; it is the reason for the literal there. Every
//! implication belongs to the decision level at which it was found.
use crate::clause::allocator::ClauseId;
use crate::datastructure::Rows;
use crate::incdet::propagation::trail::DecLvl;
use crate::literal::Lit;
use vstd::prelude::*;

verus! {

broadcast use crate::literal::group_literal;

/// An implication clause and its decision level.
#[derive(Debug, Clone, Copy, PartialEq, Eq, Structural)]
pub struct Impl {
    pub clause: ClauseId,
    pub dec_lvl: DecLvl,
}

/// The implication clauses of every literal.
#[derive(Debug)]
pub struct Skolem {
    rows: Rows<Impl>,
}

/// The implications up to a decision level.
pub open spec fn kept(implications: Seq<Impl>, lvl: DecLvl) -> Seq<Impl>
    decreases implications.len(),
{
    if implications.len() == 0 {
        Seq::empty()
    } else {
        let before = kept(implications.drop_last(), lvl);
        if implications.last().dec_lvl.0 <= lvl.0 {
            before.push(implications.last())
        } else {
            before
        }
    }
}

/// The clauses of the implications above a decision level.
pub open spec fn dropped(implications: Seq<Impl>, lvl: DecLvl) -> Seq<ClauseId>
    decreases implications.len(),
{
    if implications.len() == 0 {
        Seq::empty()
    } else {
        let before = dropped(implications.drop_last(), lvl);
        if implications.last().dec_lvl.0 <= lvl.0 {
            before
        } else {
            before.push(implications.last().clause)
        }
    }
}

impl Skolem {
    /// The implications of the literal with an index.
    pub closed spec fn row(&self, index: int) -> Seq<Impl> {
        self.rows.row(index)
    }

    /// No literal from this index on has implications.
    pub closed spec fn width(&self) -> nat {
        self.rows.width()
    }

    /// The implications of a literal.
    pub open spec fn of(&self, lit: Lit) -> Seq<Impl> {
        self.row(lit.id())
    }

    /// The clauses of the implications above a level of the first literals,
    /// in the order of the literals.
    pub open spec fn all_dropped(&self, lvl: DecLvl, count: int) -> Seq<ClauseId>
        decreases count,
    {
        if count <= 0 {
            Seq::empty()
        } else {
            self.all_dropped(lvl, count - 1) + dropped(self.row(count - 1), lvl)
        }
    }

    /// No implications.
    pub fn new() -> (skolem: Skolem)
        ensures
            forall|lit: Lit| #[trigger] skolem.of(lit) == Seq::<Impl>::empty(),
    {
        Skolem { rows: Rows::new() }
    }

    /// The number of implications of a literal.
    pub fn count(&self, lit: Lit) -> (count: usize)
        ensures
            count == self.of(lit).len(),
    {
        self.rows.count(lit.as_index())
    }

    /// An implication of a literal.
    pub fn at(&self, lit: Lit, position: usize) -> (implication: Impl)
        requires
            position < self.of(lit).len(),
        ensures
            implication == self.of(lit)[position as int],
    {
        self.rows.at(lit.as_index(), position)
    }

    /// Registers an implication clause of a literal.
    pub fn add_implication(&mut self, lit: Lit, clause: ClauseId, dec_lvl: DecLvl)
        ensures
            final(self).of(lit) == old(self).of(lit).push((Impl { clause, dec_lvl })),
            forall|other: Lit| other != lit ==> #[trigger] final(self).of(other) == old(self).of(other),
    {
        self.rows.push(lit.as_index(), Impl { clause, dec_lvl });
        proof {
            assert forall|other: Lit| other != lit implies #[trigger] self.of(other) == old(self).of(other) by {
                if other.id() == lit.id() {
                    crate::datastructure::lemma_lit_id_ext(other, lit);
                }
            }
        }
    }

    /// Removes all implications above a level and returns the clauses that
    /// were registered there, once for each registration.
    pub fn backtrack_to(&mut self, lvl: DecLvl) -> (removed: Vec<ClauseId>)
        ensures
            removed@ == old(self).all_dropped(lvl, old(self).width() as int),
            forall|index: int| index >= old(self).width() ==> #[trigger] old(self).row(index) == Seq::<Impl>::empty(),
            forall|lit: Lit| #[trigger] final(self).of(lit) == kept(old(self).of(lit), lvl),
    {
        let mut removed: Vec<ClauseId> = Vec::new();
        let ghost before = self.rows;
        let end = self.rows.len();
        let mut index: usize = 0;
        while index < end
            invariant
                index <= end,
                end == old(self).width(),
                before == old(self).rows,
                removed@ == old(self).all_dropped(lvl, index as int),
                forall|other: int| 0 <= other < index ==> #[trigger] self.rows.row(other) == kept(before.row(other), lvl),
                forall|other: int| other >= index ==> #[trigger] self.rows.row(other) == before.row(other),
            decreases end - index,
        {
            let ghost row = self.rows.row(index as int);
            let count = self.rows.count(index);
            let mut rest: Vec<Impl> = Vec::new();
            let mut k: usize = 0;
            let ghost earlier = removed@;
            assert(row.take(0) =~= Seq::<Impl>::empty());
            assert(earlier + dropped(row.take(0), lvl) =~= earlier);
            while k < count
                invariant
                    k <= count,
                    count == row.len(),
                    row == self.rows.row(index as int),
                    rest@ == kept(row.take(k as int), lvl),
                    removed@ == earlier + dropped(row.take(k as int), lvl),
                decreases count - k,
            {
                let implication = self.rows.at(index, k);
                assert(row.take(k as int + 1).drop_last() =~= row.take(k as int));
                if implication.dec_lvl.0 <= lvl.0 {
                    rest.push(implication);
                } else {
                    removed.push(implication.clause);
                    assert(removed@ =~= earlier + dropped(row.take(k as int + 1), lvl));
                }
                k += 1;
            }
            assert(row.take(row.len() as int) =~= row);
            if rest.len() < count {
                self.rows.set(index, rest);
            } else {
                proof {
                    lemma_kept_all(row, lvl);
                }
            }
            index += 1;
        }
        proof {
            assert forall|lit: Lit| #[trigger] self.of(lit) == kept(old(self).of(lit), lvl) by {
                if lit.id() >= end {
                    assert(before.row(lit.id()) == Seq::<Impl>::empty());
                    assert(self.rows.row(lit.id()) == before.row(lit.id()));
                } else {
                    assert(self.rows.row(lit.id()) == kept(before.row(lit.id()), lvl));
                }
            }
        }
        removed
    }
}

/// What keeps its length keeps everything.
proof fn lemma_kept_all(implications: Seq<Impl>, lvl: DecLvl)
    ensures
        kept(implications, lvl).len() <= implications.len(),
        kept(implications, lvl).len() == implications.len() ==> kept(implications, lvl) == implications,
    decreases implications.len(),
{
    if implications.len() > 0 {
        lemma_kept_all(implications.drop_last(), lvl);
        assert(implications =~= implications.drop_last().push(implications.last()));
    }
}

} // verus!
