//! Watched literals.
use crate::clause::allocator::ClauseId;
use crate::datastructure::Rows;
use crate::literal::Lit;
use vstd::prelude::*;

verus! {

broadcast use crate::literal::group_literal;

/// A clause that contains the watched literal.
#[derive(Debug, Clone, Copy, PartialEq, Eq, Structural)]
pub struct Watch {
    pub clause: ClauseId,
}

/// The watches of every literal.
#[derive(Debug)]
pub struct WatchList {
    enabled: bool,
    watches: Rows<Watch>,
}

impl WatchList {
    /// The watches of a literal.
    pub closed spec fn of(&self, lit: Lit) -> Seq<Watch> {
        self.watches.row(lit.id())
    }

    /// Clauses are watched.
    pub closed spec fn is_enabled(&self) -> bool {
        self.enabled
    }

    /// Nothing is watched.
    pub fn new() -> (list: WatchList)
        ensures
            !list.is_enabled(),
            forall|lit: Lit| #[trigger] list.of(lit) == Seq::<Watch>::empty(),
    {
        WatchList { enabled: false, watches: Rows::new() }
    }

    /// Whether clauses are watched.
    pub fn enabled(&self) -> (enabled: bool)
        ensures
            enabled == self.is_enabled(),
    {
        self.enabled
    }

    /// Clauses are watched from now on.
    pub fn set_enabled(&mut self)
        ensures
            final(self).is_enabled(),
            forall|lit: Lit| #[trigger] final(self).of(lit) == old(self).of(lit),
    {
        self.enabled = true;
    }

    /// The number of watches of a literal.
    pub fn count(&self, lit: Lit) -> (count: usize)
        ensures
            count == self.of(lit).len(),
    {
        self.watches.count(lit.as_index())
    }

    /// A watch of a literal.
    pub fn at(&self, lit: Lit, position: usize) -> (watch: Watch)
        requires
            position < self.of(lit).len(),
        ensures
            watch == self.of(lit)[position as int],
    {
        self.watches.at(lit.as_index(), position)
    }

    /// Watches a clause by a literal.
    pub fn add_watch(&mut self, lit: Lit, watch: Watch)
        ensures
            final(self).is_enabled() == old(self).is_enabled(),
            final(self).of(lit) == old(self).of(lit).push(watch),
            forall|other: Lit| other != lit ==> #[trigger] final(self).of(other) == old(self).of(other),
    {
        self.watches.push(lit.as_index(), watch);
        proof {
            assert forall|other: Lit| other != lit implies #[trigger] self.of(other) == old(self).of(other) by {
                if other.id() == lit.id() {
                    crate::datastructure::lemma_lit_id_ext(other, lit);
                }
            }
        }
    }

    /// Replaces the watches of a literal.
    pub fn set(&mut self, lit: Lit, watches: Vec<Watch>)
        ensures
            final(self).is_enabled() == old(self).is_enabled(),
            final(self).of(lit) == watches@,
            forall|other: Lit| other != lit ==> #[trigger] final(self).of(other) == old(self).of(other),
    {
        self.watches.set(lit.as_index(), watches);
        proof {
            assert forall|other: Lit| other != lit implies #[trigger] self.of(other) == old(self).of(other) by {
                if other.id() == lit.id() {
                    crate::datastructure::lemma_lit_id_ext(other, lit);
                }
            }
        }
    }

    /// A literal watches a clause.
    pub open spec fn watched(&self, lit: Lit, clause: ClauseId) -> bool {
        self.of(lit).contains(Watch { clause })
    }

    /// Whether a literal watches a clause.
    pub fn is_watched(&self, lit: Lit, clause: ClauseId) -> (found: bool)
        ensures
            found == self.watched(lit, clause),
    {
        let count = self.count(lit);
        let mut k: usize = 0;
        while k < count
            invariant
                k <= count,
                count == self.of(lit).len(),
                forall|i: int| 0 <= i < k ==> (#[trigger] self.of(lit)[i]).clause != clause,
            decreases count - k,
        {
            if self.at(lit, k).clause == clause {
                assert(self.of(lit)[k as int] == (Watch { clause }));
                return true;
            }
            k += 1;
        }
        false
    }
}

} // verus!
