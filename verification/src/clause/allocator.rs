//! Clause allocator.
use crate::clause::Clause;
use crate::literal::Lit;
use vstd::prelude::*;

verus! {

/// The name of an allocated clause.
#[derive(Debug, Clone, Copy, PartialEq, Eq, Structural)]
pub struct ClauseId(pub usize);

/// The allocated clauses, by name. A deleted clause leaves its name
/// behind.
#[derive(Debug)]
pub struct Allocator {
    clauses: Vec<Option<Clause>>,
    /// Reference count of registrations as implication clause. Locked
    /// clauses act as reasons on the trail and must not be deleted.
    locks: Vec<u32>,
}

impl Allocator {
    /// The clauses by number; `None` where one was deleted.
    pub closed spec fn clauses(&self) -> Seq<Option<Seq<Lit>>> {
        Seq::new(
            self.clauses@.len(),
            |i: int|
                match self.clauses@[i] {
                    Some(clause) => Some(clause@),
                    None => None,
                },
        )
    }

    /// How often each clause is registered as implication clause.
    pub closed spec fn locks(&self) -> Seq<u32> {
        self.locks@
    }

    /// Every clause has a count of registrations.
    pub open spec fn wf(&self) -> bool {
        self.locks().len() == self.clauses().len()
    }

    /// The clause of a name, if it is there.
    pub open spec fn spec_get(&self, cid: ClauseId) -> Option<Seq<Lit>> {
        if cid.0 < self.clauses().len() {
            self.clauses()[cid.0 as int]
        } else {
            None
        }
    }

    /// An allocator without clauses.
    pub fn new() -> (allocator: Allocator)
        ensures
            allocator.wf(),
            allocator.clauses() == Seq::<Option<Seq<Lit>>>::empty(),
    {
        let allocator = Allocator { clauses: Vec::new(), locks: Vec::new() };
        assert(allocator.clauses() =~= Seq::<Option<Seq<Lit>>>::empty());
        allocator
    }

    /// The number of clauses allocated so far.
    pub fn len(&self) -> (len: usize)
        ensures
            len == self.clauses().len(),
    {
        self.clauses.len()
    }

    /// Allocates a clause.
    pub fn insert(&mut self, lits: &[Lit]) -> (cid: ClauseId)
        requires
            old(self).wf(),
        ensures
            final(self).wf(),
            cid.0 == old(self).clauses().len(),
            final(self).clauses() == old(self).clauses().push(Some(lits@)),
            final(self).locks() == old(self).locks().push(0),
    {
        let cid = ClauseId(self.clauses.len());
        self.clauses.push(Some(Clause::new(lits)));
        self.locks.push(0);
        assert(self.clauses() =~= old(self).clauses().push(Some(lits@)));
        cid
    }

    /// The literals of a clause, unless it was deleted.
    pub fn get(&self, cid: ClauseId) -> (lits: Option<&Vec<Lit>>)
        ensures
            match lits {
                Some(lits) => self.spec_get(cid) == Some(lits@),
                None => self.spec_get(cid) is None,
            },
    {
        if cid.0 < self.clauses.len() {
            match &self.clauses[cid.0] {
                Some(clause) => Some(clause.lits()),
                None => None,
            }
        } else {
            None
        }
    }

    /// Marks the clause as registered implication clause.
    pub fn lock(&mut self, cid: ClauseId)
        requires
            old(self).wf(),
        ensures
            final(self).wf(),
            final(self).clauses() == old(self).clauses(),
            cid.0 < old(self).clauses().len() && old(self).locks()[cid.0 as int] < u32::MAX ==> final(self).locks()
                == old(self).locks().update(cid.0 as int, (old(self).locks()[cid.0 as int] + 1) as u32),
            cid.0 < old(self).clauses().len() && old(self).locks()[cid.0 as int] == u32::MAX ==> final(self).locks() == old(self).locks(),
            cid.0 >= old(self).clauses().len() ==> final(self).locks() == old(self).locks(),
    {
        if cid.0 < self.locks.len() {
            let count = self.locks[cid.0];
            self.locks.set(cid.0, count.saturating_add(1));
        }
    }

    /// Removes one implication registration of the clause.
    pub fn unlock(&mut self, cid: ClauseId)
        requires
            old(self).wf(),
        ensures
            final(self).wf(),
            final(self).clauses() == old(self).clauses(),
            cid.0 < old(self).clauses().len() && old(self).locks()[cid.0 as int] > 0 ==> final(self).locks()
                == old(self).locks().update(cid.0 as int, (old(self).locks()[cid.0 as int] - 1) as u32),
            cid.0 < old(self).clauses().len() && old(self).locks()[cid.0 as int] == 0 ==> final(self).locks() == old(self).locks(),
            cid.0 >= old(self).clauses().len() ==> final(self).locks() == old(self).locks(),
    {
        if cid.0 < self.locks.len() {
            let count = self.locks[cid.0];
            if count > 0 {
                self.locks.set(cid.0, count - 1);
            }
        }
    }

    /// Whether the clause is currently registered as an implication clause.
    pub fn is_locked(&self, cid: ClauseId) -> (locked: bool)
        requires
            self.wf(),
        ensures
            locked == (cid.0 < self.clauses().len() && self.locks()[cid.0 as int] > 0),
    {
        cid.0 < self.locks.len() && self.locks[cid.0] > 0
    }

    /// Deletes the clause, freeing its literal storage.
    pub fn delete(&mut self, cid: ClauseId)
        requires
            old(self).wf(),
        ensures
            final(self).wf(),
            final(self).locks() == old(self).locks(),
            final(self).clauses() == (if cid.0 < old(self).clauses().len() {
                old(self).clauses().update(cid.0 as int, None)
            } else {
                old(self).clauses()
            }),
    {
        if cid.0 < self.clauses.len() {
            self.clauses.set(cid.0, None);
            assert(self.clauses() =~= old(self).clauses().update(cid.0 as int, None));
        }
    }
}

} // verus!
