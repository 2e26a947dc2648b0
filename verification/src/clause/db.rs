//! Clause database.
use crate::clause::allocator::ClauseId;
use vstd::prelude::*;

verus! {

/// The names of the clauses of a solver, in order of addition.
#[derive(Debug)]
pub struct ClauseDatabase {
    clauses: Vec<ClauseId>,
}

impl View for ClauseDatabase {
    type V = Seq<ClauseId>;

    closed spec fn view(&self) -> Seq<ClauseId> {
        self.clauses@
    }
}

impl ClauseDatabase {
    /// An empty database.
    pub fn new() -> (db: ClauseDatabase)
        ensures
            db@ == Seq::<ClauseId>::empty(),
    {
        ClauseDatabase { clauses: Vec::new() }
    }

    /// Makes room for a number of clauses.
    pub fn set_num_clauses(&mut self, num_clauses: u32)
        ensures
            final(self)@ == old(self)@,
    {
        self.clauses.reserve(num_clauses as usize);
    }

    /// The number of clauses.
    pub fn num_clauses(&self) -> (count: usize)
        ensures
            count == self@.len(),
    {
        self.clauses.len()
    }

    /// The names of the clauses.
    pub fn ids(&self) -> (ids: &Vec<ClauseId>)
        ensures
            ids@ == self@,
    {
        &self.clauses
    }

    /// Adds a clause.
    pub fn insert(&mut self, clause: ClauseId)
        ensures
            final(self)@ == old(self)@.push(clause),
    {
        self.clauses.push(clause);
    }
}

} // verus!
