//! Clauses.
use crate::literal::Lit;
use crate::semantics::{clause_true, matrix_true, Assignment, Matrix};
use vstd::prelude::*;

pub mod allocator;
pub mod binary;
pub mod db;

verus! {

/// A disjunction of literals.
#[derive(Debug)]
pub struct Clause {
    lits: Vec<Lit>,
}

impl View for Clause {
    type V = Seq<Lit>;

    closed spec fn view(&self) -> Seq<Lit> {
        self.lits@
    }
}

impl Clause {
    /// A clause with the given literals.
    pub fn new(literals: &[Lit]) -> (clause: Clause)
        ensures
            clause@ == literals@,
    {
        let mut lits: Vec<Lit> = Vec::new();
        let mut k: usize = 0;
        while k < literals.len()
            invariant
                k <= literals@.len(),
                lits@ =~= literals@.take(k as int),
            decreases literals.len() - k,
        {
            lits.push(literals[k]);
            k += 1;
        }
        assert(literals@.take(literals@.len() as int) =~= literals@);
        Clause { lits }
    }

    /// The literals of the clause.
    pub fn lits(&self) -> (lits: &Vec<Lit>)
        ensures
            lits@ == self@,
    {
        &self.lits
    }

    /// Whether the clause contains the literal.
    pub fn contains(&self, lit: Lit) -> (found: bool)
        ensures
            found == self@.contains(lit),
    {
        crate::simplify::contains_lit(&self.lits, lit)
    }
}

/// The clauses imply the clause.
pub open spec fn implied(m: Matrix, c: Seq<Lit>) -> bool {
    forall|a: Assignment| #[trigger] matrix_true(a, m) ==> clause_true(a, c)
}

} // verus!
