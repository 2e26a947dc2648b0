//! Clauses of two literals.
use crate::datastructure::Rows;
use crate::literal::Lit;
use vstd::prelude::*;

verus! {

broadcast use crate::literal::group_literal;

/// Binary clauses, kept as the implications they stand for.
#[derive(Debug)]
pub struct BinaryClauses {
    by_lit: Rows<Lit>,
    clauses: Vec<(Lit, Lit)>,
}

/// What a literal implies by the clauses, in order of addition.
pub open spec fn consequences(clauses: Seq<(Lit, Lit)>, lit: Lit) -> Seq<Lit>
    decreases clauses.len(),
{
    if clauses.len() == 0 {
        Seq::empty()
    } else {
        let before = consequences(clauses.drop_last(), lit);
        let (a, b) = clauses.last();
        let first = if a.neg() == lit {
            before.push(b)
        } else {
            before
        };
        if b.neg() == lit {
            first.push(a)
        } else {
            first
        }
    }
}

impl BinaryClauses {
    /// The clauses.
    pub closed spec fn clauses(&self) -> Seq<(Lit, Lit)> {
        self.clauses@
    }

    /// The implications are those of the clauses.
    pub closed spec fn wf(&self) -> bool {
        forall|lit: Lit| #[trigger] self.by_lit.row(lit.id()) == consequences(self.clauses@, lit)
    }

    /// No clauses.
    pub fn new() -> (clauses: BinaryClauses)
        ensures
            clauses.wf(),
            clauses.clauses() == Seq::<(Lit, Lit)>::empty(),
    {
        BinaryClauses { by_lit: Rows::new(), clauses: Vec::new() }
    }

    /// Adds a binary clause.
    pub fn insert(&mut self, a: Lit, b: Lit)
        requires
            old(self).wf(),
        ensures
            final(self).wf(),
            final(self).clauses() == old(self).clauses().push((a, b)),
    {
        let ghost before = self.clauses@;
        self.by_lit.push(a.negated().as_index(), b);
        self.by_lit.push(b.negated().as_index(), a);
        self.clauses.push((a, b));
        proof {
            assert(self.clauses@.drop_last() =~= before);
            assert forall|lit: Lit| #[trigger] self.by_lit.row(lit.id()) == consequences(self.clauses@, lit) by {
                assert(old(self).by_lit.row(lit.id()) == consequences(before, lit));
                if lit.id() == a.neg().id() {
                    crate::datastructure::lemma_lit_id_ext(lit, a.neg());
                }
                if lit.id() == b.neg().id() {
                    crate::datastructure::lemma_lit_id_ext(lit, b.neg());
                }
            }
        }
    }

    /// Implications of a given literal.
    pub fn implied(&self, lit: Lit) -> (lits: Vec<Lit>)
        requires
            self.wf(),
        ensures
            lits@ == consequences(self.clauses(), lit),
    {
        let lits = self.by_lit.copy(lit.as_index());
        assert(self.by_lit.row(lit.id()) == consequences(self.clauses@, lit));
        lits
    }

    /// Number of binary clauses.
    pub fn count(&self) -> (count: usize)
        ensures
            count == self.clauses().len(),
    {
        self.clauses.len()
    }
}

} // verus!
