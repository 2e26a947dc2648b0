//! Variable database.
use crate::literal::Var;
use crate::quantifier::{ScopeId, ScopeTy};
use vstd::prelude::*;

verus! {

/// What is known of a variable: the scope that binds it, if any, and the
/// kind of that scope.
#[derive(Debug, Clone, Copy, PartialEq, Eq, Structural)]
pub struct VariableData {
    pub scope: Option<ScopeId>,
    pub ty: ScopeTy,
}

impl VariableData {
    /// A variable that no scope binds.
    pub fn new() -> (data: VariableData)
        ensures
            data == (VariableData { scope: None, ty: ScopeTy::Unbound }),
    {
        VariableData { scope: None, ty: ScopeTy::Unbound }
    }

    pub fn existential(&self) -> (yes: bool)
        ensures
            yes == (self.ty == ScopeTy::Existential),
    {
        matches!(self.ty, ScopeTy::Existential)
    }

    pub fn unbound(&self) -> (yes: bool)
        ensures
            yes == (self.ty == ScopeTy::Unbound),
    {
        matches!(self.ty, ScopeTy::Unbound)
    }

    pub fn existential_or_unbound(&self) -> (yes: bool)
        ensures
            yes == (self.ty != ScopeTy::Universal),
    {
        matches!(self.ty, ScopeTy::Existential | ScopeTy::Unbound)
    }

    pub fn universal(&self) -> (yes: bool)
        ensures
            yes == (self.ty == ScopeTy::Universal),
    {
        matches!(self.ty, ScopeTy::Universal)
    }
}

/// The variables of a solver, by index.
#[derive(Debug)]
pub struct VariableDatabase {
    variables: Vec<VariableData>,
}

impl View for VariableDatabase {
    type V = Seq<VariableData>;

    closed spec fn view(&self) -> Seq<VariableData> {
        self.variables@
    }
}

/// The variables with indices in a range.
pub open spec fn index_range(from: int, count: nat) -> Seq<Var> {
    Seq::new(count, |i: int| crate::literal::var_of(from + i + 1))
}

impl VariableDatabase {
    /// No variables.
    pub fn new() -> (db: VariableDatabase)
        ensures
            db@ == Seq::<VariableData>::empty(),
    {
        VariableDatabase { variables: Vec::new() }
    }

    /// Adds variables that no scope binds, and returns them.
    pub fn new_variables(&mut self, num_variables: u32) -> (vars: Vec<Var>)
        requires
            old(self)@.len() + num_variables < 2_147_483_647,
        ensures
            final(self)@ == old(self)@ + Seq::new(num_variables as nat, |i: int| VariableData { scope: None, ty: ScopeTy::Unbound }),
            vars@ == index_range(old(self)@.len() as int, num_variables as nat),
    {
        let ghost before = self@;
        let mut vars: Vec<Var> = Vec::new();
        let mut k: u32 = 0;
        assert(before + Seq::new(0, |i: int| VariableData { scope: None, ty: ScopeTy::Unbound }) =~= before);
        while k < num_variables
            invariant
                k <= num_variables,
                before.len() + num_variables < 2_147_483_647,
                self@ == before + Seq::new(k as nat, |i: int| VariableData { scope: None, ty: ScopeTy::Unbound }),
                vars@ == index_range(before.len() as int, k as nat),
            decreases num_variables - k,
        {
            let next = self.next_variable();
            vars.push(next);
            self.variables.push(VariableData::new());
            k += 1;
            proof {
                crate::literal::lemma_var_of(next);
                assert(self@ =~= before + Seq::new(k as nat, |i: int| VariableData { scope: None, ty: ScopeTy::Unbound }));
                assert(vars@ =~= index_range(before.len() as int, k as nat));
            }
        }
        vars
    }

    /// The first variable that is not there yet.
    pub fn next_variable(&self) -> (var: Var)
        requires
            self@.len() < 2_147_483_647,
        ensures
            var.dimacs() == self@.len() + 1,
    {
        Var::from_dimacs(self.variables.len() as i32 + 1)
    }

    /// The number of variables.
    pub fn var_count(&self) -> (count: usize)
        ensures
            count == self@.len(),
    {
        self.variables.len()
    }

    /// What is known of a variable.
    pub fn get(&self, var: Var) -> (data: VariableData)
        requires
            var.dimacs() <= self@.len(),
        ensures
            data == self@[var.dimacs() - 1],
    {
        proof {
            crate::literal::lemma_var_of(var);
        }
        self.variables[var.as_index()]
    }

    /// Replaces what is known of a variable.
    pub fn set(&mut self, var: Var, data: VariableData)
        requires
            var.dimacs() <= old(self)@.len(),
        ensures
            final(self)@ == old(self)@.update(var.dimacs() - 1, data),
    {
        proof {
            crate::literal::lemma_var_of(var);
        }
        self.variables.set(var.as_index(), data);
    }
}

} // verus!
