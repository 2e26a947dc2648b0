//! Quantifiers and quantifier scopes.
use crate::literal::db::{VariableData, VariableDatabase};
use crate::literal::Var;
use vstd::prelude::*;

verus! {

/// The two quantifiers.
#[derive(Debug, Clone, Copy, PartialEq, Eq, Hash, Structural)]
pub enum QuantTy {
    Forall,
    Exists,
}

impl QuantTy {
    /// The other quantifier.
    pub open spec fn spec_dual(self) -> QuantTy {
        match self {
            QuantTy::Forall => QuantTy::Exists,
            QuantTy::Exists => QuantTy::Forall,
        }
    }

    /// The other quantifier.
    pub fn dual(self) -> (quant: QuantTy)
        ensures
            quant == self.spec_dual(),
    {
        match self {
            QuantTy::Forall => QuantTy::Exists,
            QuantTy::Exists => QuantTy::Forall,
        }
    }
}

/// A quantifier scope; the number is its place in the prefix, and scope 0
/// holds the variables that no quantifier binds.
#[derive(Debug, Clone, Copy, PartialEq, Eq, Structural)]
pub struct ScopeId(pub u32);

/// The kind of a scope.
#[derive(Debug, Clone, Copy, PartialEq, Eq, Structural)]
pub enum ScopeTy {
    Existential,
    Universal,
    Unbound,
}

/// The scopes of a prefix, outermost first.
#[derive(Debug)]
pub struct ScopeDatabase {
    scopes: Vec<(ScopeTy, Vec<Var>)>,
}

impl ScopeDatabase {
    /// The kinds of the scopes and the variables they bind.
    pub closed spec fn scopes(&self) -> Seq<(ScopeTy, Seq<Var>)> {
        Seq::new(self.scopes@.len(), |i: int| (self.scopes@[i].0, self.scopes@[i].1@))
    }

    /// There is a scope for unbound variables.
    pub open spec fn wf(&self) -> bool {
        0 < self.scopes().len() <= u32::MAX && self.scopes()[0].0 == ScopeTy::Unbound
    }

    /// Only the scope of the unbound variables.
    pub fn new() -> (db: ScopeDatabase)
        ensures
            db.wf(),
            db.scopes() == seq![(ScopeTy::Unbound, Seq::<Var>::empty())],
    {
        let mut scopes: Vec<(ScopeTy, Vec<Var>)> = Vec::new();
        scopes.push((ScopeTy::Unbound, Vec::new()));
        let db = ScopeDatabase { scopes };
        assert(db.scopes() =~= seq![(ScopeTy::Unbound, Seq::<Var>::empty())]);
        db
    }

    /// Opens a new innermost scope.
    pub fn new_quantifier(&mut self, quant: QuantTy) -> (scope: ScopeId)
        requires
            old(self).wf(),
            old(self).scopes().len() < u32::MAX,
        ensures
            final(self).wf(),
            scope.0 == old(self).scopes().len(),
            final(self).scopes() == old(self).scopes().push((kind_of(quant), Seq::<Var>::empty())),
    {
        let scope = ScopeId(self.scopes.len() as u32);
        let kind = match quant {
            QuantTy::Forall => ScopeTy::Universal,
            QuantTy::Exists => ScopeTy::Existential,
        };
        self.scopes.push((kind, Vec::new()));
        assert(self.scopes() =~= old(self).scopes().push((kind, Seq::<Var>::empty())));
        scope
    }

    /// Binds a variable in a scope.
    pub fn bind_variable(&mut self, vars: &mut VariableDatabase, scope: ScopeId, variable: Var)
        requires
            old(self).wf(),
            scope.0 < old(self).scopes().len(),
            variable.dimacs() <= old(vars)@.len(),
        ensures
            final(self).wf(),
            final(self).scopes() == old(self).scopes().update(
                scope.0 as int,
                (old(self).scopes()[scope.0 as int].0, old(self).scopes()[scope.0 as int].1.push(variable)),
            ),
            final(vars)@ == old(vars)@.update(
                variable.dimacs() - 1,
                (VariableData { scope: Some(scope), ty: old(self).scopes()[scope.0 as int].0 }),
            ),
    {
        let ghost before = *self;
        let place = scope.0 as usize;
        let ty = self.scopes[place].0;
        vars.set(variable, VariableData { scope: Some(scope), ty });
        self.scopes[place].1.push(variable);
        proof {
            let bound = before.scopes()[place as int];
            assert(self.scopes() =~= before.scopes().update(place as int, (bound.0, bound.1.push(variable))));
        }
    }
}

/// The kind of a quantifier's scope.
pub open spec fn kind_of(quant: QuantTy) -> ScopeTy {
    match quant {
        QuantTy::Forall => ScopeTy::Universal,
        QuantTy::Exists => ScopeTy::Existential,
    }
}

} // verus!
