//! What the variables are assigned.
use crate::datastructure::VarMap;
use crate::literal::{Lit, Var};
use vstd::prelude::*;

verus! {

/// What a variable is assigned: a constant, or the function "the literal
/// of this sign holds iff one of its implications fires".
#[derive(Debug, Clone, Copy, PartialEq, Eq, Structural)]
pub enum Value {
    True,
    False,
    PositiveImplications,
    NegativeImplications,
}

/// The values of the assigned variables.
#[derive(Debug)]
pub struct Assignment {
    values: VarMap<Value>,
}

impl View for Assignment {
    type V = Map<Var, Value>;

    closed spec fn view(&self) -> Map<Var, Value> {
        self.values@
    }
}

/// The constant value of a literal, if it has one.
pub open spec fn constant_of(values: Map<Var, Value>, lit: Lit) -> Option<bool> {
    if !values.contains_key(lit.v()) {
        None
    } else {
        match values[lit.v()] {
            Value::True => Some(lit.pos()),
            Value::False => Some(!lit.pos()),
            _ => None,
        }
    }
}

impl Assignment {
    /// Nothing is assigned.
    pub fn new() -> (assignment: Assignment)
        ensures
            assignment@ == Map::<Var, Value>::empty(),
    {
        Assignment { values: VarMap::new() }
    }

    /// What a variable is assigned.
    pub fn get(&self, var: Var) -> (value: Option<Value>)
        ensures
            value == (if self@.contains_key(var) {
                Some(self@[var])
            } else {
                None
            }),
    {
        self.values.get(var)
    }

    /// Whether a variable is assigned.
    pub fn is_assigned(&self, var: Var) -> (assigned: bool)
        ensures
            assigned == self@.contains_key(var),
    {
        self.values.contains_key(var)
    }

    /// The constant value of a literal, if it has one.
    pub fn constant_value(&self, lit: Lit) -> (value: Option<bool>)
        ensures
            value == constant_of(self@, lit),
    {
        match self.values.get(lit.var()) {
            Some(Value::True) => Some(lit.is_positive()),
            Some(Value::False) => Some(!lit.is_positive()),
            _ => None,
        }
    }

    /// Makes a literal constantly true.
    pub fn assign_constant(&mut self, lit: Lit)
        ensures
            final(self)@ == old(self)@.insert(lit.v(), if lit.pos() { Value::True } else { Value::False }),
    {
        let value = if lit.is_positive() {
            Value::True
        } else {
            Value::False
        };
        self.values.insert(lit.var(), value);
    }

    /// Gives a literal the function of its implications.
    pub fn assign_function(&mut self, lit: Lit)
        ensures
            final(self)@ == old(self)@.insert(
                lit.v(),
                if lit.pos() { Value::PositiveImplications } else { Value::NegativeImplications },
            ),
    {
        let value = if lit.is_positive() {
            Value::PositiveImplications
        } else {
            Value::NegativeImplications
        };
        self.values.insert(lit.var(), value);
    }

    /// Forgets what a variable is assigned.
    pub fn unassign(&mut self, var: Var)
        ensures
            final(self)@ == old(self)@.remove(var),
    {
        self.values.remove(var);
    }
}

} // verus!
