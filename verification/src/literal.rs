//! Variables and literals.
use vstd::prelude::*;

pub mod db;

verus! {

/// The largest index a variable can have.
pub const MAX_INDEX: u32 = 2_147_483_646;

/// A Boolean variable.
#[derive(Debug, Clone, Copy, PartialEq, Eq, PartialOrd, Ord, Hash, Structural)]
pub struct Var {
    pub(crate) index: u32,
}

impl Var {
    #[verifier::type_invariant]
    pub(crate) closed spec fn inv(self) -> bool {
        self.index <= MAX_INDEX
    }

    /// The 0-based index of the variable.
    pub closed spec fn id(self) -> int {
        self.index as int
    }

    /// The variable with the largest index.
    pub fn max_var() -> (var: Var)
        ensures
            var.id() == MAX_INDEX,
    {
        Var { index: MAX_INDEX }
    }

    /// The variable with the given 0-based index.
    pub fn from_index(index: u32) -> (var: Var)
        requires
            index <= MAX_INDEX,
        ensures
            var.id() == index,
    {
        Var { index }
    }

    /// The variable with the given 1-based DIMACS number.
    pub fn from_dimacs(var: i32) -> (result: Var)
        requires
            var > 0,
        ensures
            result.id() == var - 1,
            result.dimacs() == var,
    {
        Var { index: (var - 1) as u32 }
    }

    /// The 1-based DIMACS number of the variable.
    pub open spec fn dimacs(self) -> int {
        self.id() + 1
    }

    /// The 1-based DIMACS number of the variable.
    pub fn to_dimacs(self) -> (number: i32)
        ensures
            number == self.dimacs(),
            number > 0,
    {
        proof {
            use_type_invariant(self);
        }
        (self.index + 1) as i32
    }

    /// The 0-based index of the variable.
    pub fn as_index(self) -> (index: usize)
        ensures
            index == self.id(),
            index <= MAX_INDEX,
    {
        proof {
            use_type_invariant(self);
        }
        self.index as usize
    }

    /// The positive literal of the variable.
    pub fn positive(self) -> (lit: Lit)
        ensures
            lit.v() == self,
            lit.pos(),
    {
        Lit::positive(self)
    }

    /// The negative literal of the variable.
    pub fn negative(self) -> (lit: Lit)
        ensures
            lit.v() == self,
            !lit.pos(),
    {
        Lit::negative(self)
    }
}

/// A variable or its negation. Literals of one variable are neighbours:
/// the positive one has the even index.
#[derive(Debug, Clone, Copy, PartialEq, Eq, PartialOrd, Ord, Hash, Structural)]
pub struct Lit {
    pub(crate) repr: u32,
}

impl Lit {
    #[verifier::type_invariant]
    pub(crate) closed spec fn inv(self) -> bool {
        self.repr <= 4_294_967_293
    }

    /// The variable of the literal.
    pub closed spec fn v(self) -> Var {
        Var { index: (self.repr / 2) as u32 }
    }

    /// Whether the literal is positive.
    pub closed spec fn pos(self) -> bool {
        self.repr % 2 == 0
    }

    /// The literal of the same variable with the opposite polarity.
    pub closed spec fn neg(self) -> Lit {
        Lit { repr: if self.repr % 2 == 0 { (self.repr + 1) as u32 } else { (self.repr - 1) as u32 } }
    }

    /// The 0-based index of the literal.
    pub closed spec fn id(self) -> int {
        self.repr as int
    }

    /// The literal in DIMACS numbering: positive literals are the number
    /// of their variable, negative ones its negation.
    pub open spec fn dimacs(self) -> int {
        if self.pos() {
            self.v().dimacs()
        } else {
            -self.v().dimacs()
        }
    }

    /// The literal of `variable` with the given polarity.
    pub fn from_var(variable: Var, polarity: bool) -> (lit: Lit)
        ensures
            lit.v() == variable,
            lit.pos() == polarity,
    {
        proof {
            use_type_invariant(variable);
        }
        if polarity {
            Lit { repr: variable.index * 2 }
        } else {
            Lit { repr: variable.index * 2 + 1 }
        }
    }

    /// The positive literal of `variable`.
    pub fn positive(variable: Var) -> (lit: Lit)
        ensures
            lit.v() == variable,
            lit.pos(),
    {
        Lit::from_var(variable, true)
    }

    /// The negative literal of `variable`.
    pub fn negative(variable: Var) -> (lit: Lit)
        ensures
            lit.v() == variable,
            !lit.pos(),
    {
        Lit::from_var(variable, false)
    }

    /// The variable of the literal.
    pub fn var(self) -> (var: Var)
        ensures
            var == self.v(),
    {
        proof {
            use_type_invariant(self);
        }
        Var { index: self.repr / 2 }
    }

    /// Whether the literal is negative.
    pub fn is_negative(self) -> (negative: bool)
        ensures
            negative == !self.pos(),
    {
        self.repr % 2 == 1
    }

    /// Whether the literal is positive.
    pub fn is_positive(self) -> (positive: bool)
        ensures
            positive == self.pos(),
    {
        self.repr % 2 == 0
    }

    /// The literal of the same variable with the opposite polarity.
    pub fn negated(self) -> (lit: Lit)
        ensures
            lit == self.neg(),
            lit.v() == self.v(),
            lit.pos() == !self.pos(),
    {
        proof {
            use_type_invariant(self);
        }
        if self.repr % 2 == 0 {
            Lit { repr: self.repr + 1 }
        } else {
            Lit { repr: self.repr - 1 }
        }
    }

    /// The literal with the given DIMACS number.
    pub fn from_dimacs(lit: i32) -> (result: Lit)
        requires
            lit != 0,
            lit != i32::MIN,
        ensures
            result.dimacs() == lit,
            result.pos() == (lit > 0),
    {
        let number: i32 = if lit > 0 {
            lit
        } else {
            -lit
        };
        Lit::from_var(Var::from_dimacs(number), lit > 0)
    }

    /// The DIMACS number of the literal.
    pub fn to_dimacs(self) -> (number: i32)
        ensures
            number == self.dimacs(),
            number != 0,
            number != i32::MIN,
    {
        if self.is_negative() {
            -self.var().to_dimacs()
        } else {
            self.var().to_dimacs()
        }
    }

    /// The 0-based index of the literal.
    pub fn as_index(self) -> (index: usize)
        ensures
            index == self.id(),
            index <= 2 * MAX_INDEX + 1,
    {
        proof {
            use_type_invariant(self);
        }
        self.repr as usize
    }

    /// The literal with the given 0-based index.
    pub fn from_index(index: usize) -> (lit: Lit)
        requires
            index <= 2 * MAX_INDEX + 1,
        ensures
            lit.id() == index,
    {
        Lit { repr: index as u32 }
    }
}

/// The opposite literal has the same variable and the other polarity, and
/// negating twice gives the literal back.
pub broadcast proof fn lemma_neg(l: Lit)
    ensures
        (#[trigger] l.neg()).v() == l.v(),
        l.neg().pos() == !l.pos(),
        l.neg().neg() == l,
{
}

/// A literal is its variable and its polarity.
pub proof fn lemma_lit_ext(l: Lit, m: Lit)
    requires
        l.v() == m.v(),
        l.pos() == m.pos(),
    ensures
        l == m,
{
}

/// Indices are numbers of 32 bits.
pub broadcast proof fn lemma_var_id(x: Var)
    ensures
        0 <= #[trigger] x.id() <= u32::MAX,
{
}

/// The facts about literals that proofs use throughout.
pub broadcast group group_literal {
    lemma_neg,
    lemma_var_id,
    lemma_lit_id,
}

/// A variable is its index.
pub proof fn lemma_var_ext(x: Var, y: Var)
    requires
        x.id() == y.id(),
    ensures
        x == y,
{
}

/// The index of a literal is twice that of its variable, plus one for the
/// negative polarity.
pub broadcast proof fn lemma_lit_id(l: Lit)
    ensures
        #[trigger] l.id() == 2 * l.v().id() + if l.pos() { 0int } else { 1int },
{
}

/// The literal of a variable with the given polarity.
pub closed spec fn lit_of(x: Var, polarity: bool) -> Lit {
    Lit { repr: if polarity { (2 * x.index) as u32 } else { (2 * x.index + 1) as u32 } }
}

/// A literal is found by its variable, if the index is in range.
pub proof fn lemma_lit_of(x: Var, polarity: bool)
    requires
        x.id() <= MAX_INDEX + 1,
    ensures
        lit_of(x, polarity).v() == x,
        lit_of(x, polarity).pos() == polarity,
{
}

/// The variable with the given DIMACS number.
pub closed spec fn var_of(number: int) -> Var {
    Var { index: (number - 1) as u32 }
}

/// Variables are found again by their DIMACS number.
pub broadcast proof fn lemma_var_of(x: Var)
    ensures
        var_of(#[trigger] x.dimacs()) == x,
        x.dimacs() > 0,
{
}

/// The variable with a DIMACS number has the index before it.
pub proof fn lemma_var_index(index: int)
    requires
        0 <= index <= u32::MAX,
    ensures
        var_of(index + 1).id() == index,
{
}

/// DIMACS numbers of literals are read back as they are written.
pub proof fn law_dimacs_is_injective(l: Lit, m: Lit)
    requires
        l.dimacs() == m.dimacs(),
    ensures
        l == m,
{
}

} // verus!
