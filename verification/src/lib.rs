//! A solver for quantified Boolean formulas.
//!
//! Every verdict is stated against one mathematical model: the truth of a
//! prenex formula as a game between the two quantifiers (see
//! [`semantics`]).
use vstd::prelude::*;

pub mod agreement;
pub mod aiger;
pub mod alternation;
pub mod bdd;
pub mod clause;
pub mod cli;
pub mod compose;
pub mod datastructure;
pub mod defined;
pub mod effort;
pub mod encodings;
pub mod expand;
pub mod incdet;
pub mod incremental;
pub mod laws;
pub mod literal;
pub mod normal;
pub mod parity;
pub mod probe;
pub mod qcdcl;
pub mod qcir;
pub mod qcnf;
pub mod quantifier;
pub mod random;
pub mod reduction;
pub mod render;
pub mod sat;
pub mod scan;
pub mod semantics;
pub mod shared;
pub mod simplify;
pub mod skolem_text;
pub mod smt;
pub mod strategy;
pub mod strategy_check;
pub mod strategy_circuit;
pub mod text;
pub mod workloads;
pub mod written;

pub use quantifier::QuantTy;

verus! {

/// The verdict of a solver run.
#[derive(Debug, Clone, Copy, PartialEq, Eq, Structural)]
pub enum SolverResult {
    Satisfiable,
    Unsatisfiable,
    Unknown,
}

impl SolverResult {
    /// The exit code a solver process reports for the verdict.
    pub open spec fn spec_code(self) -> u8 {
        match self {
            SolverResult::Satisfiable => 10,
            SolverResult::Unsatisfiable => 20,
            SolverResult::Unknown => 30,
        }
    }

    /// The exit code a solver process reports for the verdict.
    pub fn code(self) -> (code: u8)
        ensures
            code == self.spec_code(),
            self == SolverResult::Satisfiable ==> code == 10,
            self == SolverResult::Unsatisfiable ==> code == 20,
            self == SolverResult::Unknown ==> code == 30,
    {
        match self {
            SolverResult::Satisfiable => 10,
            SolverResult::Unsatisfiable => 20,
            SolverResult::Unknown => 30,
        }
    }

    /// The word printed for the verdict.
    pub open spec fn spec_name(self) -> Seq<char> {
        match self {
            SolverResult::Satisfiable => "satisfiable"@,
            SolverResult::Unsatisfiable => "unsatisfiable"@,
            SolverResult::Unknown => "unknown"@,
        }
    }

    /// The word printed for the verdict.
    pub fn name(self) -> (name: &'static str)
        ensures
            name@ == self.spec_name(),
            self == SolverResult::Satisfiable ==> name@ == "satisfiable"@,
            self == SolverResult::Unsatisfiable ==> name@ == "unsatisfiable"@,
            self == SolverResult::Unknown ==> name@ == "unknown"@,
    {
        match self {
            SolverResult::Satisfiable => "satisfiable",
            SolverResult::Unsatisfiable => "unsatisfiable",
            SolverResult::Unknown => "unknown",
        }
    }

    /// The verdict of the negated instance.
    pub open spec fn spec_negated(self) -> SolverResult {
        match self {
            SolverResult::Satisfiable => SolverResult::Unsatisfiable,
            SolverResult::Unsatisfiable => SolverResult::Satisfiable,
            SolverResult::Unknown => SolverResult::Unknown,
        }
    }

    /// The verdict of the negated instance.
    pub fn negated(self) -> (verdict: SolverResult)
        ensures
            verdict == self.spec_negated(),
            self == SolverResult::Satisfiable <==> verdict == SolverResult::Unsatisfiable,
            self == SolverResult::Unsatisfiable <==> verdict == SolverResult::Satisfiable,
            self == SolverResult::Unknown <==> verdict == SolverResult::Unknown,
    {
        match self {
            SolverResult::Satisfiable => SolverResult::Unsatisfiable,
            SolverResult::Unsatisfiable => SolverResult::Satisfiable,
            SolverResult::Unknown => SolverResult::Unknown,
        }
    }
}

} // verus!
