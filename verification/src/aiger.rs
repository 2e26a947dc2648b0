//! QAIGER input: 2QBF instances and safety games given as AIGER circuits.
//!
//! A 2QBF instance is an ASCII AIGER circuit whose inputs are quantified by
//! their names: controllable inputs are existential, the others universal,
//! and the instance asks whether the outputs can be made true. A sequential
//! circuit is a safety game: its outputs are error signals that the
//! controllable inputs have to keep false.
pub mod alternating;
pub mod builder;
pub mod built;
pub mod causal;
pub mod circuit;
pub mod control;
pub mod cover;
pub mod explicit;
pub mod families;
pub mod listing;
pub mod parse;
pub mod qaiger;
pub mod safety;
pub mod unroll;

pub use explicit::losing_states;
pub use parse::ParseError;
pub use qaiger::parse_qaiger;
pub use safety::{solve_safety, solve_safety_with_continuation, SafetyOutcome};
pub use unroll::Unroller;
