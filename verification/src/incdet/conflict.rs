//! Conflicts: their detection and their analysis.
pub mod analysis;
pub mod check;
