//! A DPLL satisfiability solver for CNF formulas, built around two-watched-literal
//! unit propagation, a trail-based undo log, paired-variable branching and
//! failed-literal implication probing.

pub mod clause;
pub mod construct;
pub mod frames;
pub mod logic;
pub mod propagate;
pub mod search;
pub mod solver;
