//! Satisfiability of 2-CNF formulas: the implication graph of the clauses,
//! its strongly connected components by two depth-first traversals, and the
//! assignment derived from the component ids.

pub mod components;
pub mod formula;
pub mod graph;
pub mod literal;
pub mod postorder;
pub mod resolve;
pub mod solver;
pub mod theorems;
pub mod traversal;

pub use solver::TwoSAT;
