//! A 9x9 Sudoku engine: peer topology, per-cell candidate domains with
//! checkpointed assignment and exact undo, a minimum-remaining-values
//! selector, a backtracking solver, a feasibility probe and a puzzle generator.

pub mod topology;
pub mod board;
pub mod search;
pub mod generate;
pub mod input;
