//! A 9x9 sudoku solver: a constraint-checked board, two backtracking search
//! strategies that share one protocol, and the decision logic of a throttled
//! renderer. Every function is verified against the contracts it states.

pub mod cli;
pub mod sudoku;
