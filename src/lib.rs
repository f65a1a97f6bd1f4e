//! Exhaustive combinatorial search: a backtracking sudoku solver, lazy
//! permutation and combination enumerators, and a word search built on them.

pub mod combinatorics;
pub mod service;
pub mod sudoku;
pub mod text;
pub mod words;
