//! A solver for standard 9x9 Sudoku puzzles: the grid model with its
//! placement predicate, a depth-first backtracking search, and the text
//! format that puzzles are read from and printed in.

pub mod grid;
pub mod solver;
pub mod text;
