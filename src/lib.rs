//! Verified search and sorting routines over flat integer sequences: a
//! backtracking solver for square Sudoku grids of any square side, and four
//! classic in-place or out-of-place sorts.

pub mod grid;
pub mod sudoku;
pub mod sorting;
pub mod insertion_sort;
pub mod heap_sort;
pub mod merge_sort;
pub mod counting_sort;
pub mod grid_text;
pub mod abi;
pub mod programs;
