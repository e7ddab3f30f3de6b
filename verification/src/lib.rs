pub mod grid;
pub mod backtracking;
pub mod propagation;
