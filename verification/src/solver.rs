pub mod brancher;
pub mod stats;
pub mod theory_solver;
