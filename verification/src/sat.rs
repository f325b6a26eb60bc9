pub mod assignments;
pub mod cnf;
pub mod entail;
pub mod enumerate;
pub mod clauses;
pub mod heuristic;
pub mod lits;
pub mod solver;
