pub mod dimacs;
pub mod influence;
pub mod solver;
pub mod sorter;
