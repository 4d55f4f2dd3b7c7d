pub mod difficulty;
pub mod grid;
pub mod puzzle;
pub mod solver;
