pub mod board;
pub mod create;
pub mod generator;
pub mod geometry;
pub mod laws;
pub mod lookup;
pub mod play;
pub mod puzzle;
pub mod search;
pub mod solver;
pub mod standard;

pub use crate::board::Board;
pub use crate::puzzle::PlayResult;
pub use crate::puzzle::SolveResult;
pub use crate::puzzle::SolveStrategy;
pub use crate::puzzle::Sudoku;
