//! Cryptarithmetic puzzles: words whose letters stand for distinct decimal
//! digits, such that the operand words add up to the result word.

pub mod arrangements;
pub mod input;
pub mod letters;
pub mod solver;
pub mod value;

pub use input::inputs;
pub use solver::solve_crypto_arithmetic;
pub use value::{is_valid_solution, word_to_number};
