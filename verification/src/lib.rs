//! A small arithmetic-puzzle library.
//!
//! A puzzle is a seed number followed by a fixed-length chain of
//! `(operator, operand)` steps.  The library generates random puzzles,
//! evaluates them by a strict left-to-right fold (with truncating integer
//! division), renders them as text, parses that text back, and produces
//! the verdict string for a player's answer.

pub mod puzzle;
mod rng;
pub mod parse;
pub mod render;
pub mod session;
pub mod solve;

pub use parse::parse_puzzle;
pub use puzzle::random_op;
pub use puzzle::random_step;
pub use puzzle::Op;
pub use puzzle::Puzzle;
pub use puzzle::Step;
pub use puzzle::MAX_STEPS;
pub use puzzle::STEPS_PER_PUZZLE;
pub use session::check_answer;
pub use solve::solve_puzzle;
