//! A solitaire tile-placement game as a search problem: the board, its legal
//! moves, the rule that completes a tile's tasks, and the scoring and hashing
//! that a Monte-Carlo tree search needs from a game.

pub mod backend;
pub mod nova_luna;
pub mod settings;
pub mod solver;

pub use settings::SolverParameters;
