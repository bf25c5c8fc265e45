//! The game itself: cells, tiles, the board and the rules that change it.

pub mod board;
pub mod digest;
pub mod geometry;
pub mod laws;
pub mod picture;
pub mod region;
pub mod rules;
pub mod solving;
pub mod state;
pub mod tally;
pub mod tile;

pub use board::{Board, Extent};
pub use geometry::Position;
pub use picture::{Paint, Picture, Shape};
pub use rules::StateView;
pub use state::State;
pub use tile::{Color, Move, MoveView, Task, TaskView, Tile, TileView};
