//! The state engine of a terminal snake game: a snake that moves one cell
//! per tick on a bordered board, grows when it eats, and ends the game when
//! it leaves the playable area or runs into itself.

pub mod direction;
mod rng;
pub mod board;
pub mod game;
pub mod laws;

pub use board::Cell;
pub use direction::Direction;
pub use game::{BoardError, Game, FOOD_TARGET, MAX_ATTEMPTS};
