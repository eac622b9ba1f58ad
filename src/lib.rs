//! The state engine of a sliding tile puzzle on an N×N grid.

pub mod game;
pub mod pattern;

pub use game::{Game, Input, Outcome};
pub use pattern::{Direction, Pattern};
