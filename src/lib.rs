//! Rule engine of a Minesweeper game: mine placement, flood-fill and chord
//! opening, flags, and the loss state.
pub mod board;
pub mod geometry;
pub mod laws;
pub mod random;

pub use board::{Minesweeper, OpenResult};
pub use geometry::Position;
pub use random::random_range;
