//! A minesweeper board model with verified mine placement, flood reveal and
//! flag handling, plus a mapping from world-space points to grid cells.

pub mod layout;
pub mod board;
pub mod count;
pub mod random;
