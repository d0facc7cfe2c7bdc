//! Placement and line-clearing engine of a block puzzle: shapes are taken from a
//! panel of three and dropped on a square board; full rows and columns clear
//! and score, and the level advances once the target score is reached.
pub mod shapes;
pub mod board;
pub mod space;
pub mod panel;
pub mod game;
pub mod systems;
