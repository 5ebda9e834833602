//! Rules engine of a grid-based mine-finding puzzle.

pub mod board;
pub mod engine;
pub mod error;
pub mod grid;
pub mod position;
pub mod random;
pub mod sprites;
pub mod theorems;
pub mod tile;
