//! Logic engine of a mine-detection puzzle on a rectangular grid.

pub mod bits;
pub mod grid;
pub mod board;
pub mod laws;
pub mod events;
