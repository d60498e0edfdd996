//! Conway's Game of Life with cell ageing, on a toroidal grid.

pub mod rules;
pub mod universe;

pub use universe::{GridError, Universe};
