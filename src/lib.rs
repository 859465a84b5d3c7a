//! Conway's Game of Life on an unbounded plane, with a sparse field of alive cells.
pub mod cell;
pub mod field;
pub mod text;

pub use cell::Cell;
pub use field::Field;
