//! Rule engine for a sliding-tile merge puzzle played on a square grid.
//!
//! The engine owns the grid of tile values and the score. Moves are built
//! from three primitives — compressing each row toward the low indices,
//! merging equal adjacent cells, and the two reflections (row reversal and
//! transposition) that reduce all four directions to one canonical pass.

pub mod engine;
pub mod grid_ops;
pub mod row_ops;
