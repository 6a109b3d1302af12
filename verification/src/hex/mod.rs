//! Hex coordinate system and grid operations.

pub mod algorithms;
pub mod coord;
pub mod grid;

pub use algorithms::{cone, line_of_sight, pathfind, range, ring, Tile};
pub use coord::{direction, Hex};
pub use grid::HexGrid;
