//! Procedural dungeon generation.

pub mod generator;

pub use generator::{generate, DungeonConfig, DungeonResult, DungeonTile};
