//! Hexcaster: a tactical roguelike on hex grids with spell-crafting.
//!
//! This crate holds the game's rules: hex geometry and pathfinding, runes and
//! spells, combat arithmetic, bosses and loot, achievements, unlocks, daily
//! challenges and the score-submission format.

pub mod achievements;
pub mod combat;
pub mod daily;
pub mod dungeon;
pub mod ecs;
pub mod game;
pub mod hex;
pub mod magic;
pub mod online;
pub mod random;
pub mod ui;
pub mod unlocks;
