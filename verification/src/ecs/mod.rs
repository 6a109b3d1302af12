//! Entity components: health, action points, status effects, bosses and loot.

pub mod components;
pub mod world;
