//! The game: turn rules for moving, fighting, crafting and descending, and
//! the mapping from keys to player commands.

pub mod input;
pub mod state;

pub use input::{key_to_input, Input, Key};
pub use state::{Game, GameState};
