# Hexcaster

A tactical roguelike on hex grids with spell-crafting, whose game logic is a
library verified with Verus.

- `src/` is the verified library: hex coordinates, grids and algorithms
  (ranges, rings, cones, line of sight, shortest-walk search), dungeon
  generation, spell crafting, combat, the entity world seen through its
  components, the game's state machine, daily challenges and their share
  codes and leaderboard, achievements, unlocks, the online client's logic and
  the text the interface shows.
- `app/` is the terminal program around it: keyboard input, drawing with
  ratatui, the JSON files the stores are kept in, the serialized forms of the
  online types, and the two rules that are stated in floating point.
- `tests/` exercises the library on concrete values.

Calls into `hecs`, `rand`, `chrono` and `hmac`/`sha2` go through a
small number of trusted declarations whose contracts state what those
crates document.
