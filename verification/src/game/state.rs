//! Game state and turn rules.

use hecs::{Entity, World};
use rand::rngs::StdRng;
use vstd::prelude::*;

use crate::achievements::string_views;
use crate::dungeon::generator::{covers, holds, keys_in_limit, lacks, open_tile, rooms_placed};
use crate::dungeon::{generate, DungeonConfig, DungeonTile};
use crate::ecs::components::{ticked, ActionPoints, StatusEffect};
use crate::combat::damage::without_all;
use crate::ecs::world::{
    action_points_of, despawn, entity_key, health_of, inventory_of, key_of, lying_runes,
    status_of, store_action_points, store_inventory, store_status, view_of, WorldView,
};
use crate::game::input::Input;
use crate::hex::{Hex, HexGrid, Tile};
use crate::magic::rune::{rune_name, shape_name};
use crate::magic::spell::{
    craft_spell, crafted_range, elements_of, joined_element_names, modifiers_of, shape_cost,
    shape_of,
};
use crate::ecs::components::{AIType, Display, Enemy, Health, Inventory, RunePickup, Status};
use crate::magic::{Element, Modifier, Rune, RuneKind, Shape, Spell};
use crate::random::{entropy_rng, random_below, random_index};
use crate::combat::damage::{damage_after, damaged, dead_keys, entity_at, AttackResult};
use crate::daily::{decimal, decimal_text};
use crate::ecs::world::{
    is_enemy, new_world, position_of, spawn_enemy, spawn_pickup, spawn_player, store_position,
};
use crate::hex::coord::spec_direction;

verus! {

/// Current game state.
#[derive(Debug, Clone, Copy, PartialEq, Eq, Structural)]
pub enum GameState {
    MainMenu,
    Playing { floor: i32 },
    /// Choosing a spell while on `floor`.
    SpellSelect { floor: i32 },
    /// Aiming the chosen spell while on `floor`.
    Targeting { spell_idx: usize, floor: i32 },
    EnemyTurn,
    GameOver,
    Victory,
}

/// Main game struct.
pub struct Game {
    pub state: GameState,
    pub world: World,
    pub grid: HexGrid<DungeonTile>,
    pub player: Entity,
    pub grimoire: Vec<Spell>,
    pub messages: Vec<String>,
    pub rng: StdRng,
}

/// The texts of a list of messages.
pub open spec fn texts(v: Seq<String>) -> Seq<Seq<char>> {
    string_views(v)
}

/// Every status effect can still count down.
pub open spec fn effects_ok(s: Seq<StatusEffect>) -> bool {
    forall|i: int| 0 <= i < s.len() ==> #[trigger] s[i].duration > i32::MIN
}

impl Game {
    /// The key of the player's entity.
    pub open spec fn player_key(&self) -> u64 {
        entity_key(self.player)
    }

    /// What holds of a game between turns: the grid is well formed and in
    /// range, every position is in range, no health is negative, every
    /// status can count down, the player is alive and no rune lying on the
    /// floor, and play is on one of the three floors.
    pub open spec fn wf(&self) -> bool {
        let v = view_of(self.world);
        &&& self.grid.wf()
        &&& keys_in_limit(self.grid@)
        &&& forall|k: u64| #[trigger] v.positions.contains_key(k) ==> v.positions[k].within_limit()
            && v.positions[k].is_valid()
        &&& forall|k: u64| #[trigger] v.healths.contains_key(k) ==> v.healths[k].current >= 0
        &&& forall|k: u64| #[trigger] v.statuses.contains_key(k) ==> effects_ok(v.statuses[k])
        &&& !v.pickups.contains_key(self.player_key())
        &&& v.healths.contains_key(self.player_key())
        &&& v.healths[self.player_key()].current > 0
        &&& self.state matches GameState::Playing { floor } ==> 1 <= floor <= 3
        &&& self.state matches GameState::SpellSelect { floor } ==> 1 <= floor <= 3
        &&& self.state matches GameState::Targeting { floor, .. } ==> 1 <= floor <= 3
    }
}

/// `after` is `before` with the same grid, player, spells and generator.
pub open spec fn same_setup(before: Game, after: Game) -> bool {
    &&& after.grid == before.grid
    &&& after.player == before.player
    &&& after.grimoire@ == before.grimoire@
    &&& after.rng == before.rng
}

/// The end of the player's turn: a dead player loses the game; otherwise
/// the player's effects count down and the action points refill.
pub open spec fn turn_ended(before: Game, after: Game) -> bool {
    let v = view_of(before.world);
    let k = before.player_key();
    &&& same_setup(before, after)
    &&& if v.healths.contains_key(k) && v.healths[k].current <= 0 {
        &&& after.state == GameState::GameOver
        &&& view_of(after.world) == v
        &&& texts(after.messages@) == texts(before.messages@).push("You have been slain!"@)
    } else {
        &&& after.state == before.state
        &&& after.messages@ == before.messages@
        &&& view_of(after.world) == (WorldView {
            statuses: if v.statuses.contains_key(k) {
                v.statuses.insert(k, ticked(v.statuses[k]))
            } else {
                v.statuses
            },
            action_points: if v.action_points.contains_key(k) {
                v.action_points.insert(
                    k,
                    ActionPoints { current: v.action_points[k].max, max: v.action_points[k].max },
                )
            } else {
                v.action_points
            },
            ..v
        })
    }
}

/// Push a message onto the log.
fn say(messages: &mut Vec<String>, text: &str)
    ensures
        texts(final(messages)@) == texts(old(messages)@).push(text@),
{
    let ghost before = texts(messages@);
    messages.push(String::from_str(text));
    assert(texts(messages@) =~= before.push(text@));
}

impl Game {
    /// End the player's turn. Enemies take no turn of their own here: the
    /// game has no enemy behaviour yet, so a turn ends with the player's
    /// effects and action points alone.
    pub fn end_turn(&mut self)
        requires
            old(self).wf(),
        ensures
            final(self).wf(),
            turn_ended(*old(self), *final(self)),
    {
        let ghost v = view_of(self.world);
        let dead = match health_of(&self.world, self.player) {
            Some(h) => h.is_dead(),
            None => false,
        };
        if dead {
            self.state = GameState::GameOver;
            say(&mut self.messages, "You have been slain!");
            return;
        }
        let effects = status_of(&self.world, self.player);
        if let Some(list) = effects {
            let mut status = crate::ecs::components::Status { effects: list };
            assert(effects_ok(v.statuses[self.player_key()]));
            status.tick();
            store_status(&mut self.world, self.player, status.effects);
        }
        let points = action_points_of(&self.world, self.player);
        if let Some(p) = points {
            let mut ap = p;
            ap.restore();
            store_action_points(&mut self.world, self.player, ap);
        }
        proof {
            let k = self.player_key();
            let w = view_of(self.world);
            assert(w =~= (WorldView {
                statuses: if v.statuses.contains_key(k) {
                    v.statuses.insert(k, ticked(v.statuses[k]))
                } else {
                    v.statuses
                },
                action_points: if v.action_points.contains_key(k) {
                    v.action_points.insert(
                        k,
                        ActionPoints { current: v.action_points[k].max, max: v.action_points[k].max },
                    )
                } else {
                    v.action_points
                },
                ..v
            }));
            assert forall|j: u64| #[trigger] w.statuses.contains_key(j) implies effects_ok(w.statuses[j]) by {
                if j == k && v.statuses.contains_key(k) {
                    lemma_ticked_ok(v.statuses[k]);
                }
            }
        }
    }
}

/// Counting down keeps every duration above the minimum.
proof fn lemma_ticked_ok(s: Seq<StatusEffect>)
    ensures
        effects_ok(ticked(s)),
        forall|i: int| 0 <= i < ticked(s).len() ==> #[trigger] ticked(s)[i].duration > 0,
    decreases s.len(),
{
    if s.len() > 0 {
        lemma_ticked_ok(s.drop_last());
    }
}

/// `sp` is the spell that `craft_spell` makes of `runes`.
pub open spec fn crafted_of(sp: Spell, runes: Seq<Rune>) -> bool {
    &&& sp.elements@ == elements_of(runes)
    &&& sp.shape == shape_of(runes)
    &&& sp.modifiers@ == modifiers_of(runes)
    &&& sp.base_damage == 10 * elements_of(runes).len()
    &&& sp.ap_cost == shape_cost(shape_of(runes)) + modifiers_of(runes).len()
    &&& sp.base_range == crafted_range(shape_of(runes))
}

/// The runes' counts keep a crafted spell's damage and cost in range.
pub open spec fn craftable_counts(runes: Seq<Rune>) -> bool {
    &&& 10 * elements_of(runes).len() <= i32::MAX
    &&& 4 + modifiers_of(runes).len() <= i32::MAX
}

/// Crafting from the inventory: with no inventory, or no runes, or no
/// element among them, only a message says so; otherwise all the runes
/// become one spell in the grimoire and the inventory is emptied.
pub open spec fn spell_crafted(before: Game, after: Game) -> bool {
    let v = view_of(before.world);
    let k = before.player_key();
    &&& after.grid == before.grid
    &&& after.player == before.player
    &&& after.rng == before.rng
    &&& after.state == before.state
    &&& if !v.inventories.contains_key(k) {
        &&& view_of(after.world) == v
        &&& after.grimoire@ == before.grimoire@
        &&& texts(after.messages@) == texts(before.messages@).push("No inventory!"@)
    } else if v.inventories[k].len() == 0 {
        &&& view_of(after.world) == v
        &&& after.grimoire@ == before.grimoire@
        &&& texts(after.messages@) == texts(before.messages@).push("No runes to craft with!"@)
    } else if elements_of(v.inventories[k]).len() == 0 {
        &&& view_of(after.world) == v
        &&& after.grimoire@ == before.grimoire@
        &&& texts(after.messages@) == texts(before.messages@).push("Need at least one element rune!"@)
    } else {
        let sp = after.grimoire@.last();
        &&& after.grimoire@ == before.grimoire@.push(sp)
        &&& crafted_of(sp, v.inventories[k])
        &&& view_of(after.world) == (WorldView { inventories: v.inventories.insert(k, Seq::empty()), ..v })
        &&& texts(after.messages@) == texts(before.messages@).push(
            "Crafted "@ + joined_element_names(sp.elements@) + " "@ + shape_name(sp.shape) + "!"@,
        )
    }
}

/// The runes lying at `pos`, by entity key.
pub open spec fn runes_at(v: WorldView, pos: Hex) -> Set<u64> {
    Set::new(|k: u64| v.pickups.contains_key(k) && v.positions.get(k) == Some(pos))
}

/// The message for a rune picked up.
pub open spec fn found_text(r: Rune) -> Seq<char> {
    "Found "@ + rune_name(r) + " rune!"@
}

/// The messages for a list of picked-up runes.
pub open spec fn found_texts(order: Seq<(u64, Rune)>) -> Seq<Seq<char>> {
    order.map_values(|p: (u64, Rune)| found_text(p.1))
}

/// The runes of a list of picked-up runes.
pub open spec fn found_runes(order: Seq<(u64, Rune)>) -> Seq<Rune> {
    order.map_values(|p: (u64, Rune)| p.1)
}

/// The keys of a list of picked-up runes.
pub open spec fn found_keys(order: Seq<(u64, Rune)>) -> Seq<u64> {
    order.map_values(|p: (u64, Rune)| p.0)
}

/// `order` lists every rune lying at `pos` once, with its rune.
pub open spec fn lists_runes_at(v: WorldView, pos: Hex, order: Seq<(u64, Rune)>) -> bool {
    &&& found_keys(order).no_duplicates()
    &&& found_keys(order).to_set() == runes_at(v, pos)
    &&& forall|i: int| 0 <= i < order.len() ==> v.pickups.get(#[trigger] order[i].0) == Some(order[i].1)
}

/// Picking up the runes at `pos`: each of them, in the world's order, goes
/// into the player's inventory (with a message) if the player has one, and
/// leaves the floor either way.
pub open spec fn runes_collected(before: Game, after: Game, pos: Hex) -> bool {
    let v = view_of(before.world);
    let k = before.player_key();
    &&& same_setup(before, after)
    &&& after.state == before.state
    &&& exists|order: Seq<(u64, Rune)>| {
        &&& #[trigger] lists_runes_at(v, pos, order)
        &&& if v.inventories.contains_key(k) {
            &&& view_of(after.world) == without_all(
                WorldView { inventories: v.inventories.insert(k, v.inventories[k] + found_runes(order)), ..v },
                runes_at(v, pos),
            )
            &&& texts(after.messages@) == texts(before.messages@) + found_texts(order)
        } else {
            &&& view_of(after.world) == without_all(v, runes_at(v, pos))
            &&& after.messages@ == before.messages@
        }
    }
}

/// The runes of a query that lie at `pos`, in query order, by entity.
pub open spec fn picked_at(s: Seq<(Entity, Hex, Rune)>, pos: Hex) -> Seq<(Entity, Rune)>
    decreases s.len(),
{
    if s.len() == 0 {
        Seq::empty()
    } else if s.last().1 == pos {
        picked_at(s.drop_last(), pos).push((s.last().0, s.last().2))
    } else {
        picked_at(s.drop_last(), pos)
    }
}

/// Picked runes by entity key.
pub open spec fn keyed(s: Seq<(Entity, Rune)>) -> Seq<(u64, Rune)> {
    s.map_values(|p: (Entity, Rune)| (entity_key(p.0), p.1))
}

/// The picked runes come from the query at `pos`, each query entry at
/// `pos` is picked, and distinct query keys stay distinct.
proof fn lemma_picked_at(s: Seq<(Entity, Hex, Rune)>, pos: Hex)
    ensures
        forall|j: int|
            0 <= j < picked_at(s, pos).len() ==> exists|m: int|
                0 <= m < s.len() && s[m].1 == pos && #[trigger] picked_at(s, pos)[j] == (s[m].0, s[m].2),
        forall|m: int| 0 <= m < s.len() && #[trigger] s[m].1 == pos ==> picked_at(s, pos).contains((s[m].0, s[m].2)),
        (forall|a: int, b: int| 0 <= a < b < s.len() ==> entity_key(#[trigger] s[a].0) != entity_key(#[trigger] s[b].0))
            ==> found_keys(keyed(picked_at(s, pos))).no_duplicates(),
    decreases s.len(),
{
    if s.len() > 0 {
        let t = s.drop_last();
        lemma_picked_at(t, pos);
        let d = picked_at(t, pos);
        assert forall|j: int| 0 <= j < picked_at(s, pos).len() implies exists|m: int|
            0 <= m < s.len() && s[m].1 == pos && #[trigger] picked_at(s, pos)[j] == (s[m].0, s[m].2) by {
            if j < d.len() {
                assert(picked_at(s, pos)[j] == d[j]);
                let m = choose|m: int| 0 <= m < t.len() && t[m].1 == pos && d[j] == (t[m].0, t[m].2);
                assert(s[m] == t[m]);
            } else {
                assert(s.last().1 == pos);
                assert(picked_at(s, pos)[j] == (s[s.len() - 1].0, s[s.len() - 1].2));
            }
        }
        assert forall|m: int| 0 <= m < s.len() && #[trigger] s[m].1 == pos implies picked_at(s, pos).contains(
            (s[m].0, s[m].2),
        ) by {
            if m < t.len() {
                assert(t[m] == s[m]);
                let j = choose|j: int| 0 <= j < d.len() && d[j] == (t[m].0, t[m].2);
                assert(picked_at(s, pos)[j] == d[j]);
            } else {
                assert(picked_at(s, pos).last() == (s[m].0, s[m].2));
            }
        }
        if forall|a: int, b: int| 0 <= a < b < s.len() ==> entity_key(#[trigger] s[a].0) != entity_key(#[trigger] s[b].0) {
            assert forall|a: int, b: int| 0 <= a < b < t.len() implies entity_key(#[trigger] t[a].0) != entity_key(
                #[trigger] t[b].0,
            ) by {
                assert(t[a] == s[a] && t[b] == s[b]);
            }
            if s.last().1 == pos {
                let last = (s.last().0, s.last().2);
                let dk = found_keys(keyed(d));
                assert forall|j: int| 0 <= j < dk.len() implies dk[j] != entity_key(last.0) by {
                    let m = choose|m: int| 0 <= m < t.len() && t[m].1 == pos && d[j] == (t[m].0, t[m].2);
                    assert(s[m] == t[m]);
                    assert(entity_key(s[m].0) != entity_key(s[s.len() - 1].0));
                }
                assert(found_keys(keyed(d.push(last))) =~= dk.push(entity_key(last.0)));
                assert forall|a: int, b: int| 0 <= a < b < dk.push(entity_key(last.0)).len() implies dk.push(
                    entity_key(last.0),
                )[a] != dk.push(entity_key(last.0))[b] by {
                    if b == dk.len() {
                        assert(dk[a] != entity_key(last.0));
                    } else {
                        assert(dk[a] != dk[b]);
                    }
                }
            }
        }
    }
}

/// Updating a kept entity's inventory and then removing one more entity is
/// removing it from the updated view.
proof fn lemma_store_then_despawn(
    w: WorldView,
    gone: Set<u64>,
    p: u64,
    inv: Seq<Rune>,
    k: u64,
)
    requires
        !gone.contains(p),
        k != p,
    ensures
        ({
            let stored = without_all(w, gone);
            WorldView { inventories: stored.inventories.insert(p, inv), ..stored }.without(k)
                == without_all(WorldView { inventories: w.inventories.insert(p, inv), ..w }, gone.insert(k))
        }),
{
    let stored = without_all(w, gone);
    let lhs = WorldView { inventories: stored.inventories.insert(p, inv), ..stored }.without(k);
    let rhs = without_all(WorldView { inventories: w.inventories.insert(p, inv), ..w }, gone.insert(k));
    assert(lhs.positions =~= rhs.positions);
    assert(lhs.healths =~= rhs.healths);
    assert(lhs.action_points =~= rhs.action_points);
    assert(lhs.inventories =~= rhs.inventories);
    assert(lhs.statuses =~= rhs.statuses);
    assert(lhs.enemies =~= rhs.enemies);
    assert(lhs.pickups =~= rhs.pickups);
}

/// Removing one more entity.
proof fn lemma_despawn_more(w: WorldView, gone: Set<u64>, k: u64)
    ensures
        without_all(w, gone).without(k) == without_all(w, gone.insert(k)),
{
    let lhs = without_all(w, gone).without(k);
    let rhs = without_all(w, gone.insert(k));
    assert(lhs.positions =~= rhs.positions);
    assert(lhs.healths =~= rhs.healths);
    assert(lhs.action_points =~= rhs.action_points);
    assert(lhs.inventories =~= rhs.inventories);
    assert(lhs.statuses =~= rhs.statuses);
    assert(lhs.enemies =~= rhs.enemies);
    assert(lhs.pickups =~= rhs.pickups);
}

/// Removing no entity.
proof fn lemma_despawn_none(w: WorldView)
    ensures
        without_all(w, Set::empty()) == w,
{
    let r = without_all(w, Set::empty());
    assert(r.positions =~= w.positions);
    assert(r.healths =~= w.healths);
    assert(r.action_points =~= w.action_points);
    assert(r.inventories =~= w.inventories);
    assert(r.statuses =~= w.statuses);
    assert(r.enemies =~= w.enemies);
    assert(r.pickups =~= w.pickups);
}

impl Game {
    /// Collect any runes at the given position.
    fn collect_runes(&mut self, pos: Hex)
        requires
            old(self).wf(),
        ensures
            final(self).wf(),
            runes_collected(*old(self), *final(self), pos),
    {
        let ghost v = view_of(self.world);
        let ghost k = self.player_key();
        let ghost msgs0 = texts(self.messages@);
        let all = lying_runes(&self.world);
        let mut picked: Vec<(Entity, Rune)> = Vec::new();
        let mut i: usize = 0;
        while i < all.len()
            invariant
                i <= all@.len(),
                picked@ == picked_at(all@.take(i as int), pos),
            decreases all@.len() - i,
        {
            let (entity, at, rune) = all[i];
            assert(all@.take(i + 1).drop_last() =~= all@.take(i as int));
            if at == pos {
                picked.push((entity, rune));
            }
            i = i + 1;
        }
        assert(all@.take(i as int) =~= all@);
        let ghost order = keyed(picked@);
        proof {
            lemma_picked_at(all@, pos);
            assert forall|j: int| 0 <= j < order.len() implies v.pickups.get(#[trigger] order[j].0) == Some(
                order[j].1,
            ) by {
                let m = choose|m: int| 0 <= m < all@.len() && all@[m].1 == pos && picked@[j] == (all@[m].0, all@[m].2);
                assert(v.pickups.get(entity_key(all@[m].0)) == Some(all@[m].2));
            }
            assert forall|key: u64| found_keys(order).to_set().contains(key) <==> runes_at(v, pos).contains(key) by {
                if found_keys(order).to_set().contains(key) {
                    let j = choose|j: int| 0 <= j < found_keys(order).len() && found_keys(order)[j] == key;
                    let m = choose|m: int| 0 <= m < all@.len() && all@[m].1 == pos && picked@[j] == (all@[m].0, all@[m].2);
                    assert(v.pickups.get(entity_key(all@[m].0)) == Some(all@[m].2));
                    assert(v.positions.get(entity_key(all@[m].0)) == Some(all@[m].1));
                }
                if runes_at(v, pos).contains(key) {
                    let m = choose|m: int| 0 <= m < all@.len() && entity_key(all@[m].0) == key;
                    assert(v.pickups.get(entity_key(all@[m].0)) == Some(all@[m].2));
                    assert(v.positions.get(entity_key(all@[m].0)) == Some(all@[m].1));
                    assert(all@[m].1 == pos);
                    assert(picked@.contains((all@[m].0, all@[m].2)));
                    let j = choose|j: int| 0 <= j < picked@.len() && picked@[j] == (all@[m].0, all@[m].2);
                    assert(found_keys(order)[j] == key);
                }
            }
            assert(found_keys(order).to_set() =~= runes_at(v, pos));
            assert(lists_runes_at(v, pos, order));
        }
        let ghost has_inventory = v.inventories.contains_key(k);
        let ghost stored = if has_inventory {
            WorldView { inventories: v.inventories.insert(k, v.inventories[k] + found_runes(order)), ..v }
        } else {
            v
        };
        let mut j: usize = 0;
        proof {
            lemma_despawn_none(v);
            assert(found_keys(order.take(0)).to_set() =~= Set::<u64>::empty());
            assert(found_runes(order.take(0)) =~= Seq::<Rune>::empty());
            assert(v.inventories.contains_key(k) ==> v.inventories.insert(k, v.inventories[k] + Seq::<Rune>::empty()) =~= v.inventories);
            assert(found_texts(order.take(0)) =~= Seq::<Seq<char>>::empty());
            assert(msgs0 + Seq::<Seq<char>>::empty() =~= msgs0);
        }
        while j < picked.len()
            invariant
                j <= picked@.len(),
                order == keyed(picked@),
                found_keys(order).no_duplicates(),
                found_keys(order).to_set() == runes_at(v, pos),
                !v.pickups.contains_key(k),
                k == self.player_key(),
                self.grid == old(self).grid,
                self.player == old(self).player,
                self.grimoire@ == old(self).grimoire@,
                self.rng == old(self).rng,
                self.state == old(self).state,
                v == view_of(old(self).world),
                msgs0 == texts(old(self).messages@),
                !has_inventory ==> self.messages@ == old(self).messages@,
                has_inventory == v.inventories.contains_key(k),
                view_of(self.world) == without_all(
                    if has_inventory {
                        WorldView {
                            inventories: v.inventories.insert(k, v.inventories[k] + found_runes(order.take(j as int))),
                            ..v
                        }
                    } else {
                        v
                    },
                    found_keys(order.take(j as int)).to_set(),
                ),
                texts(self.messages@) == msgs0 + if has_inventory {
                    found_texts(order.take(j as int))
                } else {
                    Seq::empty()
                },
            decreases picked@.len() - j,
        {
            let (entity, rune) = picked[j];
            let ghost key = entity_key(entity);
            proof {
                assert(order[j as int] == (key, rune));
                assert(runes_at(v, pos).contains(key)) by {
                    assert(found_keys(order)[j as int] == key);
                }
                assert(key != k);
                assert(!found_keys(order.take(j as int)).to_set().contains(k)) by {
                    if found_keys(order.take(j as int)).to_set().contains(k) {
                        let m = choose|m: int| 0 <= m < j && found_keys(order.take(j as int))[m] == k;
                        assert(found_keys(order)[m] == k);
                        assert(runes_at(v, pos).contains(k));
                    }
                }
                assert(found_keys(order.take(j + 1)) =~= found_keys(order.take(j as int)).push(key));
                crate::combat::damage::lemma_push_to_set(found_keys(order.take(j as int)), key);
                assert(found_runes(order.take(j + 1)) =~= found_runes(order.take(j as int)).push(rune));
                assert(found_texts(order.take(j + 1)) =~= found_texts(order.take(j as int)).push(found_text(rune)));
            }
            let inventory = inventory_of(&self.world, self.player);
            if let Some(runes) = inventory {
                let mut text = String::from_str("Found ");
                text.append(rune.name());
                proof {
                    reveal_strlit(" rune!");
                }
                text.append(" rune!");
                let ghost before = texts(self.messages@);
                self.messages.push(text);
                assert(texts(self.messages@) =~= before.push(found_text(rune)));
                let mut runes = runes;
                runes.push(rune);
                let ghost w0 = view_of(self.world);
                store_inventory(&mut self.world, self.player, runes);
                proof {
                    let base = WorldView {
                        inventories: v.inventories.insert(k, v.inventories[k] + found_runes(order.take(j as int))),
                        ..v
                    };
                    let gone = found_keys(order.take(j as int)).to_set();
                    assert(v.inventories[k] + found_runes(order.take(j + 1)) =~= v.inventories[k] + found_runes(
                        order.take(j as int),
                    ) + seq![rune]);
                    assert(base.inventories.insert(k, v.inventories[k] + found_runes(order.take(j + 1)))
                        =~= v.inventories.insert(k, v.inventories[k] + found_runes(order.take(j + 1))));
                    lemma_store_then_despawn(base, gone, k, v.inventories[k] + found_runes(order.take(j + 1)), key);
                    assert(msgs0 + found_texts(order.take(j as int)).push(found_text(rune)) =~= (msgs0
                        + found_texts(order.take(j as int))).push(found_text(rune)));
                }
            } else {
                proof {
                    lemma_despawn_more(v, found_keys(order.take(j as int)).to_set(), key);
                }
            }
            despawn(&mut self.world, entity);
            j = j + 1;
        }
        proof {
            assert(order.take(j as int) =~= order);
            let w = view_of(self.world);
            assert forall|q: u64| #[trigger] w.positions.contains_key(q) implies w.positions[q].within_limit()
                && w.positions[q].is_valid() by {
                assert(v.positions.contains_key(q));
            }
            assert forall|q: u64| #[trigger] w.healths.contains_key(q) implies w.healths[q].current >= 0 by {
                assert(v.healths.contains_key(q));
            }
            assert forall|q: u64| #[trigger] w.statuses.contains_key(q) implies effects_ok(w.statuses[q]) by {
                assert(v.statuses.contains_key(q));
            }
            assert(!w.pickups.contains_key(k));
            assert(lists_runes_at(v, pos, order));
        }
    }
}

impl Game {
    /// Craft a spell from the runes in the player's inventory.
    pub fn craft_spell_from_inventory(&mut self)
        requires
            old(self).wf(),
            view_of(old(self).world).inventories.contains_key(old(self).player_key())
                ==> craftable_counts(view_of(old(self).world).inventories[old(self).player_key()]),
        ensures
            final(self).wf(),
            spell_crafted(*old(self), *final(self)),
    {
        let ghost v = view_of(self.world);
        let inventory = inventory_of(&self.world, self.player);
        let runes = match inventory {
            Some(r) => r,
            None => {
                say(&mut self.messages, "No inventory!");
                return;
            },
        };
        if runes.len() == 0 {
            say(&mut self.messages, "No runes to craft with!");
            return;
        }
        match craft_spell(runes.as_slice()) {
            Some(spell) => {
                let name = spell.name();
                let ghost sp = spell;
                self.grimoire.push(spell);
                store_inventory(&mut self.world, self.player, Vec::new());
                let mut text = String::from_str("Crafted ");
                text.append(name.as_str());
                proof {
                    reveal_strlit("!");
                }
                text.append("!");
                assert(text@ =~= "Crafted "@ + joined_element_names(sp.elements@) + " "@ + shape_name(sp.shape)
                    + "!"@);
                let ghost before = texts(self.messages@);
                self.messages.push(text);
                proof {
                    assert(texts(self.messages@) =~= before.push(
                        "Crafted "@ + joined_element_names(sp.elements@) + " "@ + shape_name(sp.shape) + "!"@,
                    ));
                    let w = view_of(self.world);
                    assert(w =~= (WorldView {
                        inventories: v.inventories.insert(self.player_key(), Seq::empty()),
                        ..v
                    }));
                }
            },
            None => {
                say(&mut self.messages, "Need at least one element rune!");
            },
        }
    }
}

/// `after` is `before` with one more message and nothing else changed.
pub open spec fn said(before: Game, after: Game, text: Seq<char>) -> bool {
    &&& same_setup(before, after)
    &&& after.state == before.state
    &&& view_of(after.world) == view_of(before.world)
    &&& texts(after.messages@) == texts(before.messages@).push(text)
}

/// How many runes a drop roll chooses among: five elements below 60, five
/// shapes below 85, three modifiers otherwise.
pub open spec fn drop_choices(roll: int) -> int {
    if roll < 60 {
        5
    } else if roll < 85 {
        5
    } else {
        3
    }
}

/// The rune that a drop roll (0 to 99) and a pick among its choices give:
/// an element below 60, a shape below 85, a modifier otherwise, each in the
/// order listed.
pub open spec fn drop_of(roll: int, pick: int) -> Rune {
    if roll < 60 {
        Rune {
            kind: RuneKind::Element(
                seq![Element::Fire, Element::Ice, Element::Lightning, Element::Earth, Element::Void][pick],
            ),
        }
    } else if roll < 85 {
        Rune {
            kind: RuneKind::Shape(seq![Shape::Point, Shape::Line, Shape::Cone, Shape::Ring, Shape::Burst][pick]),
        }
    } else {
        Rune { kind: RuneKind::Modifier(seq![Modifier::Power, Modifier::Range, Modifier::Duration][pick]) }
    }
}

/// The rune that an enemy drops for a roll (0 to 99) and a pick among the
/// roll's choices.
pub fn drop_rune(roll: i32, pick: usize) -> (r: Rune)
    requires
        0 <= roll < 100,
        pick < drop_choices(roll as int),
    ensures
        r == drop_of(roll as int, pick as int),
{
    let elements = [Element::Fire, Element::Ice, Element::Lightning, Element::Earth, Element::Void];
    let shapes = [Shape::Point, Shape::Line, Shape::Cone, Shape::Ring, Shape::Burst];
    let modifiers = [Modifier::Power, Modifier::Range, Modifier::Duration];
    if roll < 60 {
        assert(elements@ == seq![Element::Fire, Element::Ice, Element::Lightning, Element::Earth, Element::Void]);
        Rune::element(elements[pick])
    } else if roll < 85 {
        assert(shapes@ == seq![Shape::Point, Shape::Line, Shape::Cone, Shape::Ring, Shape::Burst]);
        Rune::shape(shapes[pick])
    } else {
        assert(modifiers@ == seq![Modifier::Power, Modifier::Range, Modifier::Duration]);
        Rune::modifier(modifiers[pick])
    }
}

/// An enemy's drop at `pos`: the rune of some roll and pick, announced, now
/// lying there as a new entity. The generator moves on.
pub open spec fn rune_dropped(before: Game, after: Game, pos: Hex) -> bool {
    let v = view_of(before.world);
    &&& after.grid == before.grid
    &&& after.player == before.player
    &&& after.grimoire@ == before.grimoire@
    &&& after.state == before.state
    &&& exists|roll: int, pick: int, k: u64| {
        &&& 0 <= roll < 100
        &&& 0 <= pick < drop_choices(roll)
        &&& #[trigger] v.lacks_entity(k)
        &&& view_of(after.world) == (WorldView {
            positions: v.positions.insert(k, pos),
            pickups: v.pickups.insert(k, #[trigger] drop_of(roll, pick)),
            displays: v.displays.insert(k, pickup_display()),
            ..v
        })
        &&& texts(after.messages@) == texts(before.messages@).push(
            "Enemy dropped "@ + rune_name(drop_of(roll, pick)) + " rune!"@,
        )
    }
}

impl Game {
    /// Spawn a random rune at the given position: an element three times in
    /// five, a shape one time in four, a modifier otherwise.
    fn spawn_random_rune(&mut self, pos: Hex)
        requires
            old(self).wf(),
            pos.within_limit(),
            pos.is_valid(),
        ensures
            final(self).wf(),
            rune_dropped(*old(self), *final(self), pos),
    {
        let ghost v = view_of(self.world);
        let roll = random_below(&mut self.rng, 0, 100);
        let choices: usize = if roll < 60 {
            5
        } else if roll < 85 {
            5
        } else {
            3
        };
        let pick = random_index(&mut self.rng, choices);
        let rune = drop_rune(roll, pick);
        let mut text = String::from_str("Enemy dropped ");
        text.append(rune.name());
        proof {
            reveal_strlit(" rune!");
        }
        text.append(" rune!");
        let ghost before = texts(self.messages@);
        self.messages.push(text);
        assert(texts(self.messages@) =~= before.push("Enemy dropped "@ + rune_name(rune) + " rune!"@));
        let e = spawn_pickup(&mut self.world, pos, RunePickup { rune }, Display { glyph: '*', color: (255, 255, 0) });
        proof {
            let k = entity_key(e);
            let w = view_of(self.world);
            assert(v.lacks_entity(k) && rune == drop_of(roll as int, pick as int));
            assert forall|q: u64| #[trigger] w.positions.contains_key(q) implies w.positions[q].within_limit()
                && w.positions[q].is_valid() by {
                if q != k {
                    assert(v.positions.contains_key(q));
                }
            }
            assert forall|q: u64| #[trigger] w.healths.contains_key(q) implies w.healths[q].current >= 0 by {
                assert(v.healths.contains_key(q));
            }
            assert forall|q: u64| #[trigger] w.statuses.contains_key(q) implies effects_ok(w.statuses[q]) by {
                assert(v.statuses.contains_key(q));
            }
            assert(k != self.player_key());
        }
    }
}

/// `t` is an enemy other than the player, standing next to `pp`.
pub open spec fn adjacent_enemy(v: WorldView, p: u64, pp: Hex, t: Entity) -> bool {
    &&& entity_key(t) != p
    &&& v.enemies.contains_key(entity_key(t))
    &&& exists|d: int| 0 <= d < 6 && v.positions.get(entity_key(t)) == Some(#[trigger] pp.plus(spec_direction(d)))
}

/// The report of a melee hit.
pub open spec fn hit_text(damage: int, killed: bool) -> Seq<char> {
    if killed {
        "You hit for "@ + decimal(damage as nat) + " damage! Enemy slain!"@
    } else {
        "You hit for "@ + decimal(damage as nat) + " damage!"@
    }
}

/// The player has spent all action points (or has none).
pub open spec fn out_of_points(g: Game) -> bool {
    match view_of(g.world).action_points.get(g.player_key()) {
        Some(a) => a.current <= 0,
        None => true,
    }
}

/// `after` has the world of `before` with the given view, and nothing else changed.
pub open spec fn world_now(before: Game, after: Game, v: WorldView) -> bool {
    &&& same_setup(before, after)
    &&& after.state == before.state
    &&& after.messages@ == before.messages@
    &&& view_of(after.world) == v
}

/// The steps of a melee strike on `t`: one action point spent (`paid`), the
/// hit reported (`hit`), a drop when it kills (`dropped`), and the dead
/// cleared away (`after`).
pub open spec fn strike_steps(before: Game, paid: Game, hit: Game, dropped: Game, after: Game, t: Entity) -> bool {
    let v = view_of(before.world);
    let p = before.player_key();
    let k = entity_key(t);
    let ap = v.action_points[p];
    &&& world_now(before, paid, WorldView {
        action_points: v.action_points.insert(p, ActionPoints { current: (ap.current - 1) as i32, max: ap.max }),
        ..v
    })
    &&& if view_of(paid.world).healths.contains_key(k) {
        let d = damage_after(crate::combat::BASE_MELEE_DAMAGE as int, 0);
        let h = damaged(view_of(paid.world).healths[k], d);
        let killed = h.current <= 0;
        &&& same_setup(paid, hit)
        &&& hit.state == paid.state
        &&& view_of(hit.world) == (WorldView {
            healths: view_of(paid.world).healths.insert(k, h),
            ..view_of(paid.world)
        })
        &&& texts(hit.messages@) == texts(paid.messages@).push(hit_text(d, killed))
        &&& if killed && v.positions.contains_key(k) {
            rune_dropped(hit, dropped, v.positions[k])
        } else {
            dropped == hit
        }
    } else {
        &&& said(paid, hit, "No target!"@)
        &&& dropped == hit
    }
    &&& after.grid == dropped.grid
    &&& after.player == dropped.player
    &&& after.grimoire@ == dropped.grimoire@
    &&& after.rng == dropped.rng
    &&& after.state == dropped.state
    &&& after.messages@ == dropped.messages@
    &&& view_of(after.world) == without_all(view_of(dropped.world), dead_keys(view_of(dropped.world).healths))
}

/// A melee strike on `t`: one action point spent, the hit (with a drop when
/// it kills), and the dead cleared away.
pub open spec fn struck(before: Game, after: Game, t: Entity) -> bool {
    exists|paid: Game, hit: Game, dropped: Game| #[trigger] strike_steps(before, paid, hit, dropped, after, t)
}

/// The steps of an attack once the player can act: a target is looked for
/// direction by direction (`target_found`); without one it is said that none
/// is in range; with one it is struck
/// (`hit`) and a player left without action points ends the turn.
pub open spec fn attack_steps(before: Game, target: Option<Entity>, hit: Game, after: Game) -> bool {
    let v = view_of(before.world);
    let p = before.player_key();
    &&& target_found(v, p, v.positions[p], target)
    &&& match target {
        None => said(before, after, "No target in range!"@),
        Some(t) => {
            &&& struck(before, hit, t)
            &&& if out_of_points(hit) {
                turn_ended(hit, after)
            } else {
                after == hit
            }
        },
    }
}

/// The player's melee attack: without action points nothing happens (and
/// is said when there are too few); otherwise an enemy next to the player
/// is struck, or it is said that none is in range; a player left without
/// action points ends the turn.
pub open spec fn attacked(before: Game, after: Game) -> bool {
    let v = view_of(before.world);
    let p = before.player_key();
    if !v.action_points.contains_key(p) {
        after == before
    } else if v.action_points[p].current < crate::combat::MELEE_AP_COST {
        said(before, after, "Not enough AP!"@)
    } else if !v.positions.contains_key(p) {
        after == before
    } else {
        exists|target: Option<Entity>, hit: Game| #[trigger] attack_steps(before, target, hit, after)
    }
}

/// Hex `h` holds an enemy and, apart from the player, nothing but enemies:
/// whichever entity there the world lists first is then an enemy.
pub open spec fn lone_enemy_at(v: WorldView, p: u64, h: Hex) -> bool {
    &&& exists|k: u64| #[trigger] v.positions.get(k) == Some(h) && k != p && v.enemies.contains_key(k)
    &&& forall|k: u64| #[trigger] v.positions.get(k) == Some(h) && k != p ==> v.enemies.contains_key(k)
}

/// The target looked for next to the player at `pp`, direction by
/// direction: a target is an enemy next to the player, standing in some
/// direction before which no neighboring hex holds a lone enemy; no target
/// means no neighboring hex holds a lone enemy.
pub open spec fn target_found(v: WorldView, p: u64, pp: Hex, target: Option<Entity>) -> bool {
    match target {
        Some(t) => {
            &&& adjacent_enemy(v, p, pp, t)
            &&& exists|d: int|
                0 <= d < 6 && v.positions.get(entity_key(t)) == Some(#[trigger] pp.plus(spec_direction(d)))
                    && forall|c: int|
                    0 <= c < d ==> !lone_enemy_at(v, p, #[trigger] pp.plus(spec_direction(c)))
        },
        None => forall|d: int| 0 <= d < 6 ==> !lone_enemy_at(v, p, #[trigger] pp.plus(spec_direction(d))),
    }
}

impl Game {
    /// Look for an enemy next to the player at `pp`, direction by direction:
    /// in each direction the world's first entity other than the player is
    /// taken if it is an enemy.
    fn find_adjacent_enemy(&self, pp: Hex) -> (t: Option<Entity>)
        requires
            self.wf(),
            pp.within_limit(),
        ensures
            target_found(view_of(self.world), self.player_key(), pp, t),
            match t {
                Some(e) => exists|d: int|
                    0 <= d < 6 && view_of(self.world).positions.get(entity_key(e)) == Some(
                        #[trigger] pp.plus(spec_direction(d)),
                    ) && forall|c: int|
                        0 <= c < d ==> !lone_enemy_at(
                            view_of(self.world),
                            self.player_key(),
                            #[trigger] pp.plus(spec_direction(c)),
                        ),
                None => forall|d: int|
                    0 <= d < 6 ==> !lone_enemy_at(
                        view_of(self.world),
                        self.player_key(),
                        #[trigger] pp.plus(spec_direction(d)),
                    ),
            },
    {
        let ghost v = view_of(self.world);
        let ghost p = self.player_key();
        let neighbors = pp.neighbors();
        let mut d: usize = 0;
        while d < 6
            invariant
                d <= 6,
                v == view_of(self.world),
                p == self.player_key(),
                forall|e: int| 0 <= e < 6 ==> #[trigger] neighbors@[e] == pp.plus(spec_direction(e)),
                forall|c: int| 0 <= c < d ==> !lone_enemy_at(v, p, #[trigger] pp.plus(spec_direction(c))),
            decreases 6 - d,
        {
            let h = neighbors[d];
            let found = entity_at(&self.world, h, self.player);
            match found {
                Some(e) => {
                    if is_enemy(&self.world, e) {
                        assert(view_of(self.world).positions.get(entity_key(e)) == Some(pp.plus(spec_direction(d as int))));
                        return Some(e);
                    }
                    assert(!lone_enemy_at(v, p, h)) by {
                        assert(v.positions.get(entity_key(e)) == Some(h) && entity_key(e) != p);
                    }
                },
                None => {
                    assert(!lone_enemy_at(v, p, h)) by {
                        if lone_enemy_at(v, p, h) {
                            let k = choose|k: u64| #[trigger] v.positions.get(k) == Some(h) && k != p
                                && v.enemies.contains_key(k);
                            assert(v.positions.contains_key(k));
                        }
                    }
                },
            }
            assert(h == pp.plus(spec_direction(d as int)));
            d = d + 1;
        }
        None
    }

    /// Strike the enemy `target`.
    fn strike(&mut self, target: Entity)
        requires
            old(self).wf(),
            entity_key(target) != old(self).player_key(),
            view_of(old(self).world).action_points.contains_key(old(self).player_key()),
            view_of(old(self).world).action_points[old(self).player_key()].current >= 1,
        ensures
            final(self).wf(),
            struck(*old(self), *final(self), target),
    {
        let ghost v = view_of(self.world);
        let ghost p = self.player_key();
        let ghost k = entity_key(target);
        let target_pos = position_of(&self.world, target);
        let points = action_points_of(&self.world, self.player);
        if let Some(a) = points {
            let mut ap = a;
            ap.current = ap.current - crate::combat::MELEE_AP_COST;
            store_action_points(&mut self.world, self.player, ap);
        }
        let ghost paid = *self;
        assert(world_now(*old(self), paid, WorldView {
            action_points: v.action_points.insert(p, ActionPoints { current: (v.action_points[p].current - 1) as i32, max: v.action_points[p].max }),
            ..v
        }));
        let result = crate::combat::melee_attack(&mut self.world, self.player, target, crate::combat::BASE_MELEE_DAMAGE);
        let ghost mut hit = *self;
        match result {
            AttackResult::Hit { damage, killed } => {
                let mut text = String::from_str("You hit for ");
                text.append(decimal_text(damage as u32).as_str());
                if killed {
                    proof {
                        reveal_strlit(" damage! Enemy slain!");
                    }
                    text.append(" damage! Enemy slain!");
                } else {
                    proof {
                        reveal_strlit(" damage!");
                    }
                    text.append(" damage!");
                }
                let ghost before = texts(self.messages@);
                self.messages.push(text);
                proof {
                    assert(texts(self.messages@) =~= before.push(hit_text(damage as int, killed)));
                    hit = *self;
                }
                if killed {
                    if let Some(pos) = target_pos {
                        self.spawn_random_rune(pos);
                    }
                }
            },
            AttackResult::Miss => {
                say(&mut self.messages, "You miss!");
                proof {
                    hit = *self;
                }
            },
            AttackResult::NoTarget => {
                say(&mut self.messages, "No target!");
                proof {
                    hit = *self;
                }
            },
        }
        let ghost dropped = *self;
        let _ = crate::combat::remove_dead(&mut self.world);
        proof {
            let w = view_of(self.world);
            let vd = view_of(dropped.world);
            assert(vd.healths.contains_key(p) && vd.healths[p].current > 0);
            assert(!dead_keys(vd.healths).contains(p));
            assert forall|q: u64| #[trigger] w.positions.contains_key(q) implies w.positions[q].within_limit()
                && w.positions[q].is_valid() by {
                assert(vd.positions.contains_key(q));
            }
            assert forall|q: u64| #[trigger] w.healths.contains_key(q) implies w.healths[q].current >= 0 by {
                assert(vd.healths.contains_key(q));
            }
            assert forall|q: u64| #[trigger] w.statuses.contains_key(q) implies effects_ok(w.statuses[q]) by {
                assert(vd.statuses.contains_key(q));
            }
            assert(strike_steps(*old(self), paid, hit, dropped, *self, target));
        }
    }
}

impl Game {
    /// Try to attack an adjacent enemy.
    pub fn try_attack(&mut self)
        requires
            old(self).wf(),
        ensures
            final(self).wf(),
            attacked(*old(self), *final(self)),
    {
        let ghost v = view_of(self.world);
        let points = action_points_of(&self.world, self.player);
        let ap = match points {
            Some(a) => a.current,
            None => {
                return;
            },
        };
        if ap < crate::combat::MELEE_AP_COST {
            say(&mut self.messages, "Not enough AP!");
            return;
        }
        let position = position_of(&self.world, self.player);
        let player_pos = match position {
            Some(p) => p,
            None => {
                return;
            },
        };
        assert(v.positions.contains_key(self.player_key()));
        let target = self.find_adjacent_enemy(player_pos);
        let t = match target {
            Some(t) => t,
            None => {
                say(&mut self.messages, "No target in range!");
                proof {
                    let ghost dummy = *self;
                    assert(attack_steps(*old(self), None, dummy, *self));
                }
                return;
            },
        };
        self.strike(t);
        let ghost hit = *self;
        let left = action_points_of(&self.world, self.player);
        let out_of_ap = match left {
            Some(a) => a.current <= 0,
            None => true,
        };
        if out_of_ap {
            self.end_turn();
        }
        proof {
            assert(attack_steps(*old(self), Some(t), hit, *self));
        }
    }
}

/// A floor tile more than three steps from `start`: where an enemy may appear.
pub open spec fn far_floor(m: Map<Hex, DungeonTile>, start: Hex, h: Hex) -> bool {
    m.contains_key(h) && m[h] == DungeonTile::Floor && h.dist(start) > 3
}

/// The number of far floor tiles of a grid.
pub open spec fn far_floor_count(m: Map<Hex, DungeonTile>, start: Hex) -> nat {
    m.dom().filter(|h: Hex| far_floor(m, start, h)).len()
}

/// The enemies of a fresh floor.
pub open spec fn floor_enemy() -> Enemy {
    Enemy { ai_type: AIType::Melee, aggro_range: 6 }
}

/// A melee enemy that notices the player six steps away.
fn floor_enemy_exec() -> (e: Enemy)
    ensures
        e == floor_enemy(),
{
    Enemy { ai_type: AIType::Melee, aggro_range: 6 }
}

/// How an enemy is drawn: a red `g`.
pub open spec fn enemy_display() -> Display {
    Display { glyph: 'g', color: (255, 100, 100) }
}

/// How a rune lying on the floor is drawn: a yellow `*`.
pub open spec fn pickup_display() -> Display {
    Display { glyph: '*', color: (255, 255, 0) }
}

/// Each of `keys` drawn as an enemy.
pub open spec fn enemy_displays(keys: Seq<u64>) -> Map<u64, Display> {
    Map::new(|k: u64| keys.contains(k), |k: u64| enemy_display())
}

/// `after` is `before` with one new enemy for each of `keys`: each on a far
/// floor tile of its own, with full health of `hp` and two action points.
pub open spec fn enemies_spawned(
    before: WorldView,
    after: WorldView,
    keys: Seq<u64>,
    m: Map<Hex, DungeonTile>,
    start: Hex,
    hp: i32,
) -> bool {
    &&& keys.no_duplicates()
    &&& forall|i: int| 0 <= i < keys.len() ==> before.lacks_entity(#[trigger] keys[i])
    &&& forall|k: u64| #[trigger] after.positions.contains_key(k) <==> before.positions.contains_key(k) || keys.contains(k)
    &&& forall|k: u64| #[trigger] after.healths.contains_key(k) <==> before.healths.contains_key(k) || keys.contains(k)
    &&& forall|k: u64| #[trigger] after.action_points.contains_key(k) <==> before.action_points.contains_key(k) || keys.contains(k)
    &&& forall|k: u64| #[trigger] after.enemies.contains_key(k) <==> before.enemies.contains_key(k) || keys.contains(k)
    &&& forall|k: u64| #[trigger] before.positions.contains_key(k) ==> after.positions[k] == before.positions[k]
    &&& forall|k: u64| #[trigger] before.healths.contains_key(k) ==> after.healths[k] == before.healths[k]
    &&& forall|k: u64| #[trigger] before.action_points.contains_key(k) ==> after.action_points[k] == before.action_points[k]
    &&& forall|k: u64| #[trigger] before.enemies.contains_key(k) ==> after.enemies[k] == before.enemies[k]
    &&& forall|i: int| 0 <= i < keys.len() ==> {
        let k = #[trigger] keys[i];
        &&& far_floor(m, start, after.positions[k])
        &&& after.healths[k] == (Health { current: hp, max: hp })
        &&& after.action_points[k] == (ActionPoints { current: 2, max: 2 })
        &&& after.enemies[k] == floor_enemy()
    }
    &&& forall|i: int, j: int|
        0 <= i < j < keys.len() ==> after.positions[#[trigger] keys[i]] != after.positions[#[trigger] keys[j]]
    &&& after.displays == before.displays.union_prefer_right(enemy_displays(keys))
    &&& after.players == before.players
    &&& after.inventories == before.inventories
    &&& after.statuses == before.statuses
    &&& after.pickups == before.pickups
}

/// One more enemy keeps the account of the enemies spawned.
proof fn lemma_enemy_added(
    v: WorldView,
    before: WorldView,
    after: WorldView,
    keys: Seq<u64>,
    k: u64,
    pos: Hex,
    m: Map<Hex, DungeonTile>,
    start: Hex,
    hp: i32,
)
    requires
        enemies_spawned(v, before, keys, m, start, hp),
        before.lacks_entity(k),
        far_floor(m, start, pos),
        forall|j: int| 0 <= j < keys.len() ==> before.positions[#[trigger] keys[j]] != pos,
        after == (WorldView {
            positions: before.positions.insert(k, pos),
            healths: before.healths.insert(k, Health { current: hp, max: hp }),
            action_points: before.action_points.insert(k, ActionPoints { current: 2, max: 2 }),
            enemies: before.enemies.insert(k, floor_enemy()),
            displays: before.displays.insert(k, enemy_display()),
            ..before
        }),
    ensures
        enemies_spawned(v, after, keys.push(k), m, start, hp),
{
    let nk = keys.push(k);
    assert(!keys.contains(k)) by {
        if keys.contains(k) {
            let j = choose|j: int| 0 <= j < keys.len() && keys[j] == k;
            assert(before.positions.contains_key(keys[j]));
        }
    }
    assert(v.lacks_entity(k)) by {
        assert(!before.positions.contains_key(k));
        assert(!before.healths.contains_key(k));
        assert(!before.action_points.contains_key(k));
        assert(!before.enemies.contains_key(k));
    }
    assert forall|j: int| 0 <= j < nk.len() implies v.lacks_entity(#[trigger] nk[j]) by {
        if j < keys.len() {
            assert(nk[j] == keys[j]);
        }
    }
    assert forall|a: int, b: int| 0 <= a < b < nk.len() implies nk[a] != nk[b] by {
        if b < keys.len() {
            assert(nk[a] == keys[a] && nk[b] == keys[b]);
        } else {
            assert(nk[a] == keys[a]);
        }
    }
    assert forall|q: u64| nk.contains(q) <==> keys.contains(q) || q == k by {
        if keys.contains(q) {
            let j = choose|j: int| 0 <= j < keys.len() && keys[j] == q;
            assert(nk[j] == q);
        }
        if q == k {
            assert(nk[keys.len() as int] == k);
        }
    }
    assert forall|i: int| 0 <= i < nk.len() implies {
        let q = #[trigger] nk[i];
        &&& far_floor(m, start, after.positions[q])
        &&& after.healths[q] == (Health { current: hp, max: hp })
        &&& after.action_points[q] == (ActionPoints { current: 2, max: 2 })
        &&& after.enemies[q] == floor_enemy()
    } by {
        if i < keys.len() {
            assert(nk[i] == keys[i]);
            assert(keys[i] != k);
        }
    }
    assert forall|q: u64| #[trigger] v.positions.contains_key(q) implies after.positions[q] == v.positions[q] by {
        assert(before.positions[q] == v.positions[q]);
        assert(q != k);
    }
    assert forall|q: u64| #[trigger] v.healths.contains_key(q) implies after.healths[q] == v.healths[q] by {
        assert(before.healths[q] == v.healths[q]);
        assert(q != k);
    }
    assert forall|q: u64| #[trigger] v.action_points.contains_key(q) implies after.action_points[q] == v.action_points[q] by {
        assert(before.action_points[q] == v.action_points[q]);
        assert(q != k);
    }
    assert forall|q: u64| #[trigger] v.enemies.contains_key(q) implies after.enemies[q] == v.enemies[q] by {
        assert(before.enemies[q] == v.enemies[q]);
        assert(q != k);
    }
    assert forall|a: int, b: int| 0 <= a < b < nk.len() implies after.positions[#[trigger] nk[a]]
        != after.positions[#[trigger] nk[b]] by {
        assert(nk[a] == keys[a]);
        assert(nk[a] != k);
        if b < keys.len() {
            assert(nk[b] == keys[b]);
            assert(nk[b] != k);
        }
    }
    assert(after.displays =~= v.displays.union_prefer_right(enemy_displays(nk)));
}

/// The far floor tiles of a grid, each once.
fn far_floor_tiles(grid: &HexGrid<DungeonTile>, start: Hex) -> (tiles: Vec<Hex>)
    requires
        grid.wf(),
        keys_in_limit(grid@),
        start.within_limit(),
    ensures
        forall|i: int| 0 <= i < tiles@.len() ==> far_floor(grid@, start, #[trigger] tiles@[i]),
        tiles@.no_duplicates(),
        tiles@.len() == far_floor_count(grid@, start),
{
    let items = grid.iter();
    let mut tiles: Vec<Hex> = Vec::new();
    let mut i: usize = 0;
    while i < items.len()
        invariant
            i <= items@.len(),
            grid.wf(),
            keys_in_limit(grid@),
            start.within_limit(),
            forall|k: int|
                0 <= k < items@.len() ==> grid@.contains_key(#[trigger] items@[k].0) && *items@[k].1
                    == grid@[items@[k].0],
            forall|a: int, b: int| 0 <= a < items@.len() && 0 <= b < items@.len() && a != b ==> items@[a].0 != items@[b].0,
            forall|j: int| 0 <= j < tiles@.len() ==> far_floor(grid@, start, #[trigger] tiles@[j]),
            tiles@.no_duplicates(),
            forall|j: int| 0 <= j < tiles@.len() ==> exists|k: int| 0 <= k < i && items@[k].0 == #[trigger] tiles@[j],
            forall|k: int| 0 <= k < i && far_floor(grid@, start, #[trigger] items@[k].0) ==> tiles@.contains(items@[k].0),
        decreases items@.len() - i,
    {
        let (h, t) = items[i];
        assert(grid@.contains_key(items@[i as int].0));
        let ghost old_tiles = tiles@;
        if *t == DungeonTile::Floor && h.distance(start) > 3 {
            proof {
                assert forall|j: int| 0 <= j < tiles@.len() implies tiles@[j] != h by {
                    let k = choose|k: int| 0 <= k < i && items@[k].0 == tiles@[j];
                }
            }
            tiles.push(h);
            proof {
                assert forall|j: int| 0 <= j < tiles@.len() implies exists|k: int|
                    0 <= k < i + 1 && items@[k].0 == #[trigger] tiles@[j] by {
                    if j < old_tiles.len() {
                        assert(tiles@[j] == old_tiles[j]);
                        let k = choose|k: int| 0 <= k < i && items@[k].0 == old_tiles[j];
                    } else {
                        assert(items@[i as int].0 == tiles@[j]);
                    }
                }
                assert(tiles@[tiles@.len() - 1] == h);
            }
        }
        proof {
            assert forall|k: int| 0 <= k < i + 1 && far_floor(grid@, start, #[trigger] items@[k].0) implies tiles@.contains(
                items@[k].0,
            ) by {
                if k < i {
                    assert(old_tiles.contains(items@[k].0));
                    let j = choose|j: int| 0 <= j < old_tiles.len() && old_tiles[j] == items@[k].0;
                    assert(tiles@[j] == old_tiles[j]);
                } else {
                    assert(tiles@[tiles@.len() - 1] == h);
                }
            }
        }
        i = i + 1;
    }
    proof {
        let far = grid@.dom().filter(|h: Hex| far_floor(grid@, start, h));
        assert forall|h: Hex| tiles@.to_set().contains(h) <==> far.contains(h) by {
            if far.contains(h) {
                let k = choose|k: int| 0 <= k < items@.len() && items@[k].0 == h;
                assert(far_floor(grid@, start, items@[k].0));
            }
            if tiles@.to_set().contains(h) {
                let j = choose|j: int| 0 <= j < tiles@.len() && tiles@[j] == h;
                assert(far_floor(grid@, start, tiles@[j]));
            }
        }
        assert(tiles@.to_set() =~= far);
        tiles@.unique_seq_to_set();
    }
    tiles
}

/// Spreading `count` picks over `n` tiles, `j * n / count` grows with `j`.
proof fn lemma_spread_increasing(j: int, i: int, n: int, count: int)
    requires
        0 <= j < i,
        0 < count <= n,
    ensures
        j * n / count < i * n / count,
{
    let a = j * n;
    let b = i * n;
    assert(b >= a + n) by (nonlinear_arith)
        requires
            a == j * n,
            b == i * n,
            j < i,
            0 < n,
    ;
    vstd::arithmetic::div_mod::lemma_fundamental_div_mod(a, count);
    vstd::arithmetic::div_mod::lemma_fundamental_div_mod(b, count);
    let qa = a / count;
    let qb = b / count;
    let ra = a % count;
    let rb = b % count;
    assert(0 <= ra < count && 0 <= rb < count);
    assert(qa < qb) by (nonlinear_arith)
        requires
            a == count * qa + ra,
            b == count * qb + rb,
            0 <= ra < count,
            0 <= rb < count,
            b >= a + count,
            0 < count,
    ;
}

/// Spawn `count` enemies, spread evenly over the tiles' list.
fn spawn_enemies(world: &mut World, tiles: &Vec<Hex>, count: usize, hp: i32, m: Ghost<Map<Hex, DungeonTile>>, start: Ghost<Hex>) -> (keys: Ghost<Seq<u64>>)
    requires
        count <= tiles@.len(),
        forall|i: int| 0 <= i < tiles@.len() ==> far_floor(m@, start@, #[trigger] tiles@[i]),
        tiles@.no_duplicates(),
    ensures
        keys@.len() == count,
        enemies_spawned(view_of(*old(world)), view_of(*final(world)), keys@, m@, start@, hp),
        forall|i: int| 0 <= i < count ==> view_of(*final(world)).positions[#[trigger] keys@[i]]
            == tiles@[i * tiles@.len() / (count as int)],
{
    let ghost v = view_of(*world);
    let ghost mut keys: Seq<u64> = Seq::empty();
    assert(v.displays.union_prefer_right(enemy_displays(keys)) =~= v.displays);
    let n = tiles.len();
    let mut i: usize = 0;
    while i < count
        invariant
            i <= count <= n,
            n == tiles@.len(),
            forall|j: int| 0 <= j < tiles@.len() ==> far_floor(m@, start@, #[trigger] tiles@[j]),
            keys.len() == i,
            enemies_spawned(v, view_of(*world), keys, m@, start@, hp),
            tiles@.no_duplicates(),
            forall|j: int| 0 <= j < i ==> view_of(*world).positions[#[trigger] keys[j]] == tiles@[j * (n as int)
                / (count as int)],
        decreases count - i,
    {
        proof {
            let x = (i as int) * (n as int);
            assert(x < (count as int) * (n as int)) by (nonlinear_arith)
                requires
                    x == (i as int) * (n as int),
                    i < count,
                    count <= n,
            ;
            vstd::arithmetic::div_mod::lemma_multiply_divide_lt(x, count as int, n as int);
            assert(0 <= x) by (nonlinear_arith)
                requires
                    x == (i as int) * (n as int),
                    0 <= i,
                    0 <= n,
            ;
            assert(x < 0x1_0000_0000_0000_0000_0000_0000_0000_0000) by (nonlinear_arith)
                requires
                    x == (i as int) * (n as int),
                    0 <= i < 0x1_0000_0000_0000_0000,
                    0 <= n < 0x1_0000_0000_0000_0000,
            ;
        }
        let wide = (i as u128) * (n as u128);
        let idx = (wide / (count as u128)) as usize;
        assert(idx < n);
        let pos = tiles[idx];
        let ghost before = view_of(*world);
        proof {
            assert(idx as int == (i as int) * (n as int) / (count as int));
            assert forall|j: int| 0 <= j < keys.len() implies before.positions[#[trigger] keys[j]] != pos by {
                lemma_spread_increasing(j, i as int, n as int, count as int);
                assert(tiles@[j * (n as int) / (count as int)] != tiles@[idx as int]);
            }
        }
        let e = spawn_enemy(world, pos, Health::new(hp), ActionPoints::new(2), floor_enemy_exec(), Display { glyph: 'g', color: (255, 100, 100) });
        proof {
            lemma_enemy_added(v, before, view_of(*world), keys, entity_key(e), pos, m@, start@, hp);
            let ghost old_keys = keys;
            keys = keys.push(entity_key(e));
            assert forall|j: int| 0 <= j < i + 1 implies view_of(*world).positions[#[trigger] keys[j]]
                == tiles@[j * (n as int) / (count as int)] by {
                if j < i {
                    assert(keys[j] == old_keys[j]);
                    assert(old_keys[j] != entity_key(e));
                }
            }
        }
        i = i + 1;
    }
    Ghost(keys)
}

/// The floor that the stairs lead to.
pub open spec fn next_floor_number(s: GameState) -> int {
    match s {
        GameState::Playing { floor } => floor + 1,
        _ => 1,
    }
}

/// The dungeon configuration of floor `n`: the default size, six rooms and
/// a boss room.
pub open spec fn floor_config(n: int) -> DungeonConfig {
    DungeonConfig { width: 40, height: 30, num_rooms: 6, floor_number: n as i32, has_boss: true }
}

/// The grid is laid out as `generate` lays out floor `n`, with `start` as the
/// player's start: rooms, corridors, stairs and boss room as `rooms_placed`
/// says.
pub open spec fn floor_layout(m: Map<Hex, DungeonTile>, n: int, start: Hex) -> bool {
    exists|rooms: Seq<(Hex, i32)>, boss: Option<Hex>| #[trigger] rooms_placed(m, floor_config(n), rooms, start, boss)
}

/// What every generated floor satisfies, with `start` as the player's start.
pub open spec fn fresh_floor(m: Map<Hex, DungeonTile>, start: Hex) -> bool {
    &&& keys_in_limit(m)
    &&& covers(m, 20, 15)
    &&& holds(m, DungeonTile::Stairs) ==> m.contains_key(start) && m[start] != DungeonTile::Wall
    &&& !holds(m, DungeonTile::Stairs) ==> start == (Hex { x: 0, y: 0, z: 0 })
}

/// The steps of a descent to floor `n` (at most three): a new floor is
/// generated as `generate` makes floor `n`, the player moves to its start (`moved`), the descent is
/// announced, and `2 + n` enemies (or as many as there are far floor
/// tiles) appear with `15 + 5 n` health.
pub open spec fn descent_steps(before: Game, start: Hex, moved: Game, keys: Seq<u64>, after: Game) -> bool {
    let v = view_of(before.world);
    let p = before.player_key();
    let n = next_floor_number(before.state);
    &&& after.state == GameState::Playing { floor: n as i32 }
    &&& after.grid.wf()
    &&& fresh_floor(after.grid@, start)
    &&& floor_layout(after.grid@, n, start)
    &&& after.player == before.player
    &&& after.grimoire@ == before.grimoire@
    &&& view_of(moved.world) == if v.positions.contains_key(p) {
        WorldView { positions: v.positions.insert(p, start), ..v }
    } else {
        v
    }
    &&& texts(after.messages@) == texts(before.messages@).push(
        "Descended to floor "@ + decimal(n as nat) + "..."@,
    )
    &&& keys.len() == if 2 + n < far_floor_count(after.grid@, start) {
        2 + n
    } else {
        far_floor_count(after.grid@, start) as int
    }
    &&& enemies_spawned(view_of(moved.world), view_of(after.world), keys, after.grid@, start, (15 + 5 * n) as i32)
}

/// Taking the stairs: past the third floor the dungeon is escaped;
/// otherwise play goes on on a freshly generated floor.
pub open spec fn floor_descended(before: Game, after: Game) -> bool {
    if next_floor_number(before.state) > 3 {
        &&& after.state == GameState::Victory
        &&& same_setup(before, after)
        &&& view_of(after.world) == view_of(before.world)
        &&& texts(after.messages@) == texts(before.messages@).push("You escaped the dungeon!"@)
    } else {
        exists|start: Hex, moved: Game, keys: Seq<u64>| #[trigger] descent_steps(before, start, moved, keys, after)
    }
}

/// Taking the stairs to a new floor puts the player on that floor's start:
/// the center of its first room, as `generate` lays the floor out, which can
/// be walked on whenever the floor has stairs.
pub proof fn lemma_descent_places_player(before: Game, after: Game)
    requires
        floor_descended(before, after),
        next_floor_number(before.state) <= 3,
        view_of(before.world).positions.contains_key(before.player_key()),
    ensures
        ({
            let p = before.player_key();
            let pos = view_of(after.world).positions[p];
            &&& view_of(after.world).positions.contains_key(p)
            &&& floor_layout(after.grid@, next_floor_number(before.state), pos)
            &&& fresh_floor(after.grid@, pos)
            &&& holds(after.grid@, DungeonTile::Stairs) ==> open_tile(after.grid@, pos)
        }),
{
    let (start, moved, keys) = choose|start: Hex, moved: Game, keys: Seq<u64>|
        #[trigger] descent_steps(before, start, moved, keys, after);
    let p = before.player_key();
    let v = view_of(before.world);
    assert(view_of(moved.world).positions.contains_key(p));
    assert(view_of(moved.world).positions[p] == start);
    assert(view_of(after.world).positions[p] == start);
}

impl Game {
    /// Take the stairs down.
    fn next_floor(&mut self)
        requires
            old(self).wf(),
        ensures
            final(self).wf(),
            floor_descended(*old(self), *final(self)),
    {
        let ghost v = view_of(self.world);
        let ghost p = self.player_key();
        let new_floor: i32 = match self.state {
            GameState::Playing { floor } => floor + 1,
            _ => 1,
        };
        if new_floor > 3 {
            self.state = GameState::Victory;
            say(&mut self.messages, "You escaped the dungeon!");
            return;
        }
        let mut config = DungeonConfig::default();
        config.floor_number = new_floor;
        let result = generate(&config, &mut self.rng);
        let start = result.player_start;
        proof {
            assert(config == floor_config(new_floor as int));
            let rooms = choose|rooms: Seq<(Hex, i32)>|
                #[trigger] rooms_placed(result.grid@, config, rooms, start, result.boss_spawn);
            assert(rooms_placed(result.grid@, floor_config(new_floor as int), rooms, start, result.boss_spawn));
            assert(floor_layout(result.grid@, new_floor as int, start));
        }
        self.grid = result.grid;
        store_position(&mut self.world, self.player, start);
        let ghost moved = *self;
        self.state = GameState::Playing { floor: new_floor };
        let mut text = String::from_str("Descended to floor ");
        text.append(decimal_text(new_floor as u32).as_str());
        proof {
            reveal_strlit("...");
        }
        text.append("...");
        let ghost before_msgs = texts(self.messages@);
        self.messages.push(text);
        assert(texts(self.messages@) =~= before_msgs.push("Descended to floor "@ + decimal(new_floor as nat) + "..."@));
        proof {
            assert(start.within_limit()) by {
                if holds(self.grid@, DungeonTile::Stairs) {
                    assert(self.grid@.contains_key(start));
                }
            }
        }
        let tiles = far_floor_tiles(&self.grid, start);
        let cap: usize = (2 + new_floor) as usize;
        let count = if cap < tiles.len() { cap } else { tiles.len() };
        let keys = spawn_enemies(&mut self.world, &tiles, count, 15 + new_floor * 5, Ghost(self.grid@), Ghost(start));
        proof {
            let w = view_of(self.world);
            let vm = view_of(moved.world);
            assert(fresh_floor(self.grid@, start));
            assert(descent_steps(*old(self), start, moved, keys@, *self));
            assert forall|q: u64| #[trigger] w.positions.contains_key(q) implies w.positions[q].within_limit()
                && w.positions[q].is_valid() by {
                if keys@.contains(q) {
                    let i = choose|i: int| 0 <= i < keys@.len() && keys@[i] == q;
                    assert(far_floor(self.grid@, start, w.positions[keys@[i]]));
                } else {
                    assert(vm.positions.contains_key(q));
                    if q != p {
                        assert(v.positions.contains_key(q));
                    }
                }
            }
            assert forall|q: u64| #[trigger] w.healths.contains_key(q) implies w.healths[q].current >= 0 by {
                if keys@.contains(q) {
                    let i = choose|i: int| 0 <= i < keys@.len() && keys@[i] == q;
                    assert(w.healths[keys@[i]] == (Health { current: (15 + new_floor * 5) as i32, max: (15 + new_floor * 5) as i32 }));
                } else {
                    assert(vm.healths.contains_key(q));
                }
            }
            assert forall|q: u64| #[trigger] w.statuses.contains_key(q) implies effects_ok(w.statuses[q]) by {
                assert(vm.statuses.contains_key(q));
            }
            assert(vm.healths.contains_key(p));
            assert(!keys@.contains(p)) by {
                if keys@.contains(p) {
                    let i = choose|i: int| 0 <= i < keys@.len() && keys@[i] == p;
                    assert(vm.lacks_entity(keys@[i]));
                }
            }
            assert(w.healths[p] == vm.healths[p]);
        }
    }
}

/// The steps of a move onto the walkable hex `target`: one action point
/// spent and the player moved (`stepped`), the runes there picked up
/// (`collected`), on stairs the descent announced and taken (`announced`,
/// `descended`), and a player left without action points ending the turn.
pub open spec fn move_steps(
    before: Game,
    target: Hex,
    stepped: Game,
    collected: Game,
    announced: Game,
    descended: Game,
    after: Game,
) -> bool {
    let v = view_of(before.world);
    let p = before.player_key();
    let ap = v.action_points[p];
    &&& world_now(before, stepped, WorldView {
        action_points: v.action_points.insert(p, ActionPoints { current: (ap.current - 1) as i32, max: ap.max }),
        positions: v.positions.insert(p, target),
        ..v
    })
    &&& runes_collected(stepped, collected, target)
    &&& if before.grid@[target] == DungeonTile::Stairs {
        &&& said(collected, announced, "You descend the stairs..."@)
        &&& floor_descended(announced, descended)
    } else {
        descended == collected
    }
    &&& if out_of_points(descended) {
        turn_ended(descended, after)
    } else {
        after == descended
    }
}

/// A move in `direction` (taken modulo 6): without action points nothing
/// happens (and is said when there are too few); a step onto a wall or off
/// the map is blocked; otherwise the player steps there.
pub open spec fn moved(before: Game, after: Game, direction: usize) -> bool {
    let v = view_of(before.world);
    let p = before.player_key();
    if !v.action_points.contains_key(p) {
        after == before
    } else if v.action_points[p].current < 1 {
        said(before, after, "Not enough AP!"@)
    } else if !v.positions.contains_key(p) {
        after == before
    } else {
        let target = v.positions[p].plus(spec_direction((direction % 6) as int));
        if !(before.grid@.contains_key(target) && before.grid@[target] != DungeonTile::Wall) {
            said(before, after, "Blocked!"@)
        } else {
            exists|stepped: Game, collected: Game, announced: Game, descended: Game|
                #[trigger] move_steps(before, target, stepped, collected, announced, descended, after)
        }
    }
}

impl Game {
    /// Try to move the player one hex in `direction` (taken modulo 6).
    pub fn try_move(&mut self, direction: usize)
        requires
            old(self).wf(),
        ensures
            final(self).wf(),
            moved(*old(self), *final(self), direction),
    {
        let ghost v = view_of(self.world);
        let ghost p = self.player_key();
        let points = action_points_of(&self.world, self.player);
        let ap = match points {
            Some(a) => a,
            None => {
                return;
            },
        };
        if ap.current < 1 {
            say(&mut self.messages, "Not enough AP!");
            return;
        }
        let position = position_of(&self.world, self.player);
        let pos = match position {
            Some(h) => h,
            None => {
                return;
            },
        };
        assert(v.positions.contains_key(p));
        let new_pos = pos.neighbor(direction);
        let tile = self.grid.get(new_pos);
        let (walkable, is_stairs) = match tile {
            Some(t) => (t.is_walkable(), *t == DungeonTile::Stairs),
            None => (false, false),
        };
        if !walkable {
            say(&mut self.messages, "Blocked!");
            return;
        }
        let mut spent = ap;
        spent.current = spent.current - 1;
        store_action_points(&mut self.world, self.player, spent);
        store_position(&mut self.world, self.player, new_pos);
        let ghost stepped = *self;
        proof {
            assert(view_of(self.world) =~= (WorldView {
                action_points: v.action_points.insert(p, ActionPoints { current: (ap.current - 1) as i32, max: ap.max }),
                positions: v.positions.insert(p, new_pos),
                ..v
            }));
            let w = view_of(self.world);
            assert(self.grid@.contains_key(new_pos));
            assert forall|q: u64| #[trigger] w.positions.contains_key(q) implies w.positions[q].within_limit()
                && w.positions[q].is_valid() by {
                if q != p {
                    assert(v.positions.contains_key(q));
                }
            }
            assert forall|q: u64| #[trigger] w.healths.contains_key(q) implies w.healths[q].current >= 0 by {
                assert(v.healths.contains_key(q));
            }
            assert forall|q: u64| #[trigger] w.statuses.contains_key(q) implies effects_ok(w.statuses[q]) by {
                assert(v.statuses.contains_key(q));
            }
        }
        self.collect_runes(new_pos);
        let ghost collected = *self;
        let ghost mut announced = *self;
        if is_stairs {
            say(&mut self.messages, "You descend the stairs...");
            proof {
                announced = *self;
            }
            self.next_floor();
        }
        let ghost descended = *self;
        let left = action_points_of(&self.world, self.player);
        let out_of_ap = match left {
            Some(a) => a.current <= 0,
            None => true,
        };
        if out_of_ap {
            self.end_turn();
        }
        proof {
            assert(move_steps(*old(self), new_pos, stepped, collected, announced, descended, *self));
        }
    }
}

/// The player's inventory is small enough to craft from.
pub open spec fn craft_ready(g: Game) -> bool {
    let v = view_of(g.world);
    v.inventories.contains_key(g.player_key()) ==> craftable_counts(v.inventories[g.player_key()])
}

/// How many element runes and how many modifier runes a list holds.
fn rune_counts(runes: &Vec<Rune>) -> (counts: (usize, usize))
    ensures
        counts.0 == elements_of(runes@).len(),
        counts.1 == modifiers_of(runes@).len(),
{
    let mut elements: usize = 0;
    let mut modifiers: usize = 0;
    let mut i: usize = 0;
    while i < runes.len()
        invariant
            i <= runes@.len(),
            elements == elements_of(runes@.take(i as int)).len(),
            modifiers == modifiers_of(runes@.take(i as int)).len(),
            elements <= i,
            modifiers <= i,
        decreases runes@.len() - i,
    {
        assert(runes@.take(i + 1).drop_last() =~= runes@.take(i as int));
        match runes[i].kind {
            RuneKind::Element(_) => {
                elements = elements + 1;
            },
            RuneKind::Modifier(_) => {
                modifiers = modifiers + 1;
            },
            RuneKind::Shape(_) => {},
        }
        i = i + 1;
    }
    assert(runes@.take(i as int) =~= runes@);
    (elements, modifiers)
}

/// The input's effect on a game.
pub open spec fn handled(before: Game, after: Game, input: Input) -> bool {
    match before.state {
        GameState::Playing { floor } => match input {
            Input::Move(d) => moved(before, after, d),
            Input::Wait => exists|waited: Game| #[trigger] said(before, waited, "You wait..."@) && turn_ended(waited, after),
            Input::Attack => attacked(before, after),
            Input::CastSpell => if before.grimoire@.len() > 0 {
                &&& same_setup(before, after)
                &&& after.world == before.world
                &&& after.messages@ == before.messages@
                &&& after.state == GameState::SpellSelect { floor }
            } else {
                said(before, after, "No spells crafted! Press 'r' to craft."@)
            },
            Input::CraftSpell => spell_crafted(before, after),
            _ => after == before,
        },
        GameState::SpellSelect { floor } => match input {
            Input::SelectSpell(i) => if i < before.grimoire@.len() {
                &&& same_setup(before, after)
                &&& after.world == before.world
                &&& after.messages@ == before.messages@
                &&& after.state == GameState::Targeting { spell_idx: i, floor }
            } else {
                after == before
            },
            Input::Cancel => {
                &&& same_setup(before, after)
                &&& after.world == before.world
                &&& after.messages@ == before.messages@
                &&& after.state == GameState::Playing { floor }
            },
            _ => after == before,
        },
        GameState::Targeting { floor, .. } => match input {
            Input::Cancel => {
                &&& same_setup(before, after)
                &&& after.world == before.world
                &&& after.messages@ == before.messages@
                &&& after.state == GameState::Playing { floor }
            },
            _ => after == before,
        },
        _ => after == before,
    }
}

impl Game {
    /// Whether the player's inventory is small enough to craft from.
    pub fn can_craft(&self) -> (b: bool)
        ensures
            b == craft_ready(*self),
    {
        match inventory_of(&self.world, self.player) {
            Some(runes) => {
                let (elements, modifiers) = rune_counts(&runes);
                elements <= 214748364 && modifiers <= 2147483643
            },
            None => true,
        }
    }

    /// Handle player input.
    pub fn handle_input(&mut self, input: Input)
        requires
            old(self).wf(),
            input == Input::CraftSpell ==> craft_ready(*old(self)),
        ensures
            final(self).wf(),
            handled(*old(self), *final(self), input),
    {
        match (self.state, input) {
            (GameState::Playing { .. }, Input::Move(dir)) => {
                self.try_move(dir);
            },
            (GameState::Playing { .. }, Input::Wait) => {
                say(&mut self.messages, "You wait...");
                let ghost waited = *self;
                self.end_turn();
                assert(said(*old(self), waited, "You wait..."@));
            },
            (GameState::Playing { .. }, Input::Attack) => {
                self.try_attack();
            },
            (GameState::Playing { floor }, Input::CastSpell) => {
                if self.grimoire.len() > 0 {
                    self.state = GameState::SpellSelect { floor };
                } else {
                    say(&mut self.messages, "No spells crafted! Press 'r' to craft.");
                }
            },
            (GameState::Playing { .. }, Input::CraftSpell) => {
                self.craft_spell_from_inventory();
            },
            (GameState::SpellSelect { floor }, Input::SelectSpell(idx)) => {
                if idx < self.grimoire.len() {
                    self.state = GameState::Targeting { spell_idx: idx, floor };
                }
            },
            (GameState::SpellSelect { floor }, Input::Cancel) | (GameState::Targeting { floor, .. }, Input::Cancel) => {
                self.state = GameState::Playing { floor };
            },
            _ => {},
        }
    }
}

/// The spot of the `i`-th starter rune: `i` steps along the x axis, away
/// from y, from the start.
pub open spec fn starter_spot(start: Hex, i: int) -> Hex {
    Hex { x: (start.x + i) as i32, y: (start.y - i) as i32, z: start.z }
}

/// The grid lets a unit stand on `h`.
pub open spec fn open_at(m: Map<Hex, DungeonTile>, h: Hex) -> bool {
    m.contains_key(h) && m[h] != DungeonTile::Wall
}

/// The welcome messages.
pub open spec fn welcome() -> Seq<Seq<char>> {
    seq![
        "Welcome to Hexcaster!"@,
        "Move: qweasd | Attack: space | Craft: r | Cast: c"@,
        "Collect runes (*) and craft spells to survive!"@,
    ]
}

/// A rune lies at `spot` as the fresh entity `k` in `after` exactly when the
/// spot is open; otherwise nothing changes.
pub open spec fn starter_placed(before: WorldView, after: WorldView, open: bool, k: u64, spot: Hex, r: Rune) -> bool {
    if open {
        &&& before.lacks_entity(k)
        &&& after == (WorldView {
            positions: before.positions.insert(k, spot),
            pickups: before.pickups.insert(k, r),
            displays: before.displays.insert(k, pickup_display()),
            ..before
        })
    } else {
        after == before
    }
}

/// The steps of a new game: the first floor is generated as `generate` lays
/// it out, with `start`; the player
/// (`p`) appears there with full health 100, four action points, no runes
/// and no effects; up to three enemies of health 20 appear on far floor
/// tiles (`with_enemies`); a fire rune and a point rune are laid on the open
/// spots one and two steps away.
pub open spec fn new_game_steps(
    g: Game,
    start: Hex,
    keys: Seq<u64>,
    with_enemies: WorldView,
    with_one: WorldView,
    k1: u64,
    k2: u64,
) -> bool {
    let p = g.player_key();
    let with_player = WorldView {
        positions: map![p => start],
        healths: map![p => Health { current: 100, max: 100 }],
        action_points: map![p => ActionPoints { current: 4, max: 4 }],
        inventories: map![p => Seq::empty()],
        statuses: map![p => Seq::empty()],
        enemies: Map::empty(),
        pickups: Map::empty(),
        displays: map![p => Display { glyph: '@', color: (255, 255, 255) }],
        players: set![p],
    };
    &&& g.grid.wf()
    &&& fresh_floor(g.grid@, start)
    &&& floor_layout(g.grid@, 1, start)
    &&& keys.len() == if 3 < far_floor_count(g.grid@, start) {
        3
    } else {
        far_floor_count(g.grid@, start) as int
    }
    &&& enemies_spawned(with_player, with_enemies, keys, g.grid@, start, 20)
    &&& starter_placed(with_enemies, with_one, open_at(g.grid@, starter_spot(start, 1)), k1, starter_spot(start, 1), Rune { kind: RuneKind::Element(Element::Fire) })
    &&& starter_placed(with_one, view_of(g.world), open_at(g.grid@, starter_spot(start, 2)), k2, starter_spot(start, 2), Rune { kind: RuneKind::Shape(Shape::Point) })
}

impl Game {
    /// Create a new game on the first floor.
    pub fn new() -> (g: Self)
        ensures
            g.wf(),
            g.state == (GameState::Playing { floor: 1 }),
            g.grimoire@.len() == 0,
            texts(g.messages@) == welcome(),
            exists|start: Hex, keys: Seq<u64>, with_enemies: WorldView, with_one: WorldView, k1: u64, k2: u64|
                #[trigger] new_game_steps(g, start, keys, with_enemies, with_one, k1, k2),
            exists|k: u64| #[trigger] view_of(g.world).pickups.contains_key(k),
    {
        let mut rng = entropy_rng();
        let config = DungeonConfig::default();
        let result = generate(&config, &mut rng);
        let grid = result.grid;
        let player_start = result.player_start;
        proof {
            let rooms = choose|rooms: Seq<(Hex, i32)>|
                #[trigger] rooms_placed(grid@, config, rooms, player_start, result.boss_spawn);
            assert(config == floor_config(1));
            assert(rooms_placed(grid@, floor_config(1), rooms, player_start, result.boss_spawn));
            assert(floor_layout(grid@, 1, player_start));
            assert(rooms.len() > 0);
            assert(player_start == rooms[0].0);
            assert(2 <= rooms[0].1);
            let spot = starter_spot(player_start, 1);
            assert(spot.is_valid() && spot.dist(rooms[0].0) <= rooms[0].1);
            assert(open_tile(grid@, spot));
            assert(open_at(grid@, spot));
            assert(player_start.within_limit()) by {
                if holds(grid@, DungeonTile::Stairs) {
                    assert(grid@.contains_key(player_start));
                }
            }
        }
        let mut world = new_world();
        let player = spawn_player(
            &mut world,
            player_start,
            Health::new(100),
            ActionPoints::new(4),
            Inventory { runes: Vec::new() },
            Status { effects: Vec::new() },
            Display { glyph: '@', color: (255, 255, 255) },
        );
        let ghost p = entity_key(player);
        let ghost with_player = view_of(world);
        assert(with_player =~= (WorldView {
            positions: map![p => player_start],
            healths: map![p => Health { current: 100, max: 100 }],
            action_points: map![p => ActionPoints { current: 4, max: 4 }],
            inventories: map![p => Seq::empty()],
            statuses: map![p => Seq::empty()],
            enemies: Map::empty(),
            pickups: Map::empty(),
            displays: map![p => Display { glyph: '@', color: (255, 255, 255) }],
            players: set![p],
        }));
        let tiles = far_floor_tiles(&grid, player_start);
        let count = if 3 < tiles.len() { 3 } else { tiles.len() };
        let keys = spawn_enemies(&mut world, &tiles, count, 20, Ghost(grid@), Ghost(player_start));
        let ghost with_enemies = view_of(world);
        let ghost mut with_one = with_enemies;
        let ghost mut k1: u64 = 0;
        let ghost mut k2: u64 = 0;
        let starter = [Rune::element(Element::Fire), Rune::shape(Shape::Point)];
        let ghost spot1 = starter_spot(player_start, 1);
        let ghost spot2 = starter_spot(player_start, 2);
        let mut i: usize = 0;
        while i < 2
            invariant
                i <= 2,
                player_start.within_limit(),
                player_start.is_valid(),
                starter@ == seq![Rune { kind: RuneKind::Element(Element::Fire) }, Rune { kind: RuneKind::Shape(Shape::Point) }],
                grid.wf(),
                i >= 1 ==> starter_placed(with_enemies, with_one, open_at(grid@, spot1), k1, spot1, starter@[0]),
                i >= 2 ==> starter_placed(with_one, view_of(world), open_at(grid@, spot2), k2, spot2, starter@[1]),
                i == 0 ==> view_of(world) == with_enemies,
                i == 1 ==> view_of(world) == with_one,
                spot1 == starter_spot(player_start, 1),
                spot2 == starter_spot(player_start, 2),
            decreases 2 - i,
        {
            let offset = (i + 1) as i32;
            let pos = Hex::new(player_start.x + offset, player_start.y - offset, player_start.z);
            let rune = starter[i];
            let ghost before = view_of(world);
            let open = match grid.get(pos) {
                Some(t) => t.is_walkable(),
                None => false,
            };
            if open {
                let e = spawn_pickup(&mut world, pos, RunePickup { rune }, Display { glyph: '*', color: (255, 255, 0) });
                proof {
                    if i == 0 {
                        k1 = entity_key(e);
                    } else {
                        k2 = entity_key(e);
                    }
                }
            }
            proof {
                if i == 0 {
                    with_one = view_of(world);
                }
            }
            i = i + 1;
        }
        proof {
            assert(with_one.pickups.contains_key(k1));
            assert(view_of(world).pickups.contains_key(k1));
        }
        let mut messages: Vec<String> = Vec::new();
        say(&mut messages, "Welcome to Hexcaster!");
        say(&mut messages, "Move: qweasd | Attack: space | Craft: r | Cast: c");
        say(&mut messages, "Collect runes (*) and craft spells to survive!");
        let g = Game {
            state: GameState::Playing { floor: 1 },
            world,
            grid,
            player,
            grimoire: Vec::new(),
            messages,
            rng,
        };
        proof {
            assert(texts(g.messages@) =~= welcome());
            assert(new_game_steps(g, player_start, keys@, with_enemies, with_one, k1, k2));
            let w = view_of(g.world);
            assert forall|q: u64| #[trigger] w.positions.contains_key(q) implies w.positions[q].within_limit()
                && w.positions[q].is_valid() by {
                if with_enemies.positions.contains_key(q) {
                    if keys@.contains(q) {
                        let j = choose|j: int| 0 <= j < keys@.len() && keys@[j] == q;
                        assert(far_floor(grid@, player_start, with_enemies.positions[keys@[j]]));
                    } else {
                        assert(with_player.positions.contains_key(q));
                    }
                    assert(with_one.positions.contains_key(q));
                } else if with_one.positions.contains_key(q) {
                    assert(q == k1);
                } else {
                    assert(q == k2);
                }
            }
            assert forall|q: u64| #[trigger] w.healths.contains_key(q) implies w.healths[q].current >= 0 by {
                assert(with_enemies.healths.contains_key(q));
                if keys@.contains(q) {
                    let j = choose|j: int| 0 <= j < keys@.len() && keys@[j] == q;
                    assert(with_enemies.healths[keys@[j]] == (Health { current: 20, max: 20 }));
                } else {
                    assert(with_player.healths.contains_key(q));
                }
            }
            assert forall|q: u64| #[trigger] w.statuses.contains_key(q) implies effects_ok(w.statuses[q]) by {
                assert(with_player.statuses.contains_key(q));
                assert(with_player.statuses[q] =~= Seq::<StatusEffect>::empty());
            }
            assert(with_enemies.healths.contains_key(p));
            assert(with_enemies.healths[p] == with_player.healths[p]);
            assert(!w.pickups.contains_key(p)) by {
                assert(!with_enemies.pickups.contains_key(p));
                if open_at(grid@, spot1) {
                    assert(with_enemies.lacks_entity(k1));
                }
                if open_at(grid@, spot2) {
                    assert(with_one.lacks_entity(k2));
                }
            }
        }
        g
    }
}

impl Default for Game {
    fn default() -> (g: Self)
        ensures
            g.wf(),
            g.state == (GameState::Playing { floor: 1 }),
            g.grimoire@.len() == 0,
            texts(g.messages@) == welcome(),
    {
        Game::new()
    }
}

} // verus!
