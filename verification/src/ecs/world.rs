//! The `hecs` world that holds the game's entities, as the library sees it:
//! for each kind of component it reads, a map from entity keys to values.

use hecs::{Entity, World};
use vstd::prelude::*;

use crate::ecs::components::{
    ActionPoints, Display, Enemy, Health, Inventory, Player, Position, RunePickup, Status,
    StatusEffect,
};
use crate::hex::Hex;
use crate::magic::Rune;

verus! {

/// `hecs::World`, the store of game entities and their components.
#[verifier::external_type_specification]
#[verifier::external_body]
pub struct ExWorld(World);

/// `hecs::Entity`, a handle to an entity of a world.
#[verifier::external_type_specification]
#[verifier::external_body]
pub struct ExEntity(Entity);

/// The 64-bit identity of an entity, `Entity::to_bits`: equal exactly for
/// equal entities (`Entity::from_bits` gives the entity back).
pub uninterp spec fn entity_key(e: Entity) -> u64;

/// The entities with a `Position`, mapped to it.
pub uninterp spec fn world_positions(w: World) -> Map<u64, Hex>;

/// The entities with `Health`, mapped to it.
pub uninterp spec fn world_healths(w: World) -> Map<u64, Health>;

/// The entities with `ActionPoints`, mapped to them.
pub uninterp spec fn world_action_points(w: World) -> Map<u64, ActionPoints>;

/// The entities with an `Inventory`, mapped to its runes.
pub uninterp spec fn world_inventories(w: World) -> Map<u64, Seq<Rune>>;

/// The entities with a `Status`, mapped to its effects.
pub uninterp spec fn world_statuses(w: World) -> Map<u64, Seq<StatusEffect>>;

/// The entities with an `Enemy` component, mapped to it.
pub uninterp spec fn world_enemies(w: World) -> Map<u64, Enemy>;

/// The entities with a `RunePickup`, mapped to its rune.
pub uninterp spec fn world_pickups(w: World) -> Map<u64, Rune>;

/// The entities with a `Display`, mapped to it.
pub uninterp spec fn world_displays(w: World) -> Map<u64, Display>;

/// The entities with the `Player` marker.
pub uninterp spec fn world_players(w: World) -> Set<u64>;

/// The components of a world that the game reads, by entity key.
#[verifier::ext_equal]
pub struct WorldView {
    pub positions: Map<u64, Hex>,
    pub healths: Map<u64, Health>,
    pub action_points: Map<u64, ActionPoints>,
    pub inventories: Map<u64, Seq<Rune>>,
    pub statuses: Map<u64, Seq<StatusEffect>>,
    pub enemies: Map<u64, Enemy>,
    pub pickups: Map<u64, Rune>,
    pub displays: Map<u64, Display>,
    pub players: Set<u64>,
}

/// The components of a world, by entity key.
pub open spec fn view_of(w: World) -> WorldView {
    WorldView {
        positions: world_positions(w),
        healths: world_healths(w),
        action_points: world_action_points(w),
        inventories: world_inventories(w),
        statuses: world_statuses(w),
        enemies: world_enemies(w),
        pickups: world_pickups(w),
        displays: world_displays(w),
        players: world_players(w),
    }
}

impl WorldView {
    /// The view without any component of entity `k`.
    pub open spec fn without(self, k: u64) -> WorldView {
        WorldView {
            positions: self.positions.remove(k),
            healths: self.healths.remove(k),
            action_points: self.action_points.remove(k),
            inventories: self.inventories.remove(k),
            statuses: self.statuses.remove(k),
            enemies: self.enemies.remove(k),
            pickups: self.pickups.remove(k),
            displays: self.displays.remove(k),
            players: self.players.remove(k),
        }
    }

    /// No component of entity `k` is in the view.
    pub open spec fn lacks_entity(self, k: u64) -> bool {
        &&& !self.positions.contains_key(k)
        &&& !self.healths.contains_key(k)
        &&& !self.action_points.contains_key(k)
        &&& !self.inventories.contains_key(k)
        &&& !self.statuses.contains_key(k)
        &&& !self.enemies.contains_key(k)
        &&& !self.pickups.contains_key(k)
        &&& !self.displays.contains_key(k)
        &&& !self.players.contains(k)
    }
}

/// A view with no entities.
pub open spec fn empty_view() -> WorldView {
    WorldView {
        positions: Map::empty(),
        healths: Map::empty(),
        action_points: Map::empty(),
        inventories: Map::empty(),
        statuses: Map::empty(),
        enemies: Map::empty(),
        pickups: Map::empty(),
        displays: Map::empty(),
        players: Set::empty(),
    }
}

/// `World::new`: a world with no entities.
#[verifier::external_body]
pub(crate) fn new_world() -> (w: World)
    ensures
        view_of(w) == empty_view(),
{
    World::new()
}

/// `Entity::to_bits`, as a plain number.
#[verifier::external_body]
pub(crate) fn key_of(e: Entity) -> (k: u64)
    ensures
        k == entity_key(e),
{
    e.to_bits().get()
}

/// `World::spawn` of a player: position, health, action points, the
/// `Player` marker, an inventory, a status and how it is drawn. The new
/// entity is fresh: it had no component before.
#[verifier::external_body]
pub(crate) fn spawn_player(
    world: &mut World,
    position: Hex,
    health: Health,
    points: ActionPoints,
    inventory: Inventory,
    status: Status,
    display: Display,
) -> (e: Entity)
    ensures
        view_of(*old(world)).lacks_entity(entity_key(e)),
        view_of(*final(world)) == (WorldView {
            positions: view_of(*old(world)).positions.insert(entity_key(e), position),
            healths: view_of(*old(world)).healths.insert(entity_key(e), health),
            action_points: view_of(*old(world)).action_points.insert(entity_key(e), points),
            inventories: view_of(*old(world)).inventories.insert(entity_key(e), inventory.runes@),
            statuses: view_of(*old(world)).statuses.insert(entity_key(e), status.effects@),
            displays: view_of(*old(world)).displays.insert(entity_key(e), display),
            players: view_of(*old(world)).players.insert(entity_key(e)),
            ..view_of(*old(world))
        }),
        world_displays(*final(world)) == world_displays(*old(world)).insert(entity_key(e), display),
        world_players(*final(world)) == world_players(*old(world)).insert(entity_key(e)),
{
    world.spawn((Position(position), health, points, Player, inventory, status, display))
}

/// `World::spawn` of an enemy: position, health, action points, its
/// behavior and how it is drawn. The new entity is fresh.
#[verifier::external_body]
pub(crate) fn spawn_enemy(
    world: &mut World,
    position: Hex,
    health: Health,
    points: ActionPoints,
    enemy: Enemy,
    display: Display,
) -> (e: Entity)
    ensures
        view_of(*old(world)).lacks_entity(entity_key(e)),
        view_of(*final(world)) == (WorldView {
            positions: view_of(*old(world)).positions.insert(entity_key(e), position),
            healths: view_of(*old(world)).healths.insert(entity_key(e), health),
            action_points: view_of(*old(world)).action_points.insert(entity_key(e), points),
            enemies: view_of(*old(world)).enemies.insert(entity_key(e), enemy),
            displays: view_of(*old(world)).displays.insert(entity_key(e), display),
            ..view_of(*old(world))
        }),
{
    world.spawn((Position(position), health, points, enemy, display))
}

/// `World::spawn` of a rune lying on the floor. The new entity is fresh.
#[verifier::external_body]
pub(crate) fn spawn_pickup(world: &mut World, position: Hex, pickup: RunePickup, display: Display) -> (e:
    Entity)
    ensures
        view_of(*old(world)).lacks_entity(entity_key(e)),
        view_of(*final(world)) == (WorldView {
            positions: view_of(*old(world)).positions.insert(entity_key(e), position),
            pickups: view_of(*old(world)).pickups.insert(entity_key(e), pickup.rune),
            displays: view_of(*old(world)).displays.insert(entity_key(e), display),
            ..view_of(*old(world))
        }),
{
    world.spawn((Position(position), pickup, display))
}

/// `World::despawn`: remove the entity and all its components.
#[verifier::external_body]
pub(crate) fn despawn(world: &mut World, e: Entity)
    ensures
        view_of(*final(world)) == view_of(*old(world)).without(entity_key(e)),
{
    let _ = world.despawn(e);
}

/// `World::get::<&Position>`: the entity's position, if it has one.
#[verifier::external_body]
pub(crate) fn position_of(world: &World, e: Entity) -> (p: Option<Hex>)
    ensures
        p == world_positions(*world).get(entity_key(e)),
{
    match world.get::<&Position>(e) {
        Ok(p) => Some(p.0),
        Err(_) => None,
    }
}

/// `World::get::<&Health>`: the entity's health, if it has one.
#[verifier::external_body]
pub(crate) fn health_of(world: &World, e: Entity) -> (h: Option<Health>)
    ensures
        h == world_healths(*world).get(entity_key(e)),
{
    match world.get::<&Health>(e) {
        Ok(h) => Some(*h),
        Err(_) => None,
    }
}

/// `World::get::<&ActionPoints>`: the entity's action points, if it has them.
#[verifier::external_body]
pub(crate) fn action_points_of(world: &World, e: Entity) -> (a: Option<ActionPoints>)
    ensures
        a == world_action_points(*world).get(entity_key(e)),
{
    match world.get::<&ActionPoints>(e) {
        Ok(a) => Some(*a),
        Err(_) => None,
    }
}

/// `World::get::<&Inventory>`: a copy of the entity's runes, if it has an inventory.
#[verifier::external_body]
pub(crate) fn inventory_of(world: &World, e: Entity) -> (r: Option<Vec<Rune>>)
    ensures
        match r {
            Some(v) => world_inventories(*world).get(entity_key(e)) == Some(v@),
            None => world_inventories(*world).get(entity_key(e)) is None,
        },
{
    match world.get::<&Inventory>(e) {
        Ok(inv) => Some(inv.runes.clone()),
        Err(_) => None,
    }
}

/// `World::get::<&Status>`: a copy of the entity's effects, if it has a status.
#[verifier::external_body]
pub(crate) fn status_of(world: &World, e: Entity) -> (r: Option<Vec<StatusEffect>>)
    ensures
        match r {
            Some(v) => world_statuses(*world).get(entity_key(e)) == Some(v@),
            None => world_statuses(*world).get(entity_key(e)) is None,
        },
{
    match world.get::<&Status>(e) {
        Ok(s) => Some(s.effects.clone()),
        Err(_) => None,
    }
}

/// `World::get::<&Enemy>`: whether the entity is an enemy.
#[verifier::external_body]
pub(crate) fn is_enemy(world: &World, e: Entity) -> (b: bool)
    ensures
        b == world_enemies(*world).contains_key(entity_key(e)),
{
    world.get::<&Enemy>(e).is_ok()
}

/// `World::get::<&mut Position>`: move an entity that has a position.
#[verifier::external_body]
pub(crate) fn store_position(world: &mut World, e: Entity, p: Hex)
    ensures
        view_of(*final(world)) == if view_of(*old(world)).positions.contains_key(entity_key(e)) {
            WorldView {
                positions: view_of(*old(world)).positions.insert(entity_key(e), p),
                ..view_of(*old(world))
            }
        } else {
            view_of(*old(world))
        },
{
    if let Ok(mut current) = world.get::<&mut Position>(e) {
        current.0 = p;
    }
}

/// `World::get::<&mut Health>`: overwrite the health of an entity that has one.
#[verifier::external_body]
pub(crate) fn store_health(world: &mut World, e: Entity, h: Health)
    ensures
        view_of(*final(world)) == if view_of(*old(world)).healths.contains_key(entity_key(e)) {
            WorldView {
                healths: view_of(*old(world)).healths.insert(entity_key(e), h),
                ..view_of(*old(world))
            }
        } else {
            view_of(*old(world))
        },
{
    if let Ok(mut current) = world.get::<&mut Health>(e) {
        *current = h;
    }
}

/// `World::get::<&mut ActionPoints>`: overwrite the action points of an entity that has them.
#[verifier::external_body]
pub(crate) fn store_action_points(world: &mut World, e: Entity, a: ActionPoints)
    ensures
        view_of(*final(world)) == if view_of(*old(world)).action_points.contains_key(entity_key(e)) {
            WorldView {
                action_points: view_of(*old(world)).action_points.insert(entity_key(e), a),
                ..view_of(*old(world))
            }
        } else {
            view_of(*old(world))
        },
{
    if let Ok(mut current) = world.get::<&mut ActionPoints>(e) {
        *current = a;
    }
}

/// `World::get::<&mut Inventory>`: replace the runes of an entity that has an inventory.
#[verifier::external_body]
pub(crate) fn store_inventory(world: &mut World, e: Entity, runes: Vec<Rune>)
    ensures
        view_of(*final(world)) == if view_of(*old(world)).inventories.contains_key(entity_key(e)) {
            WorldView {
                inventories: view_of(*old(world)).inventories.insert(entity_key(e), runes@),
                ..view_of(*old(world))
            }
        } else {
            view_of(*old(world))
        },
{
    if let Ok(mut current) = world.get::<&mut Inventory>(e) {
        current.runes = runes;
    }
}

/// `World::get::<&mut Status>`: replace the effects of an entity that has a status.
#[verifier::external_body]
pub(crate) fn store_status(world: &mut World, e: Entity, effects: Vec<StatusEffect>)
    ensures
        view_of(*final(world)) == if view_of(*old(world)).statuses.contains_key(entity_key(e)) {
            WorldView {
                statuses: view_of(*old(world)).statuses.insert(entity_key(e), effects@),
                ..view_of(*old(world))
            }
        } else {
            view_of(*old(world))
        },
{
    if let Ok(mut current) = world.get::<&mut Status>(e) {
        current.effects = effects;
    }
}

/// `World::query::<&Position>()`: every entity with a position, once each,
/// with its position; the order is the world's own and is left open.
#[verifier::external_body]
pub(crate) fn positioned_entities(world: &World) -> (v: Vec<(Entity, Hex)>)
    ensures
        forall|k: int|
            0 <= k < v@.len() ==> #[trigger] view_of(*world).positions.get(entity_key(v@[k].0)) == Some(
                v@[k].1,
            ),
        forall|key: u64|
            #[trigger] view_of(*world).positions.contains_key(key) ==> exists|k: int|
                0 <= k < v@.len() && entity_key(v@[k].0) == key,
        forall|i: int, j: int|
            0 <= i < j < v@.len() ==> entity_key(#[trigger] v@[i].0) != entity_key(#[trigger] v@[j].0),
{
    let mut v = Vec::new();
    for (entity, position) in world.query::<&Position>().iter() {
        v.push((entity, position.0));
    }
    v
}

/// `World::query::<&Health>()`: every entity with health, once each, with
/// its health; the order is the world's own and is left open.
#[verifier::external_body]
pub(crate) fn entities_with_health(world: &World) -> (v: Vec<(Entity, Health)>)
    ensures
        forall|k: int|
            0 <= k < v@.len() ==> #[trigger] view_of(*world).healths.get(entity_key(v@[k].0)) == Some(
                v@[k].1,
            ),
        forall|key: u64|
            #[trigger] view_of(*world).healths.contains_key(key) ==> exists|k: int|
                0 <= k < v@.len() && entity_key(v@[k].0) == key,
        forall|i: int, j: int|
            0 <= i < j < v@.len() ==> entity_key(#[trigger] v@[i].0) != entity_key(#[trigger] v@[j].0),
{
    let mut v = Vec::new();
    for (entity, health) in world.query::<&Health>().iter() {
        v.push((entity, *health));
    }
    v
}

/// `World::query::<(&Position, &RunePickup)>()`: every rune lying somewhere,
/// once each, with where it lies; the order is the world's own and is left open.
#[verifier::external_body]
pub(crate) fn lying_runes(world: &World) -> (v: Vec<(Entity, Hex, Rune)>)
    ensures
        forall|k: int|
            0 <= k < v@.len() ==> #[trigger] world_pickups(*world).get(entity_key(v@[k].0)) == Some(
                v@[k].2,
            ) && world_positions(*world).get(entity_key(v@[k].0)) == Some(v@[k].1),
        forall|key: u64|
            #[trigger] world_pickups(*world).contains_key(key) && world_positions(
                *world,
            ).contains_key(key) ==> exists|k: int|
                0 <= k < v@.len() && entity_key(v@[k].0) == key,
        forall|i: int, j: int|
            0 <= i < j < v@.len() ==> entity_key(#[trigger] v@[i].0) != entity_key(#[trigger] v@[j].0),
{
    let mut v = Vec::new();
    for (entity, (position, pickup)) in world.query::<(&Position, &RunePickup)>().iter() {
        v.push((entity, position.0, pickup.rune));
    }
    v
}

} // verus!
