//! Damage calculation and application to the entities of a `hecs` world.

use hecs::{Entity, World};
use vstd::prelude::*;

use crate::ecs::components::Health;
use crate::ecs::world::{
    despawn, entities_with_health, entity_key, health_of, key_of, positioned_entities,
    store_health, view_of, WorldView,
};
use crate::hex::Hex;

verus! {

/// Types of damage.
#[derive(Debug, Clone, Copy, PartialEq, Eq, Structural)]
pub enum DamageType {
    Physical,
    Fire,
    Ice,
    Lightning,
    Void,
}

/// A single damage instance.
#[derive(Debug, Clone, Copy)]
pub struct DamageInstance {
    pub amount: i32,
    pub damage_type: DamageType,
    pub source: Option<Entity>,
}

impl DamageInstance {
    /// Damage of the given amount and type, from no particular source.
    pub fn new(amount: i32, damage_type: DamageType) -> (d: Self)
        ensures
            d.amount == amount,
            d.damage_type == damage_type,
            d.source is None,
    {
        DamageInstance { amount, damage_type, source: None }
    }

    /// The same damage, coming from `source`.
    pub fn with_source(self, source: Entity) -> (d: Self)
        ensures
            d.amount == self.amount,
            d.damage_type == self.damage_type,
            d.source == Some(source),
    {
        DamageInstance { source: Some(source), ..self }
    }
}

/// Damage left after resistance, never below zero.
pub open spec fn damage_after(base: int, resistance: int) -> int {
    if base - resistance > 0 {
        base - resistance
    } else {
        0
    }
}

/// Calculate damage after defenses.
pub fn calculate_damage(base: i32, resistance: i32) -> (d: i32)
    requires
        i32::MIN <= base - resistance <= i32::MAX,
    ensures
        d == damage_after(base as int, resistance as int),
        base >= resistance ==> d == base - resistance,
        base < resistance ==> d == 0,
{
    let d = base - resistance;
    if d > 0 {
        d
    } else {
        0
    }
}

/// Damage is what the base exceeds the resistance by, and nothing when it
/// does not exceed it: no cap applies, and each extra point of base damage
/// past the resistance lands in full.
pub proof fn lemma_damage_excess(base: int, resistance: int)
    ensures
        base >= resistance ==> damage_after(base, resistance) == base - resistance,
        base <= resistance ==> damage_after(base, resistance) == 0,
        damage_after(base, resistance) >= 0,
        damage_after(base, resistance) >= base - resistance,
        base >= resistance ==> damage_after(base + 1, resistance) == damage_after(base, resistance) + 1,
        damage_after(base, resistance) == damage_after(base - resistance, 0),
{
}

/// Result of a melee attack.
#[derive(Debug)]
pub enum AttackResult {
    Hit { damage: i32, killed: bool },
    Miss,
    NoTarget,
}

/// Base melee damage for the player.
pub const BASE_MELEE_DAMAGE: i32 = 15;

/// Cost in AP for a melee attack.
pub const MELEE_AP_COST: i32 = 1;

/// Find an entity at the given position (excluding the attacker).
///
/// When several entities stand there, which one is found follows the
/// world's own order of entities.
pub fn entity_at(world: &World, pos: Hex, exclude: Entity) -> (found: Option<Entity>)
    ensures
        match found {
            Some(e) => entity_key(e) != entity_key(exclude) && view_of(*world).positions.get(
                entity_key(e),
            ) == Some(pos),
            None => forall|key: u64|
                #[trigger] view_of(*world).positions.contains_key(key) && key != entity_key(exclude)
                    ==> view_of(*world).positions[key] != pos,
        },
{
    let entities = positioned_entities(world);
    let ghost positions = view_of(*world).positions;
    assert(forall|j: int|
        0 <= j < entities@.len() ==> positions.get(entity_key(entities@[j].0)) == Some(entities@[j].1));
    let excluded = key_of(exclude);
    let mut k: usize = 0;
    while k < entities.len()
        invariant
            k <= entities@.len(),
            excluded == entity_key(exclude),
            positions == view_of(*world).positions,
            forall|j: int|
                0 <= j < entities@.len() ==> #[trigger] positions.get(entity_key(entities@[j].0)) == Some(
                    entities@[j].1,
                ),
            forall|j: int|
                0 <= j < k ==> entity_key(#[trigger] entities@[j].0) == entity_key(exclude)
                    || entities@[j].1 != pos,
        decreases entities@.len() - k,
    {
        let (entity, position) = entities[k];
        assert(positions.get(entity_key(entities@[k as int].0)) == Some(entities@[k as int].1));
        if key_of(entity) != excluded && position == pos {
            return Some(entity);
        }
        k = k + 1;
    }
    proof {
        assert forall|key: u64| #[trigger] positions.contains_key(key) && key != entity_key(exclude)
            implies positions[key] != pos by {
            let j = choose|j: int| 0 <= j < entities@.len() && entity_key(entities@[j].0) == key;
            assert(positions.get(entity_key(entities@[j].0)) == Some(entities@[j].1));
        }
    }
    None
}

/// Health after losing `amount` points, never below zero.
pub open spec fn damaged(h: Health, amount: int) -> Health {
    Health { current: if h.current - amount > 0 { (h.current - amount) as i32 } else { 0 }, max: h.max }
}

/// Perform a melee attack against an adjacent target: the target, if it has
/// health, takes the base damage (never negative; no resistance applies).
pub fn melee_attack(world: &mut World, attacker: Entity, target: Entity, base_damage: i32) -> (r:
    AttackResult)
    requires
        view_of(*old(world)).healths.contains_key(entity_key(target)) ==> view_of(
            *old(world),
        ).healths[entity_key(target)].current - damage_after(base_damage as int, 0) >= i32::MIN,
    ensures
        ({
            let key = entity_key(target);
            let before = view_of(*old(world));
            if before.healths.contains_key(key) {
                let d = damage_after(base_damage as int, 0);
                let after = damaged(before.healths[key], d);
                &&& r == AttackResult::Hit { damage: d as i32, killed: after.current <= 0 }
                &&& view_of(*final(world)) == (WorldView {
                    healths: before.healths.insert(key, after),
                    ..before
                })
            } else {
                &&& r == AttackResult::NoTarget
                &&& view_of(*final(world)) == before
            }
        }),
{
    let current = health_of(world, target);
    match current {
        Some(h) => {
            let mut health = h;
            let damage = calculate_damage(base_damage, 0);
            health.take_damage(damage);
            store_health(world, target, health);
            AttackResult::Hit { damage, killed: health.is_dead() }
        },
        None => AttackResult::NoTarget,
    }
}

/// The keys of the entities whose health has run out.
pub open spec fn dead_keys(healths: Map<u64, Health>) -> Set<u64> {
    Set::new(|k: u64| healths.contains_key(k) && healths[k].current <= 0)
}

/// The keys of a list of entities.
pub open spec fn keys_of(s: Seq<Entity>) -> Seq<u64> {
    s.map_values(|e: Entity| entity_key(e))
}

/// The entities of a list whose health has run out, in list order.
pub open spec fn dead_entities(s: Seq<(Entity, Health)>) -> Seq<Entity>
    decreases s.len(),
{
    if s.len() == 0 {
        Seq::empty()
    } else if s.last().1.current <= 0 {
        dead_entities(s.drop_last()).push(s.last().0)
    } else {
        dead_entities(s.drop_last())
    }
}

/// The entity stands in the list with no health left.
pub open spec fn dead_in(s: Seq<(Entity, Health)>, e: Entity) -> bool {
    exists|j: int| 0 <= j < s.len() && s[j].0 == e && s[j].1.current <= 0
}

/// The dead entities of a list are exactly its entities with no health left,
/// and distinct entities stay distinct.
proof fn lemma_dead_entities(s: Seq<(Entity, Health)>)
    ensures
        forall|i: int| 0 <= i < dead_entities(s).len() ==> dead_in(s, #[trigger] dead_entities(s)[i]),
        forall|j: int| 0 <= j < s.len() && #[trigger] s[j].1.current <= 0 ==> dead_entities(s).contains(s[j].0),
        (forall|i: int, j: int| 0 <= i < j < s.len() ==> entity_key(#[trigger] s[i].0) != entity_key(#[trigger] s[j].0))
            ==> keys_of(dead_entities(s)).no_duplicates(),
    decreases s.len(),
{
    if s.len() > 0 {
        let t = s.drop_last();
        lemma_dead_entities(t);
        let d = dead_entities(t);
        assert forall|i: int| 0 <= i < dead_entities(s).len() implies dead_in(s, #[trigger] dead_entities(s)[i]) by {
            if i < d.len() {
                assert(dead_entities(s)[i] == d[i]);
                assert(dead_in(t, d[i]));
                let j = choose|j: int| 0 <= j < t.len() && t[j].0 == d[i] && t[j].1.current <= 0;
                assert(s[j] == t[j]);
                assert(0 <= j < s.len() && s[j].0 == dead_entities(s)[i] && s[j].1.current <= 0);
            } else {
                let j = s.len() - 1;
                assert(s.last().1.current <= 0);
                assert(0 <= j < s.len() && s[j].0 == dead_entities(s)[i] && s[j].1.current <= 0);
            }
        }
        assert forall|j: int| 0 <= j < s.len() && #[trigger] s[j].1.current <= 0 implies dead_entities(
            s,
        ).contains(s[j].0) by {
            if j < t.len() {
                assert(t[j] == s[j]);
                let i = choose|i: int| 0 <= i < d.len() && d[i] == t[j].0;
                assert(dead_entities(s)[i] == d[i]);
            } else {
                assert(dead_entities(s).last() == s[j].0);
            }
        }
        if forall|i: int, j: int| 0 <= i < j < s.len() ==> entity_key(#[trigger] s[i].0) != entity_key(#[trigger] s[j].0) {
            assert forall|i: int, j: int| 0 <= i < j < t.len() implies entity_key(#[trigger] t[i].0) != entity_key(
                #[trigger] t[j].0,
            ) by {
                assert(t[i] == s[i] && t[j] == s[j]);
            }
            if s.last().1.current <= 0 {
                let last = s.last().0;
                assert forall|i: int| 0 <= i < d.len() implies keys_of(d)[i] != entity_key(last) by {
                    assert(dead_in(t, d[i]));
                    let j = choose|j: int| 0 <= j < t.len() && t[j].0 == d[i] && t[j].1.current <= 0;
                    assert(s[j] == t[j]);
                    assert(entity_key(s[j].0) != entity_key(s[s.len() - 1].0));
                }
                assert(keys_of(d.push(last)) =~= keys_of(d).push(entity_key(last)));
                assert forall|a: int, b: int| 0 <= a < b < keys_of(d.push(last)).len() implies keys_of(
                    d.push(last),
                )[a] != keys_of(d.push(last))[b] by {
                    if b == d.len() {
                        assert(keys_of(d)[a] != entity_key(last));
                    } else {
                        assert(keys_of(d)[a] != keys_of(d)[b]);
                    }
                }
            }
        }
    }
}

/// The view without any component of the entities with the given keys.
pub open spec fn without_all(v: WorldView, keys: Set<u64>) -> WorldView {
    WorldView {
        positions: v.positions.remove_keys(keys),
        healths: v.healths.remove_keys(keys),
        action_points: v.action_points.remove_keys(keys),
        inventories: v.inventories.remove_keys(keys),
        statuses: v.statuses.remove_keys(keys),
        enemies: v.enemies.remove_keys(keys),
        pickups: v.pickups.remove_keys(keys),
        displays: v.displays.remove_keys(keys),
        players: v.players.difference(keys),
    }
}

/// Remove all dead entities from the world, returning them.
pub fn remove_dead(world: &mut World) -> (removed: Vec<Entity>)
    ensures
        keys_of(removed@).to_set() == dead_keys(view_of(*old(world)).healths),
        keys_of(removed@).no_duplicates(),
        view_of(*final(world)) == without_all(view_of(*old(world)), dead_keys(view_of(*old(world)).healths)),
{
    let ghost view0 = view_of(*world);
    let ghost healths0 = view0.healths;
    let all = entities_with_health(world);
    assert(forall|j: int| 0 <= j < all@.len() ==> healths0.get(entity_key(all@[j].0)) == Some(all@[j].1));
    let mut dead: Vec<Entity> = Vec::new();
    let mut k: usize = 0;
    while k < all.len()
        invariant
            k <= all@.len(),
            dead@ == dead_entities(all@.take(k as int)),
        decreases all@.len() - k,
    {
        let (entity, health) = all[k];
        assert(all@.take(k + 1).drop_last() =~= all@.take(k as int));
        if health.is_dead() {
            dead.push(entity);
        }
        k = k + 1;
    }
    assert(all@.take(k as int) =~= all@);
    proof {
        lemma_dead_entities(all@);
    }
    let mut i: usize = 0;
    assert(without_all(view0, keys_of(dead@.take(0)).to_set()) =~= view0) by {
        assert(keys_of(dead@.take(0)).to_set() =~= Set::<u64>::empty());
        assert(view0.positions.remove_keys(Set::empty()) =~= view0.positions);
        assert(view0.healths.remove_keys(Set::empty()) =~= view0.healths);
        assert(view0.action_points.remove_keys(Set::empty()) =~= view0.action_points);
        assert(view0.inventories.remove_keys(Set::empty()) =~= view0.inventories);
        assert(view0.statuses.remove_keys(Set::empty()) =~= view0.statuses);
        assert(view0.enemies.remove_keys(Set::empty()) =~= view0.enemies);
        assert(view0.pickups.remove_keys(Set::empty()) =~= view0.pickups);
    }
    while i < dead.len()
        invariant
            i <= dead@.len(),
            view_of(*world) == without_all(view0, keys_of(dead@.take(i as int)).to_set()),
        decreases dead@.len() - i,
    {
        let e = dead[i];
        despawn(world, e);
        proof {
            let before = keys_of(dead@.take(i as int)).to_set();
            let after = keys_of(dead@.take(i + 1)).to_set();
            let k = entity_key(e);
            assert(keys_of(dead@.take(i + 1)) =~= keys_of(dead@.take(i as int)).push(k));
            lemma_push_to_set(keys_of(dead@.take(i as int)), k);
            assert(view0.positions.remove_keys(before).remove(k) =~= view0.positions.remove_keys(after));
            assert(view0.healths.remove_keys(before).remove(k) =~= view0.healths.remove_keys(after));
            assert(view0.action_points.remove_keys(before).remove(k) =~= view0.action_points.remove_keys(after));
            assert(view0.inventories.remove_keys(before).remove(k) =~= view0.inventories.remove_keys(after));
            assert(view0.statuses.remove_keys(before).remove(k) =~= view0.statuses.remove_keys(after));
            assert(view0.enemies.remove_keys(before).remove(k) =~= view0.enemies.remove_keys(after));
            assert(view0.pickups.remove_keys(before).remove(k) =~= view0.pickups.remove_keys(after));
        }
        i = i + 1;
    }
    proof {
        assert(dead@.take(i as int) =~= dead@);
        let keys = keys_of(dead@);
        assert forall|key: u64| keys.to_set().contains(key) <==> dead_keys(healths0).contains(key) by {
            if keys.to_set().contains(key) {
                let n = choose|n: int| 0 <= n < keys.len() && keys[n] == key;
                assert(dead_in(all@, dead@[n]));
                let j = choose|j: int| 0 <= j < all@.len() && all@[j].0 == dead@[n] && all@[j].1.current <= 0;
                assert(healths0.get(entity_key(all@[j].0)) == Some(all@[j].1));
            }
            if dead_keys(healths0).contains(key) {
                let j = choose|j: int| 0 <= j < all@.len() && entity_key(all@[j].0) == key;
                assert(healths0.get(entity_key(all@[j].0)) == Some(all@[j].1));
                assert(all@[j].1.current <= 0);
                assert(dead@.contains(all@[j].0));
                let n = choose|n: int| 0 <= n < dead@.len() && dead@[n] == all@[j].0;
                assert(keys[n] == key);
            }
        }
        assert(keys.to_set() =~= dead_keys(healths0));
    }
    dead
}

/// A sequence with one more element has one more element in its set.
pub proof fn lemma_push_to_set(s: Seq<u64>, x: u64)
    ensures
        s.push(x).to_set() == s.to_set().insert(x),
{
    assert forall|a: u64| s.push(x).to_set().contains(a) <==> s.to_set().insert(x).contains(a) by {
        if s.push(x).contains(a) && a != x {
            let i = choose|i: int| 0 <= i < s.push(x).len() && s.push(x)[i] == a;
            assert(s[i] == a);
        }
        if s.contains(a) {
            let i = choose|i: int| 0 <= i < s.len() && s[i] == a;
            assert(s.push(x)[i] == a);
        }
        if a == x {
            assert(s.push(x)[s.len() as int] == x);
        }
    }
    assert(s.push(x).to_set() =~= s.to_set().insert(x));
}

} // verus!
