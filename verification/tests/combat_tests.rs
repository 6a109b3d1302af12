use hecs::World;
use hexcaster::combat::{
    calculate_damage, entity_at, melee_attack, remove_dead, AttackResult, DamageInstance,
    DamageType,
};
use hexcaster::ecs::components::{Health, Position};
use hexcaster::hex::Hex;

#[test]
fn test_damage_instance() {
    let dmg = DamageInstance::new(10, DamageType::Fire);
    assert_eq!(dmg.amount, 10);
    assert_eq!(dmg.damage_type, DamageType::Fire);
}

#[test]
fn test_calculate_damage() {
    assert_eq!(calculate_damage(10, 3), 7);
    assert_eq!(calculate_damage(10, 15), 0); // Can't go negative
}

#[test]
fn test_melee_attack_deals_damage() {
    let mut world = World::new();
    let attacker = world.spawn((Position(Hex::origin()), Health::new(100)));
    let target = world.spawn((Position(Hex::origin().neighbor(0)), Health::new(50)));

    let result = melee_attack(&mut world, attacker, target, 20);

    match result {
        AttackResult::Hit { damage, killed } => {
            assert_eq!(damage, 20);
            assert!(!killed);
            let health = world.get::<&Health>(target).unwrap();
            assert_eq!(health.current, 30);
        }
        _ => panic!("Expected hit"),
    }
}

#[test]
fn test_melee_attack_kills_target() {
    let mut world = World::new();
    let attacker = world.spawn((Position(Hex::origin()), Health::new(100)));
    let target = world.spawn((Position(Hex::origin().neighbor(0)), Health::new(15)));

    let result = melee_attack(&mut world, attacker, target, 20);

    match result {
        AttackResult::Hit { damage: _, killed } => {
            assert!(killed);
        }
        _ => panic!("Expected hit"),
    }
}

#[test]
fn test_remove_dead() {
    let mut world = World::new();
    let alive = world.spawn((Health::new(50),));
    let dead = world.spawn((Health { current: 0, max: 50 },));

    let removed = remove_dead(&mut world);

    assert_eq!(removed.len(), 1);
    assert_eq!(removed[0], dead);
    assert!(world.get::<&Health>(alive).is_ok());
    assert!(world.get::<&Health>(dead).is_err()); // Despawned
}

#[test]
fn test_entity_at() {
    let mut world = World::new();
    let pos = Hex::new(1, 0, -1);
    let entity = world.spawn((Position(pos),));
    let other = world.spawn((Position(Hex::origin()),));

    assert_eq!(entity_at(&world, pos, other), Some(entity));
    assert_eq!(entity_at(&world, Hex::origin(), entity), Some(other));
    assert_eq!(entity_at(&world, Hex::new(5, 0, -5), entity), None);
}

#[test]
fn test_melee_attack_without_health_has_no_target() {
    let mut world = World::new();
    let attacker = world.spawn((Position(Hex::origin()), Health::new(100)));
    let target = world.spawn((Position(Hex::origin().neighbor(1)),));
    let result = melee_attack(&mut world, attacker, target, 20);
    assert!(matches!(result, AttackResult::NoTarget));
}

#[test]
fn test_melee_attack_negative_damage_is_zero() {
    let mut world = World::new();
    let attacker = world.spawn((Position(Hex::origin()), Health::new(100)));
    let target = world.spawn((Position(Hex::origin().neighbor(2)), Health::new(40)));
    match melee_attack(&mut world, attacker, target, -5) {
        AttackResult::Hit { damage, killed } => {
            assert_eq!(damage, 0);
            assert!(!killed);
            assert_eq!(world.get::<&Health>(target).unwrap().current, 40);
        }
        _ => panic!("Expected hit"),
    }
}

#[test]
fn test_entity_at_excludes_only_the_given_entity() {
    let mut world = World::new();
    let a = world.spawn((Position(Hex::origin()),));
    assert_eq!(entity_at(&world, Hex::origin(), a), None);
}

#[test]
fn test_calculate_damage_exact() {
    assert_eq!(calculate_damage(10, 10), 0);
    assert_eq!(calculate_damage(25, 0), 25);
    assert_eq!(calculate_damage(-3, 0), 0);
}
