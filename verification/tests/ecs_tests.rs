use hexcaster::ecs::components::{
    ActionPoints, Boss, BossLoot, BossType, Health, LootQuality, Status, StatusEffect, StatusKind,
};

#[test]
fn test_boss_type_for_floor() {
    assert_eq!(BossType::for_floor(1), BossType::FireLord);
    assert_eq!(BossType::for_floor(2), BossType::FrostQueen);
    assert_eq!(BossType::for_floor(3), BossType::VoidWraith);
    assert_eq!(BossType::for_floor(4), BossType::FireLord);
}

#[test]
fn test_boss_loot_quality() {
    let loot1 = BossLoot::from_boss(BossType::FireLord, 1);
    assert_eq!(loot1.quality, LootQuality::Common);
    assert_eq!(loot1.rune_count, 2);

    let loot3 = BossLoot::from_boss(BossType::FireLord, 3);
    assert_eq!(loot3.quality, LootQuality::Epic);
    assert_eq!(loot3.rune_count, 5);
}

#[test]
fn test_void_wraith_extra_loot() {
    let void_loot = BossLoot::from_boss(BossType::VoidWraith, 1);
    let fire_loot = BossLoot::from_boss(BossType::FireLord, 1);
    assert_eq!(void_loot.rune_count, fire_loot.rune_count + 1);
}

#[test]
fn test_boss_display() {
    let boss = BossType::FireLord;
    assert_eq!(boss.name(), "Fire Lord");
    assert_eq!(boss.glyph(), 'F');
    assert_eq!(boss.color(), (255, 100, 50));
}

// ---- further checks of the components ----

#[test]
fn health_stays_between_zero_and_max() {
    let mut h = Health::new(30);
    h.take_damage(12);
    assert_eq!(h.current, 18);
    h.take_damage(100);
    assert_eq!(h.current, 0);
    assert!(h.is_dead());
    h.heal(10);
    assert_eq!(h.current, 10);
    h.heal(100);
    assert_eq!(h.current, 30);
    assert!(!h.is_dead());
}

#[test]
fn action_points_spend_and_restore() {
    let mut ap = ActionPoints::new(4);
    assert!(ap.spend(3));
    assert_eq!(ap.current, 1);
    assert!(!ap.spend(2));
    assert_eq!(ap.current, 1);
    ap.restore();
    assert_eq!(ap.current, 4);
}

#[test]
fn status_tick_counts_down_and_drops_expired() {
    let mut s = Status::default();
    s.add(StatusEffect { kind: StatusKind::Burning, duration: 1, intensity: 3 });
    s.add(StatusEffect { kind: StatusKind::Frozen, duration: 3, intensity: 1 });
    s.tick();
    assert_eq!(s.effects.len(), 1);
    assert_eq!(s.effects[0].kind, StatusKind::Frozen);
    assert_eq!(s.effects[0].duration, 2);
    s.tick();
    s.tick();
    assert!(s.effects.is_empty());
}

#[test]
fn boss_cycle_and_health() {
    assert_eq!(BossType::for_floor(0), BossType::VoidWraith);
    assert_eq!(BossType::for_floor(7), BossType::FireLord);
    assert_eq!(BossType::FrostQueen.base_health(), 80);
    let boss = Boss::new(BossType::VoidWraith);
    assert_eq!(boss.phase, 1);
    assert!(!boss.enraged);
    let loot = BossLoot::from_boss(BossType::VoidWraith, 2);
    assert_eq!(loot.quality, LootQuality::Rare);
    assert_eq!(loot.rune_count, 4);
}
