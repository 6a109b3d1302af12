use hexcaster::dungeon::{generate, DungeonConfig, DungeonTile};
use hexcaster::dungeon::generator::try_create_hex;
use rand::rngs::StdRng;
use rand::SeedableRng;

#[test]
fn test_generate_has_floor() {
    let config = DungeonConfig::default();
    let mut rng = StdRng::seed_from_u64(42);
    let result = generate(&config, &mut rng);

    let has_floor = result.grid.iter().iter().any(|(_, t)| **t == DungeonTile::Floor);
    assert!(has_floor);
}

#[test]
fn test_generate_has_stairs() {
    let config = DungeonConfig::default();
    let mut rng = StdRng::seed_from_u64(42);
    let result = generate(&config, &mut rng);

    let has_stairs = result.grid.iter().iter().any(|(_, t)| **t == DungeonTile::Stairs);
    assert!(has_stairs);
}

#[test]
fn test_player_start_is_floor() {
    let config = DungeonConfig::default();
    let mut rng = StdRng::seed_from_u64(42);
    let result = generate(&config, &mut rng);

    let tile = result.grid.get(result.player_start);
    assert!(tile == Some(&DungeonTile::Floor) || tile == Some(&DungeonTile::BossFloor));
}

#[test]
fn test_generate_boss_room() {
    let config = DungeonConfig { has_boss: true, ..Default::default() };
    let mut rng = StdRng::seed_from_u64(42);
    let result = generate(&config, &mut rng);

    // Should have boss spawn location
    assert!(result.boss_spawn.is_some());

    // Should have boss floor tiles
    let has_boss_floor = result.grid.iter().iter().any(|(_, t)| **t == DungeonTile::BossFloor);
    assert!(has_boss_floor);
}

#[test]
fn test_no_boss_room() {
    let config = DungeonConfig { has_boss: false, ..Default::default() };
    let mut rng = StdRng::seed_from_u64(42);
    let result = generate(&config, &mut rng);

    // Should not have boss spawn location
    assert!(result.boss_spawn.is_none());

    // Should not have boss floor tiles
    let has_boss_floor = result.grid.iter().iter().any(|(_, t)| **t == DungeonTile::BossFloor);
    assert!(!has_boss_floor);
}

#[test]
fn test_boss_spawn_is_stairs() {
    let config = DungeonConfig { has_boss: true, ..Default::default() };
    let mut rng = StdRng::seed_from_u64(42);
    let result = generate(&config, &mut rng);
    let spawn = result.boss_spawn.unwrap();
    assert_eq!(result.grid.get(spawn), Some(&DungeonTile::Stairs));
}

#[test]
fn test_default_config() {
    let config = DungeonConfig::default();
    assert_eq!(config.width, 40);
    assert_eq!(config.height, 30);
    assert_eq!(config.num_rooms, 6);
    assert_eq!(config.floor_number, 1);
    assert!(config.has_boss);
}

#[test]
fn test_try_create_hex() {
    let h = try_create_hex(3, 4).unwrap();
    assert_eq!((h.x, h.y, h.z), (3, 4, -7));
}

#[test]
fn rooms_layout_on_many_seeds() {
    for seed in 0..20u64 {
        let config = DungeonConfig::default();
        let mut rng = StdRng::seed_from_u64(seed);
        let result = generate(&config, &mut rng);
        let stairs: Vec<_> =
            result.grid.iter().into_iter().filter(|(_, t)| **t == DungeonTile::Stairs).collect();
        assert_eq!(stairs.len(), 1);
        let start = result.grid.get(result.player_start);
        assert!(start == Some(&DungeonTile::Floor) || start == Some(&DungeonTile::BossFloor));
        if let Some(c) = result.boss_spawn {
            assert_eq!(stairs[0].0, c);
        }
    }
}

#[test]
fn corners_stay_walls_and_boss_room_is_open() {
    for seed in 0..20u64 {
        let config = DungeonConfig::default();
        let mut rng = StdRng::seed_from_u64(seed);
        let result = generate(&config, &mut rng);
        for (x, y) in [(-20, -15), (20, -15), (-20, 15), (20, 15)] {
            let corner = try_create_hex(x, y).unwrap();
            assert_eq!(result.grid.get(corner), Some(&DungeonTile::Wall));
        }
        if let Some(c) = result.boss_spawn {
            for (h, t) in result.grid.iter() {
                if h.distance(c) <= 5 {
                    assert!(*t != DungeonTile::Wall);
                }
            }
        }
    }
}
