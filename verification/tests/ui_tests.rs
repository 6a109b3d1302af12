use hexcaster::dungeon::DungeonTile;
use hexcaster::ecs::components::{ActionPoints, Health, Status, StatusEffect, StatusKind};
use hexcaster::magic::{craft_spell, Element, Rune, Shape};
use hexcaster::ui::{
    ap_dots, centered_rect, health_band, signed_text, spell_menu_text, status_text, tile_glyph, Area,
    HealthBand,
};

#[test]
fn test_signed_text() {
    assert_eq!(signed_text(0), "0");
    assert_eq!(signed_text(42), "42");
    assert_eq!(signed_text(-17), "-17");
    assert_eq!(signed_text(i32::MIN), "-2147483648");
}

#[test]
fn test_ap_dots() {
    let ap = ActionPoints { current: 2, max: 4 };
    assert_eq!(ap_dots(&ap), "●●○○");
    assert_eq!(ap_dots(&ActionPoints { current: 0, max: 0 }), "");
}

#[test]
fn test_status_text() {
    assert_eq!(status_text(&Status { effects: Vec::new() }), "No effects");
    let status = Status {
        effects: vec![
            StatusEffect { kind: StatusKind::Burning, duration: 3, intensity: 5 },
            StatusEffect { kind: StatusKind::Frozen, duration: 1, intensity: 0 },
        ],
    };
    assert_eq!(status_text(&status), "Burning(3) Frozen(1)");
}

#[test]
fn test_spell_menu_text() {
    assert_eq!(
        spell_menu_text(&Vec::new()),
        "No spells crafted!\n\nPress 'c' with runes\nto craft spells."
    );
    let fire = craft_spell(&[Rune::element(Element::Fire), Rune::shape(Shape::Point)]).unwrap();
    let ice = craft_spell(&[Rune::element(Element::Ice), Rune::shape(Shape::Point)]).unwrap();
    let text = spell_menu_text(&vec![fire.clone(), ice.clone()]);
    let expected = format!(
        "F1: {} ({}AP)\nF2: {} ({}AP)",
        fire.name(),
        fire.ap_cost,
        ice.name(),
        ice.ap_cost
    );
    assert_eq!(text, expected);
}

#[test]
fn test_tile_glyph() {
    assert_eq!(tile_glyph(DungeonTile::Floor), '.');
    assert_eq!(tile_glyph(DungeonTile::Wall), '#');
    assert_eq!(tile_glyph(DungeonTile::Stairs), '>');
    assert_eq!(tile_glyph(DungeonTile::BossFloor), ',');
}

#[test]
fn test_centered_rect() {
    let area = Area { x: 10, y: 5, width: 80, height: 24 };
    assert_eq!(centered_rect(40, 10, area), Area { x: 30, y: 12, width: 40, height: 10 });
    assert_eq!(centered_rect(100, 30, area), Area { x: 10, y: 5, width: 80, height: 24 });
}

#[test]
fn test_health_band() {
    assert_eq!(health_band(&Health { current: 100, max: 100 }), HealthBand::Healthy);
    assert_eq!(health_band(&Health { current: 50, max: 100 }), HealthBand::Wounded);
    assert_eq!(health_band(&Health { current: 26, max: 100 }), HealthBand::Wounded);
    assert_eq!(health_band(&Health { current: 25, max: 100 }), HealthBand::Critical);
    assert_eq!(health_band(&Health { current: 0, max: 100 }), HealthBand::Critical);
    assert_eq!(health_band(&Health { current: 5, max: 0 }), HealthBand::Healthy);
    assert_eq!(health_band(&Health { current: 0, max: 0 }), HealthBand::Critical);
}
