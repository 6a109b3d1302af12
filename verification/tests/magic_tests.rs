use hexcaster::hex::Hex;
use hexcaster::magic::{craft_spell, get_targets, Element, Modifier, Rune, Shape};

#[test]
fn test_craft_empty_fails() {
    assert!(craft_spell(&[]).is_none());
}

#[test]
fn test_craft_no_element_fails() {
    let runes = vec![Rune::shape(Shape::Line)];
    assert!(craft_spell(&runes).is_none());
}

#[test]
fn test_craft_single_element() {
    let runes = vec![Rune::element(Element::Fire)];
    let spell = craft_spell(&runes).unwrap();
    assert_eq!(spell.elements, vec![Element::Fire]);
    assert_eq!(spell.shape, Shape::Point);
}

#[test]
fn test_craft_with_shape() {
    let runes = vec![Rune::element(Element::Ice), Rune::shape(Shape::Cone)];
    let spell = craft_spell(&runes).unwrap();
    assert_eq!(spell.shape, Shape::Cone);
}

#[test]
fn test_craft_multi_element() {
    let runes = vec![Rune::element(Element::Fire), Rune::element(Element::Ice)];
    let spell = craft_spell(&runes).unwrap();
    assert_eq!(spell.elements.len(), 2);
    assert_eq!(spell.base_damage, 20);
}

#[test]
fn test_power_modifier() {
    let runes = vec![Rune::element(Element::Lightning), Rune::modifier(Modifier::Power)];
    let spell = craft_spell(&runes).unwrap();
    assert_eq!(spell.damage(), 15);
}

#[test]
fn test_range_modifier() {
    let runes = vec![Rune::element(Element::Void), Rune::modifier(Modifier::Range)];
    let spell = craft_spell(&runes).unwrap();
    assert_eq!(spell.range(), 7);
}

#[test]
fn test_point_targets() {
    let runes = vec![Rune::element(Element::Fire)];
    let spell = craft_spell(&runes).unwrap();
    let targets = get_targets(&spell, Hex::origin(), Hex::new(2, -2, 0));
    assert_eq!(targets.len(), 1);
}

#[test]
fn test_burst_targets() {
    let runes = vec![Rune::element(Element::Fire), Rune::shape(Shape::Burst)];
    let spell = craft_spell(&runes).unwrap();
    let targets = get_targets(&spell, Hex::origin(), Hex::new(2, -2, 0));
    assert!(targets.len() > 1);
}

// ---- further checks of runes and spells ----

#[test]
fn opposed_elements_pair_up() {
    let all = [
        Element::Fire,
        Element::Ice,
        Element::Lightning,
        Element::Earth,
        Element::Void,
        Element::Light,
        Element::Dark,
        Element::Poison,
    ];
    for e in all {
        if let Some(o) = e.opposed() {
            assert_eq!(o.opposed(), Some(e));
        }
    }
    assert_eq!(Element::Fire.opposed(), Some(Element::Ice));
    assert_eq!(Element::Void.opposed(), None);
    assert_eq!(Element::Poison.opposed(), None);
}

#[test]
fn rune_and_shape_names() {
    assert_eq!(Rune::element(Element::Lightning).name(), "Lightning");
    assert_eq!(Rune::shape(Shape::Nova).name(), "Nova");
    assert_eq!(Rune::modifier(Modifier::Vampiric).name(), "Vampiric");
    assert_eq!(Shape::Chain.base_range(), 6);
    assert_eq!(Shape::Nova.base_range(), 0);
    assert_eq!(Element::Fire.glyph(), '🔥');
}

#[test]
fn spell_name_joins_elements() {
    let runes = vec![
        Rune::element(Element::Fire),
        Rune::element(Element::Ice),
        Rune::shape(Shape::Line),
    ];
    let spell = craft_spell(&runes).unwrap();
    assert_eq!(spell.name(), "Fire/Ice Line");
}

#[test]
fn craft_costs_and_ranges() {
    let runes = vec![
        Rune::element(Element::Earth),
        Rune::shape(Shape::Burst),
        Rune::modifier(Modifier::Power),
        Rune::modifier(Modifier::Range),
        Rune::shape(Shape::Ring),
    ];
    let spell = craft_spell(&runes).unwrap();
    // The last shape rune wins.
    assert_eq!(spell.shape, Shape::Ring);
    assert_eq!(spell.ap_cost, 3 + 2);
    assert_eq!(spell.base_range, 4);
    assert_eq!(spell.range(), 6);
    assert_eq!(spell.damage(), 15);
}

#[test]
fn ring_targets_surround_the_target() {
    let runes = vec![Rune::element(Element::Fire), Rune::shape(Shape::Ring)];
    let spell = craft_spell(&runes).unwrap();
    let target = Hex::new(2, -2, 0);
    let targets = get_targets(&spell, Hex::origin(), target);
    assert_eq!(targets.len(), 12);
    for t in targets {
        assert_eq!(t.distance(target), 2);
    }
}

#[test]
fn line_targets_follow_the_line() {
    let runes = vec![Rune::element(Element::Fire), Rune::shape(Shape::Line)];
    let spell = craft_spell(&runes).unwrap();
    let target = Hex::new(3, -3, 0);
    assert_eq!(get_targets(&spell, Hex::origin(), target), Hex::origin().line_to(target));
}
