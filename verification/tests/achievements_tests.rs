use hexcaster::achievements::{Achievement, AchievementStore};
use hexcaster::magic::{Element, Modifier, Shape};
use hexcaster::unlocks::{check_new_unlocks, UnlockStore, Unlockable};

#[test]
fn test_achievement_all() {
    let all = Achievement::all();
    assert_eq!(all.len(), 22);
}

#[test]
fn test_achievement_name() {
    assert_eq!(Achievement::FirstVictory.name(), "First Victory");
    assert_eq!(Achievement::BossSlayer.name(), "Boss Slayer");
}

#[test]
fn test_achievement_description() {
    let desc = Achievement::FirstVictory.description();
    assert!(desc.contains("first game"));
}

#[test]
fn test_store_unlock() {
    let mut store = AchievementStore::default();
    assert!(!store.is_unlocked(Achievement::FirstVictory));
    let newly = store.unlock(Achievement::FirstVictory);
    assert!(newly);
    assert!(store.is_unlocked(Achievement::FirstVictory));
    let newly = store.unlock(Achievement::FirstVictory);
    assert!(!newly);
}

#[test]
fn test_store_counts() {
    let mut store = AchievementStore::default();
    assert_eq!(store.unlocked_count(), 0);
    assert_eq!(store.total_count(), 22);
    store.unlock(Achievement::FirstBlood);
    store.unlock(Achievement::Explorer);
    assert_eq!(store.unlocked_count(), 2);
}

#[test]
fn test_record_kill() {
    let mut store = AchievementStore::default();
    let unlocked = store.record_kill();
    assert_eq!(unlocked.len(), 1);
    assert_eq!(unlocked[0], Achievement::FirstBlood);
    let unlocked = store.record_kill();
    assert!(unlocked.is_empty());
}

#[test]
fn test_record_kill_slayer() {
    let mut store = AchievementStore::default();
    store.total_kills = 49;
    let unlocked = store.record_kill();
    assert!(unlocked.contains(&Achievement::Slayer));
}

#[test]
fn test_record_boss_defeat() {
    let mut store = AchievementStore::default();
    let unlocked = store.record_boss_defeat("FireLord");
    assert!(unlocked.contains(&Achievement::BossHunter));
    store.record_boss_defeat("FrostQueen");
    let unlocked = store.record_boss_defeat("VoidWraith");
    assert!(unlocked.contains(&Achievement::BossSlayer));
}

#[test]
fn test_record_daily() {
    let mut store = AchievementStore::default();
    let unlocked = store.record_daily_completion("2026-03-01");
    assert!(unlocked.contains(&Achievement::DailyPlayer));
    store.record_daily_completion("2026-03-02");
    let unlocked = store.record_daily_completion("2026-03-03");
    assert!(unlocked.contains(&Achievement::DailyStreak3));
}

#[test]
fn test_unlockable_all() {
    let all = Unlockable::all();
    assert_eq!(all.len(), 11);
}

#[test]
fn test_unlockable_names() {
    assert_eq!(Unlockable::ElementLight.name(), "Light Element");
    assert_eq!(Unlockable::ShapeChain.name(), "Chain Shape");
    assert_eq!(Unlockable::ModifierVampiric.name(), "Vampiric Modifier");
}

#[test]
fn test_required_achievements() {
    assert_eq!(Unlockable::ElementLight.required_achievement(), Achievement::FirstVictory);
    assert_eq!(Unlockable::ElementPoison.required_achievement(), Achievement::Slayer);
    assert_eq!(Unlockable::ShapeWall.required_achievement(), Achievement::Explorer);
}

#[test]
fn test_unlock_store_default() {
    let store = UnlockStore::default();
    assert!(store.unlocked.is_empty());
}

#[test]
fn test_base_elements_always_unlocked() {
    let store = UnlockStore::default();
    let achievements = AchievementStore::default();
    assert!(store.is_element_unlocked(Element::Fire, &achievements));
    assert!(store.is_element_unlocked(Element::Ice, &achievements));
    assert!(store.is_element_unlocked(Element::Lightning, &achievements));
    assert!(store.is_element_unlocked(Element::Earth, &achievements));
}

#[test]
fn test_advanced_elements_locked_by_default() {
    let store = UnlockStore::default();
    let achievements = AchievementStore::default();
    assert!(!store.is_element_unlocked(Element::Light, &achievements));
    assert!(!store.is_element_unlocked(Element::Dark, &achievements));
    assert!(!store.is_element_unlocked(Element::Void, &achievements));
    assert!(!store.is_element_unlocked(Element::Poison, &achievements));
}

#[test]
fn test_unlock_via_achievement() {
    let store = UnlockStore::default();
    let mut achievements = AchievementStore::default();
    assert!(!store.is_element_unlocked(Element::Light, &achievements));
    achievements.unlock(Achievement::FirstVictory);
    assert!(store.is_element_unlocked(Element::Light, &achievements));
}

#[test]
fn test_base_shapes_always_unlocked() {
    let store = UnlockStore::default();
    let achievements = AchievementStore::default();
    assert!(store.is_shape_unlocked(Shape::Point, &achievements));
    assert!(store.is_shape_unlocked(Shape::Line, &achievements));
    assert!(store.is_shape_unlocked(Shape::Cone, &achievements));
    assert!(store.is_shape_unlocked(Shape::Ring, &achievements));
    assert!(store.is_shape_unlocked(Shape::Burst, &achievements));
}

#[test]
fn test_advanced_shapes_locked_by_default() {
    let store = UnlockStore::default();
    let achievements = AchievementStore::default();
    assert!(!store.is_shape_unlocked(Shape::Wall, &achievements));
    assert!(!store.is_shape_unlocked(Shape::Chain, &achievements));
    assert!(!store.is_shape_unlocked(Shape::Nova, &achievements));
}

#[test]
fn test_base_modifiers_always_unlocked() {
    let store = UnlockStore::default();
    let achievements = AchievementStore::default();
    assert!(store.is_modifier_unlocked(Modifier::Power, &achievements));
    assert!(store.is_modifier_unlocked(Modifier::Range, &achievements));
    assert!(store.is_modifier_unlocked(Modifier::Duration, &achievements));
    assert!(store.is_modifier_unlocked(Modifier::Split, &achievements));
    assert!(store.is_modifier_unlocked(Modifier::Echo, &achievements));
}

#[test]
fn test_advanced_modifiers_locked_by_default() {
    let store = UnlockStore::default();
    let achievements = AchievementStore::default();
    assert!(!store.is_modifier_unlocked(Modifier::Homing, &achievements));
    assert!(!store.is_modifier_unlocked(Modifier::Piercing, &achievements));
    assert!(!store.is_modifier_unlocked(Modifier::Vampiric, &achievements));
    assert!(!store.is_modifier_unlocked(Modifier::Silent, &achievements));
}

#[test]
fn test_get_locked() {
    let store = UnlockStore::default();
    let achievements = AchievementStore::default();
    let locked = store.get_locked(&achievements);
    assert_eq!(locked.len(), 11);
}

#[test]
fn test_get_unlocked() {
    let store = UnlockStore::default();
    let mut achievements = AchievementStore::default();
    let unlocked = store.get_unlocked(&achievements);
    assert!(unlocked.is_empty());
    achievements.unlock(Achievement::FirstVictory);
    achievements.unlock(Achievement::Explorer);
    let unlocked = store.get_unlocked(&achievements);
    assert_eq!(unlocked.len(), 2);
    assert!(unlocked.contains(&Unlockable::ElementLight));
    assert!(unlocked.contains(&Unlockable::ShapeWall));
}

#[test]
fn test_check_new_unlocks() {
    let mut achievements = AchievementStore::default();
    let previous = Vec::new();
    let new = check_new_unlocks(&achievements, &previous);
    assert!(new.is_empty());
    achievements.unlock(Achievement::FirstVictory);
    let new = check_new_unlocks(&achievements, &previous);
    assert_eq!(new.len(), 1);
    assert!(new.contains(&Unlockable::ElementLight));
}

#[test]
fn test_hint_text() {
    let hint = Unlockable::ElementPoison.hint();
    assert!(hint.contains("50 enemies"));
    let hint = Unlockable::ShapeNova.hint();
    assert!(hint.contains("5 spells"));
}

// ---- further checks of achievements and unlocks ----

#[test]
fn boss_defeat_counts_each_boss_once() {
    let mut store = AchievementStore::default();
    store.record_boss_defeat("FireLord");
    store.record_boss_defeat("FireLord");
    assert_eq!(store.bosses_defeated.len(), 1);
    let again = store.record_boss_defeat("FireLord");
    assert!(again.is_empty());
}

#[test]
fn daily_streak_seven() {
    let mut store = AchievementStore::default();
    let mut last = Vec::new();
    for d in 1..=7 {
        last = store.record_daily_completion(&format!("2026-04-0{}", d));
    }
    assert!(last.contains(&Achievement::DailyStreak7));
    assert_eq!(store.daily_completions.len(), 7);
    assert!(store.record_daily_completion("2026-04-07").is_empty());
}

#[test]
fn manual_unlock_opens_content() {
    let mut store = UnlockStore::default();
    let achievements = AchievementStore::default();
    store.unlocked.push(Unlockable::ModifierSilent);
    assert!(store.is_modifier_unlocked(Modifier::Silent, &achievements));
    assert_eq!(store.get_locked(&achievements).len(), 10);
}

#[test]
fn check_new_unlocks_skips_known() {
    let mut achievements = AchievementStore::default();
    achievements.unlock(Achievement::FirstVictory);
    achievements.unlock(Achievement::Slayer);
    let new = check_new_unlocks(&achievements, &vec![Unlockable::ElementLight]);
    assert_eq!(new, vec![Unlockable::ElementPoison]);
}

#[test]
fn locked_and_unlocked_split_all_content() {
    let mut achievements = AchievementStore::new();
    achievements.unlock(Achievement::FirstBlood);
    achievements.unlock(Achievement::Explorer);
    let mut store = UnlockStore::new();
    store.unlocked.push(Unlockable::ModifierSilent);
    let unlocked = store.get_unlocked(&achievements);
    let locked = store.get_locked(&achievements);
    assert_eq!(unlocked.len() + locked.len(), 11);
    for u in Unlockable::all() {
        assert!(unlocked.contains(&u) != locked.contains(&u));
    }
    assert!(unlocked.contains(&Unlockable::ModifierSilent));
}
