//! What the screen shows, as text: action-point dots, status effects, the
//! spell menu, map glyphs and the placement of popups.

use vstd::prelude::*;

use crate::daily::{decimal, decimal_text};
use crate::dungeon::DungeonTile;
use crate::ecs::components::{ActionPoints, Health, Status, StatusEffect, StatusKind};
use crate::magic::rune::shape_name;
use crate::magic::spell::joined_element_names;
use crate::magic::Spell;

verus! {

/// A signed number in decimal, with a minus sign when negative.
pub open spec fn signed_decimal(v: int) -> Seq<char> {
    if v < 0 {
        seq!['-'] + decimal((-v) as nat)
    } else {
        decimal(v as nat)
    }
}

/// A signed number in decimal.
pub fn signed_text(v: i32) -> (s: String)
    ensures
        s@ == signed_decimal(v as int),
{
    if v < 0 {
        let magnitude = (-(v as i64)) as u32;
        let mut s = String::from_str("-");
        proof {
            reveal_strlit("-");
        }
        s.append(decimal_text(magnitude).as_str());
        s
    } else {
        decimal_text(v as u32)
    }
}

/// How hurt a unit is, as the health bar shows it by its color.
#[derive(Debug, Clone, Copy, PartialEq, Eq, Structural)]
pub enum HealthBand {
    /// More than half of the maximum left.
    Healthy,
    /// More than a quarter left.
    Wounded,
    /// A quarter or less left.
    Critical,
}

/// The band of the ratio `current / max`: above one half is healthy, above
/// one quarter wounded, anything else (no ratio at all among it, when both
/// are zero) critical. With a zero maximum a positive health is an
/// unbounded ratio, and a negative maximum turns the comparisons around.
pub open spec fn band_of(current: int, max: int) -> HealthBand {
    if max > 0 {
        if 2 * current > max {
            HealthBand::Healthy
        } else if 4 * current > max {
            HealthBand::Wounded
        } else {
            HealthBand::Critical
        }
    } else if max < 0 {
        if 2 * current < max {
            HealthBand::Healthy
        } else if 4 * current < max {
            HealthBand::Wounded
        } else {
            HealthBand::Critical
        }
    } else if current > 0 {
        HealthBand::Healthy
    } else {
        HealthBand::Critical
    }
}

/// The band of a unit's health.
pub fn health_band(h: &Health) -> (b: HealthBand)
    ensures
        b == band_of(h.current as int, h.max as int),
{
    let c = h.current as i64;
    let m = h.max as i64;
    if m > 0 {
        if 2 * c > m {
            HealthBand::Healthy
        } else if 4 * c > m {
            HealthBand::Wounded
        } else {
            HealthBand::Critical
        }
    } else if m < 0 {
        if 2 * c < m {
            HealthBand::Healthy
        } else if 4 * c < m {
            HealthBand::Wounded
        } else {
            HealthBand::Critical
        }
    } else if c > 0 {
        HealthBand::Healthy
    } else {
        HealthBand::Critical
    }
}

/// One dot per action point up to the maximum: filled for the points left.
pub open spec fn dots(current: int, max: int) -> Seq<char> {
    Seq::new(if max > 0 { max as nat } else { 0 }, |i: int| if i < current { '●' } else { '○' })
}

/// The action points as dots.
pub fn ap_dots(ap: &ActionPoints) -> (s: String)
    ensures
        s@ == dots(ap.current as int, ap.max as int),
{
    let mut s = String::new();
    let mut i: i32 = 0;
    proof {
        reveal_strlit("●");
        reveal_strlit("○");
    }
    while i < ap.max
        invariant
            0 <= i,
            i <= ap.max || ap.max <= 0,
            ap.max <= 0 ==> i == 0,
            s@ == dots(ap.current as int, i as int),
        decreases ap.max - i,
    {
        proof {
            reveal_strlit("●");
            reveal_strlit("○");
        }
        if i < ap.current {
            s.append("●");
        } else {
            s.append("○");
        }
        assert(s@ =~= dots(ap.current as int, i + 1));
        i = i + 1;
    }
    assert(s@ =~= dots(ap.current as int, ap.max as int));
    s
}

/// The name of a kind of status effect.
pub open spec fn kind_name(k: StatusKind) -> Seq<char> {
    match k {
        StatusKind::Burning => "Burning"@,
        StatusKind::Frozen => "Frozen"@,
        StatusKind::Shocked => "Shocked"@,
        StatusKind::Poisoned => "Poisoned"@,
    }
}

/// An effect as `Kind(turns)`.
pub open spec fn effect_text(e: StatusEffect) -> Seq<char> {
    kind_name(e.kind) + seq!['('] + signed_decimal(e.duration as int) + seq![')']
}

/// The effects, each as `Kind(turns)`, separated by spaces.
pub open spec fn effects_text(s: Seq<StatusEffect>) -> Seq<char>
    decreases s.len(),
{
    if s.len() == 0 {
        Seq::empty()
    } else if s.len() == 1 {
        effect_text(s[0])
    } else {
        effects_text(s.drop_last()) + seq![' '] + effect_text(s.last())
    }
}

/// The status line: the effects, or `No effects`.
pub open spec fn status_line(s: Seq<StatusEffect>) -> Seq<char> {
    if s.len() == 0 {
        "No effects"@
    } else {
        effects_text(s)
    }
}

/// An effect's text.
fn effect_string(e: &StatusEffect) -> (s: String)
    ensures
        s@ == effect_text(*e),
{
    let mut s = match e.kind {
        StatusKind::Burning => String::from_str("Burning"),
        StatusKind::Frozen => String::from_str("Frozen"),
        StatusKind::Shocked => String::from_str("Shocked"),
        StatusKind::Poisoned => String::from_str("Poisoned"),
    };
    proof {
        reveal_strlit("(");
        reveal_strlit(")");
    }
    s.append("(");
    s.append(signed_text(e.duration).as_str());
    s.append(")");
    s
}

/// The status effects as text.
pub fn status_text(status: &Status) -> (s: String)
    ensures
        s@ == status_line(status.effects@),
{
    if status.effects.len() == 0 {
        return String::from_str("No effects");
    }
    let mut s = effect_string(&status.effects[0]);
    let mut i: usize = 1;
    assert(status.effects@.take(1).drop_last() =~= Seq::<StatusEffect>::empty());
    proof {
        reveal_strlit(" ");
    }
    while i < status.effects.len()
        invariant
            1 <= i <= status.effects@.len(),
            s@ == effects_text(status.effects@.take(i as int)),
        decreases status.effects@.len() - i,
    {
        proof {
            reveal_strlit(" ");
        }
        s.append(" ");
        s.append(effect_string(&status.effects[i]).as_str());
        assert(status.effects@.take(i + 1).drop_last() =~= status.effects@.take(i as int));
        assert(s@ =~= effects_text(status.effects@.take(i + 1)));
        i = i + 1;
    }
    assert(status.effects@.take(i as int) =~= status.effects@);
    s
}

/// A spell's line of the menu: `F<n>: <name> (<cost>AP)`.
pub open spec fn spell_line(n: nat, sp: Spell) -> Seq<char> {
    "F"@ + decimal(n) + ": "@ + joined_element_names(sp.elements@) + " "@ + shape_name(sp.shape) + " ("@
        + signed_decimal(sp.ap_cost as int) + "AP)"@
}

/// The menu lines of the spells, from `F1` on, separated by line breaks.
pub open spec fn spell_lines(s: Seq<Spell>) -> Seq<char>
    decreases s.len(),
{
    if s.len() == 0 {
        Seq::empty()
    } else if s.len() == 1 {
        spell_line(1, s[0])
    } else {
        spell_lines(s.drop_last()) + seq!['\n'] + spell_line(s.len(), s.last())
    }
}

/// The spell menu: the spells, or how to get some.
pub open spec fn spell_menu(s: Seq<Spell>) -> Seq<char> {
    if s.len() == 0 {
        "No spells crafted!\n\nPress 'c' with runes\nto craft spells."@
    } else {
        spell_lines(s)
    }
}

/// A spell's menu line.
fn spell_line_text(n: u32, sp: &Spell) -> (s: String)
    ensures
        s@ == spell_line(n as nat, *sp),
{
    let mut s = String::from_str("F");
    s.append(decimal_text(n).as_str());
    proof {
        reveal_strlit(": ");
        reveal_strlit(" (");
        reveal_strlit("AP)");
    }
    s.append(": ");
    s.append(sp.name().as_str());
    s.append(" (");
    s.append(signed_text(sp.ap_cost).as_str());
    s.append("AP)");
    assert(s@ =~= spell_line(n as nat, *sp));
    s
}

/// The text of the spell menu.
pub fn spell_menu_text(grimoire: &Vec<Spell>) -> (s: String)
    requires
        grimoire@.len() < 0xffff_ffff,
    ensures
        s@ == spell_menu(grimoire@),
{
    if grimoire.len() == 0 {
        return String::from_str("No spells crafted!\n\nPress 'c' with runes\nto craft spells.");
    }
    let mut s = spell_line_text(1, &grimoire[0]);
    let mut i: usize = 1;
    assert(grimoire@.take(1).drop_last() =~= Seq::<Spell>::empty());
    proof {
        reveal_strlit("\n");
    }
    while i < grimoire.len()
        invariant
            1 <= i <= grimoire@.len(),
            grimoire@.len() < 0xffff_ffff,
            s@ == spell_lines(grimoire@.take(i as int)),
        decreases grimoire@.len() - i,
    {
        proof {
            reveal_strlit("\n");
        }
        s.append("\n");
        s.append(spell_line_text((i + 1) as u32, &grimoire[i]).as_str());
        assert(grimoire@.take(i + 1).drop_last() =~= grimoire@.take(i as int));
        assert(s@ =~= spell_lines(grimoire@.take(i + 1)));
        i = i + 1;
    }
    assert(grimoire@.take(i as int) =~= grimoire@);
    s
}

/// The map glyph of a tile.
pub open spec fn glyph_of(t: DungeonTile) -> char {
    match t {
        DungeonTile::Floor => '.',
        DungeonTile::Wall => '#',
        DungeonTile::Stairs => '>',
        DungeonTile::BossFloor => ',',
    }
}

/// The map glyph of a tile.
pub fn tile_glyph(t: DungeonTile) -> (c: char)
    ensures
        c == glyph_of(t),
{
    match t {
        DungeonTile::Floor => '.',
        DungeonTile::Wall => '#',
        DungeonTile::Stairs => '>',
        DungeonTile::BossFloor => ',',
    }
}

/// A rectangle of the screen, in character cells.
#[derive(Debug, Clone, Copy, PartialEq, Eq, Structural)]
pub struct Area {
    pub x: u16,
    pub y: u16,
    pub width: u16,
    pub height: u16,
}

/// A box of at most `width` by `height` cells centered in `area`.
pub fn centered_rect(width: u16, height: u16, area: Area) -> (r: Area)
    requires
        area.x + area.width / 2 <= u16::MAX,
        area.y + area.height / 2 <= u16::MAX,
    ensures
        r.x == area.x + (if area.width > width { area.width - width } else { 0 }) / 2,
        r.y == area.y + (if area.height > height { area.height - height } else { 0 }) / 2,
        r.width == if width < area.width { width } else { area.width },
        r.height == if height < area.height { height } else { area.height },
{
    let x = area.x + area.width.saturating_sub(width) / 2;
    let y = area.y + area.height.saturating_sub(height) / 2;
    Area {
        x,
        y,
        width: if width < area.width { width } else { area.width },
        height: if height < area.height { height } else { area.height },
    }
}

} // verus!
