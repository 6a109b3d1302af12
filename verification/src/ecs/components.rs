//! Components for game entities.

use vstd::prelude::*;

use crate::hex::Hex;
use crate::magic::Rune;

verus! {

/// Position in the hex grid.
#[derive(Clone, Copy, Debug)]
pub struct Position(pub Hex);

/// Health points.
#[derive(Clone, Copy, Debug)]
pub struct Health {
    pub current: i32,
    pub max: i32,
}

impl Health {
    /// Full health of `max` points.
    pub fn new(max: i32) -> (h: Health)
        ensures
            h.current == max,
            h.max == max,
    {
        Health { current: max, max }
    }

    /// Lose `amount` points, never going below zero.
    pub fn take_damage(&mut self, amount: i32)
        requires
            i32::MIN <= old(self).current - amount <= i32::MAX,
        ensures
            final(self).max == old(self).max,
            final(self).current == if old(self).current - amount > 0 {
                old(self).current - amount
            } else {
                0
            },
    {
        let c = self.current - amount;
        self.current = if c > 0 {
            c
        } else {
            0
        };
    }

    /// Regain `amount` points, never going above the maximum.
    pub fn heal(&mut self, amount: i32)
        requires
            i32::MIN <= old(self).current + amount <= i32::MAX,
        ensures
            final(self).max == old(self).max,
            final(self).current == if old(self).current + amount < old(self).max {
                old(self).current + amount
            } else {
                old(self).max as int
            },
    {
        let c = self.current + amount;
        self.current = if c < self.max {
            c
        } else {
            self.max
        };
    }

    pub fn is_dead(&self) -> (b: bool)
        ensures
            b == (self.current <= 0),
    {
        self.current <= 0
    }
}

/// Action points for movement and spells.
#[derive(Clone, Copy, Debug)]
pub struct ActionPoints {
    pub current: i32,
    pub max: i32,
}

impl ActionPoints {
    /// Full action points.
    pub fn new(max: i32) -> (a: ActionPoints)
        ensures
            a.current == max,
            a.max == max,
    {
        ActionPoints { current: max, max }
    }

    /// Spend `amount` points if there are enough; report whether they were spent.
    pub fn spend(&mut self, amount: i32) -> (spent: bool)
        requires
            old(self).current >= amount ==> old(self).current - amount <= i32::MAX,
        ensures
            spent == (old(self).current >= amount),
            final(self).max == old(self).max,
            final(self).current == if spent {
                old(self).current - amount
            } else {
                old(self).current as int
            },
    {
        if self.current >= amount {
            self.current = self.current - amount;
            true
        } else {
            false
        }
    }

    /// Refill to the maximum.
    pub fn restore(&mut self)
        ensures
            final(self).max == old(self).max,
            final(self).current == old(self).max,
    {
        self.current = self.max;
    }
}

/// Marker component for the player.
#[derive(Clone, Copy, Debug)]
pub struct Player;

/// AI type for enemies.
#[derive(Clone, Copy, PartialEq, Eq, Structural, Debug)]
pub enum AIType {
    /// Approaches and attacks.
    Melee,
    /// Keeps distance, uses spells.
    Ranged,
    /// Wanders until it sees the player.
    Patrol,
}

/// Enemy component with AI behavior.
#[derive(Clone, Copy, Debug)]
pub struct Enemy {
    pub ai_type: AIType,
    pub aggro_range: i32,
}

/// Rune inventory for spell crafting.
#[derive(Clone, Debug, Default)]
pub struct Inventory {
    pub runes: Vec<Rune>,
}

/// A rune on the floor that can be picked up.
#[derive(Clone, Copy, Debug)]
pub struct RunePickup {
    pub rune: Rune,
}

/// An active status effect.
#[derive(Clone, Copy, Debug)]
pub struct StatusEffect {
    pub kind: StatusKind,
    pub duration: i32,
    pub intensity: i32,
}

#[derive(Clone, Copy, PartialEq, Eq, Structural, Debug)]
pub enum StatusKind {
    Burning,
    Frozen,
    Shocked,
    Poisoned,
}

/// Active status effects.
#[derive(Clone, Debug, Default)]
pub struct Status {
    pub effects: Vec<StatusEffect>,
}

/// The effects that remain after one tick: every duration one shorter, the
/// expired ones dropped, the rest in order.
pub open spec fn ticked(s: Seq<StatusEffect>) -> Seq<StatusEffect>
    decreases s.len(),
{
    if s.len() == 0 {
        Seq::empty()
    } else {
        let e = s.last();
        let rest = ticked(s.drop_last());
        if e.duration - 1 > 0 {
            rest.push(StatusEffect { duration: (e.duration - 1) as i32, ..e })
        } else {
            rest
        }
    }
}

impl Status {
    /// Add an effect.
    pub fn add(&mut self, effect: StatusEffect)
        ensures
            final(self).effects@ == old(self).effects@.push(effect),
    {
        self.effects.push(effect);
    }

    /// Advance all effects by one turn, dropping expired ones.
    pub fn tick(&mut self)
        requires
            forall|i: int|
                0 <= i < old(self).effects@.len() ==> #[trigger] old(self).effects@[i].duration
                    > i32::MIN,
        ensures
            final(self).effects@ == ticked(old(self).effects@),
    {
        let mut kept: Vec<StatusEffect> = Vec::new();
        let mut i: usize = 0;
        while i < self.effects.len()
            invariant
                i <= self.effects@.len(),
                forall|j: int|
                    0 <= j < self.effects@.len() ==> #[trigger] self.effects@[j].duration > i32::MIN,
                kept@ == ticked(self.effects@.subrange(0, i as int)),
            decreases self.effects@.len() - i,
        {
            let ghost prefix = self.effects@.subrange(0, i + 1);
            assert(prefix.drop_last() =~= self.effects@.subrange(0, i as int));
            let e = self.effects[i];
            let d = e.duration - 1;
            if d > 0 {
                kept.push(StatusEffect { kind: e.kind, duration: d, intensity: e.intensity });
            }
            i = i + 1;
        }
        assert(self.effects@.subrange(0, i as int) =~= self.effects@);
        self.effects = kept;
    }
}

/// Display info for rendering.
#[derive(Clone, Copy, Debug)]
pub struct Display {
    pub glyph: char,
    pub color: (u8, u8, u8),
}

/// Boss types with unique mechanics.
#[derive(Clone, Copy, PartialEq, Eq, Structural, Debug)]
pub enum BossType {
    /// Fire Elemental - AOE fire attacks, enrages at low health
    FireLord,
    /// Ice Elemental - Slows player, summons ice walls
    FrostQueen,
    /// Shadow creature - teleports, creates duplicates
    VoidWraith,
}

/// The display name of a boss.
pub open spec fn boss_name(b: BossType) -> Seq<char> {
    match b {
        BossType::FireLord => "Fire Lord"@,
        BossType::FrostQueen => "Frost Queen"@,
        BossType::VoidWraith => "Void Wraith"@,
    }
}

/// The boss met at the end of a floor: the three types in turn, starting with
/// the Fire Lord on floor 1; floors whose remainder by 3 is neither 1 nor 2
/// (0 and the negative floors) get the Void Wraith.
pub open spec fn boss_for_floor(floor: int) -> BossType {
    if floor > 0 && floor % 3 == 1 {
        BossType::FireLord
    } else if floor > 0 && floor % 3 == 2 {
        BossType::FrostQueen
    } else {
        BossType::VoidWraith
    }
}

impl BossType {
    /// Get the boss name for display.
    pub fn name(&self) -> (n: &'static str)
        ensures
            n@ == boss_name(*self),
    {
        match self {
            BossType::FireLord => "Fire Lord",
            BossType::FrostQueen => "Frost Queen",
            BossType::VoidWraith => "Void Wraith",
        }
    }

    /// Get the boss glyph.
    pub fn glyph(&self) -> (c: char)
        ensures
            c == match *self {
                BossType::FireLord => 'F',
                BossType::FrostQueen => 'Q',
                BossType::VoidWraith => 'V',
            },
    {
        match self {
            BossType::FireLord => 'F',
            BossType::FrostQueen => 'Q',
            BossType::VoidWraith => 'V',
        }
    }

    /// Get the boss color.
    pub fn color(&self) -> (c: (u8, u8, u8))
        ensures
            c == match *self {
                BossType::FireLord => (255u8, 100u8, 50u8),
                BossType::FrostQueen => (150u8, 200u8, 255u8),
                BossType::VoidWraith => (180u8, 50u8, 255u8),
            },
    {
        match self {
            BossType::FireLord => (255, 100, 50),
            BossType::FrostQueen => (150, 200, 255),
            BossType::VoidWraith => (180, 50, 255),
        }
    }

    /// Get base health for this boss.
    pub fn base_health(&self) -> (h: i32)
        ensures
            h == match *self {
                BossType::FireLord => 100i32,
                BossType::FrostQueen => 80i32,
                BossType::VoidWraith => 60i32,
            },
    {
        match self {
            BossType::FireLord => 100,
            BossType::FrostQueen => 80,
            BossType::VoidWraith => 60,
        }
    }

    /// Get the boss for a given floor number.
    pub fn for_floor(floor: i32) -> (b: BossType)
        ensures
            b == boss_for_floor(floor as int),
    {
        if floor > 0 {
            let m = floor % 3;
            if m == 1 {
                BossType::FireLord
            } else if m == 2 {
                BossType::FrostQueen
            } else {
                BossType::VoidWraith
            }
        } else {
            BossType::VoidWraith
        }
    }
}

/// The boss cycle repeats every three floors.
pub proof fn lemma_boss_cycle(floor: int)
    requires
        floor > 0,
    ensures
        boss_for_floor(floor + 3) == boss_for_floor(floor),
{
}

/// Boss component for boss enemies.
#[derive(Clone, Copy, Debug)]
pub struct Boss {
    pub boss_type: BossType,
    /// Current phase (bosses may have multiple phases).
    pub phase: u8,
    /// Whether the boss is enraged (low health).
    pub enraged: bool,
}

impl Boss {
    /// A fresh boss: phase 1, not enraged.
    pub fn new(boss_type: BossType) -> (b: Boss)
        ensures
            b.boss_type == boss_type,
            b.phase == 1,
            !b.enraged,
    {
        Boss { boss_type, phase: 1, enraged: false }
    }
}

/// Loot drop quality.
#[derive(Clone, Copy, PartialEq, Eq, Structural, Debug)]
pub enum LootQuality {
    Common,
    Rare,
    Epic,
}

/// Special loot from bosses.
#[derive(Clone, Copy, Debug)]
pub struct BossLoot {
    pub quality: LootQuality,
    /// Number of runes dropped.
    pub rune_count: usize,
}

/// Loot quality by floor: Epic from floor 3, Rare on floor 2, Common below.
pub open spec fn loot_quality(floor: int) -> LootQuality {
    if floor >= 3 {
        LootQuality::Epic
    } else if floor >= 2 {
        LootQuality::Rare
    } else {
        LootQuality::Common
    }
}

/// Runes dropped: 2, 3 or 5 by quality, one more from a Void Wraith.
pub open spec fn loot_rune_count(boss_type: BossType, floor: int) -> usize {
    let base: usize = match loot_quality(floor) {
        LootQuality::Common => 2,
        LootQuality::Rare => 3,
        LootQuality::Epic => 5,
    };
    if boss_type == BossType::VoidWraith {
        (base + 1) as usize
    } else {
        base
    }
}

impl BossLoot {
    pub fn from_boss(boss_type: BossType, floor: i32) -> (l: BossLoot)
        ensures
            l.quality == loot_quality(floor as int),
            l.rune_count == loot_rune_count(boss_type, floor as int),
    {
        let quality = if floor >= 3 {
            LootQuality::Epic
        } else if floor >= 2 {
            LootQuality::Rare
        } else {
            LootQuality::Common
        };
        let rune_count: usize = match quality {
            LootQuality::Common => 2,
            LootQuality::Rare => 3,
            LootQuality::Epic => 5,
        };
        let rune_count = if boss_type == BossType::VoidWraith {
            rune_count + 1
        } else {
            rune_count
        };
        BossLoot { quality, rune_count }
    }
}

/// Deeper floors never give fewer runes from the same boss.
pub proof fn lemma_loot_monotone(boss_type: BossType, f1: int, f2: int)
    requires
        f1 <= f2,
    ensures
        loot_rune_count(boss_type, f1) <= loot_rune_count(boss_type, f2),
{
}

} // verus!
