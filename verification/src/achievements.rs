//! Achievement system: tracks player accomplishments across runs.

use vstd::prelude::*;

verus! {

/// Achievement definitions.
#[derive(Clone, Copy, PartialEq, Eq, Structural, Debug, Hash)]
pub enum Achievement {
    /// Win your first game.
    FirstVictory,
    /// Win in under 100 turns.
    SpeedrunVictory,
    /// Win without taking damage.
    FlawlessVictory,
    /// Kill your first enemy.
    FirstBlood,
    /// Kill 50 enemies total.
    Slayer,
    /// Defeat a boss.
    BossHunter,
    /// Defeat all 3 boss types.
    BossSlayer,
    /// Complete a floor without taking damage.
    Untouchable,
    /// Craft your first spell.
    Apprentice,
    /// Have 5 spells in grimoire at once.
    Archmage,
    /// Use all 6 elements in one run.
    ElementalMaster,
    /// Use all 6 shapes in one run.
    ShapeShifter,
    /// Reach floor 2.
    Explorer,
    /// Reach floor 3.
    DeepDiver,
    /// Collect 10 runes in one run.
    RuneCollector,
    /// Complete a daily challenge.
    DailyPlayer,
    /// Complete 3 daily challenges.
    DailyStreak3,
    /// Complete 7 daily challenges.
    DailyStreak7,
    /// Get #1 on daily leaderboard.
    TopScore,
    /// Win with less than 10 HP.
    Survivor,
    /// Complete a floor without killing.
    Pacifist,
    /// Collect 20 runes in one run.
    HoarderOfRunes,
}

/// The display name of an achievement.
pub open spec fn achievement_name(a: Achievement) -> Seq<char> {
    match a {
        Achievement::FirstVictory => "First Victory"@,
        Achievement::SpeedrunVictory => "Speedrunner"@,
        Achievement::FlawlessVictory => "Flawless"@,
        Achievement::FirstBlood => "First Blood"@,
        Achievement::Slayer => "Slayer"@,
        Achievement::BossHunter => "Boss Hunter"@,
        Achievement::BossSlayer => "Boss Slayer"@,
        Achievement::Untouchable => "Untouchable"@,
        Achievement::Apprentice => "Apprentice"@,
        Achievement::Archmage => "Archmage"@,
        Achievement::ElementalMaster => "Elemental Master"@,
        Achievement::ShapeShifter => "Shape Shifter"@,
        Achievement::Explorer => "Explorer"@,
        Achievement::DeepDiver => "Deep Diver"@,
        Achievement::RuneCollector => "Rune Collector"@,
        Achievement::DailyPlayer => "Daily Player"@,
        Achievement::DailyStreak3 => "Daily Streak"@,
        Achievement::DailyStreak7 => "Weekly Warrior"@,
        Achievement::TopScore => "Champion"@,
        Achievement::Survivor => "Survivor"@,
        Achievement::Pacifist => "Pacifist"@,
        Achievement::HoarderOfRunes => "Hoarder"@,
    }
}

/// The description of an achievement.
pub open spec fn achievement_description(a: Achievement) -> Seq<char> {
    match a {
        Achievement::FirstVictory => "Win your first game"@,
        Achievement::SpeedrunVictory => "Win in under 100 turns"@,
        Achievement::FlawlessVictory => "Win without taking any damage"@,
        Achievement::FirstBlood => "Kill your first enemy"@,
        Achievement::Slayer => "Kill 50 enemies total"@,
        Achievement::BossHunter => "Defeat a boss"@,
        Achievement::BossSlayer => "Defeat all 3 boss types"@,
        Achievement::Untouchable => "Complete a floor without taking damage"@,
        Achievement::Apprentice => "Craft your first spell"@,
        Achievement::Archmage => "Have 5 spells at once"@,
        Achievement::ElementalMaster => "Use all 6 elements in one run"@,
        Achievement::ShapeShifter => "Use all 6 shapes in one run"@,
        Achievement::Explorer => "Reach floor 2"@,
        Achievement::DeepDiver => "Reach floor 3"@,
        Achievement::RuneCollector => "Collect 10 runes in one run"@,
        Achievement::DailyPlayer => "Complete a daily challenge"@,
        Achievement::DailyStreak3 => "Complete 3 daily challenges"@,
        Achievement::DailyStreak7 => "Complete 7 daily challenges"@,
        Achievement::TopScore => "Get #1 on daily leaderboard"@,
        Achievement::Survivor => "Win with less than 10 HP"@,
        Achievement::Pacifist => "Complete a floor without killing"@,
        Achievement::HoarderOfRunes => "Collect 20 runes in one run"@,
    }
}

/// Every achievement, in declaration order.
pub open spec fn all_achievements() -> Seq<Achievement> {
    seq![
        Achievement::FirstVictory,
        Achievement::SpeedrunVictory,
        Achievement::FlawlessVictory,
        Achievement::FirstBlood,
        Achievement::Slayer,
        Achievement::BossHunter,
        Achievement::BossSlayer,
        Achievement::Untouchable,
        Achievement::Apprentice,
        Achievement::Archmage,
        Achievement::ElementalMaster,
        Achievement::ShapeShifter,
        Achievement::Explorer,
        Achievement::DeepDiver,
        Achievement::RuneCollector,
        Achievement::DailyPlayer,
        Achievement::DailyStreak3,
        Achievement::DailyStreak7,
        Achievement::TopScore,
        Achievement::Survivor,
        Achievement::Pacifist,
        Achievement::HoarderOfRunes,
    ]
}

impl Achievement {
    /// Get the display name for this achievement.
    pub fn name(&self) -> (n: &'static str)
        ensures
            n@ == achievement_name(*self),
    {
        match self {
            Achievement::FirstVictory => "First Victory",
            Achievement::SpeedrunVictory => "Speedrunner",
            Achievement::FlawlessVictory => "Flawless",
            Achievement::FirstBlood => "First Blood",
            Achievement::Slayer => "Slayer",
            Achievement::BossHunter => "Boss Hunter",
            Achievement::BossSlayer => "Boss Slayer",
            Achievement::Untouchable => "Untouchable",
            Achievement::Apprentice => "Apprentice",
            Achievement::Archmage => "Archmage",
            Achievement::ElementalMaster => "Elemental Master",
            Achievement::ShapeShifter => "Shape Shifter",
            Achievement::Explorer => "Explorer",
            Achievement::DeepDiver => "Deep Diver",
            Achievement::RuneCollector => "Rune Collector",
            Achievement::DailyPlayer => "Daily Player",
            Achievement::DailyStreak3 => "Daily Streak",
            Achievement::DailyStreak7 => "Weekly Warrior",
            Achievement::TopScore => "Champion",
            Achievement::Survivor => "Survivor",
            Achievement::Pacifist => "Pacifist",
            Achievement::HoarderOfRunes => "Hoarder",
        }
    }

    /// Get the description for this achievement.
    pub fn description(&self) -> (d: &'static str)
        ensures
            d@ == achievement_description(*self),
    {
        match self {
            Achievement::FirstVictory => "Win your first game",
            Achievement::SpeedrunVictory => "Win in under 100 turns",
            Achievement::FlawlessVictory => "Win without taking any damage",
            Achievement::FirstBlood => "Kill your first enemy",
            Achievement::Slayer => "Kill 50 enemies total",
            Achievement::BossHunter => "Defeat a boss",
            Achievement::BossSlayer => "Defeat all 3 boss types",
            Achievement::Untouchable => "Complete a floor without taking damage",
            Achievement::Apprentice => "Craft your first spell",
            Achievement::Archmage => "Have 5 spells at once",
            Achievement::ElementalMaster => "Use all 6 elements in one run",
            Achievement::ShapeShifter => "Use all 6 shapes in one run",
            Achievement::Explorer => "Reach floor 2",
            Achievement::DeepDiver => "Reach floor 3",
            Achievement::RuneCollector => "Collect 10 runes in one run",
            Achievement::DailyPlayer => "Complete a daily challenge",
            Achievement::DailyStreak3 => "Complete 3 daily challenges",
            Achievement::DailyStreak7 => "Complete 7 daily challenges",
            Achievement::TopScore => "Get #1 on daily leaderboard",
            Achievement::Survivor => "Win with less than 10 HP",
            Achievement::Pacifist => "Complete a floor without killing",
            Achievement::HoarderOfRunes => "Collect 20 runes in one run",
        }
    }

    /// Get all achievements.
    pub fn all() -> (v: Vec<Achievement>)
        ensures
            v@ == all_achievements(),
    {
        vec![
            Achievement::FirstVictory,
            Achievement::SpeedrunVictory,
            Achievement::FlawlessVictory,
            Achievement::FirstBlood,
            Achievement::Slayer,
            Achievement::BossHunter,
            Achievement::BossSlayer,
            Achievement::Untouchable,
            Achievement::Apprentice,
            Achievement::Archmage,
            Achievement::ElementalMaster,
            Achievement::ShapeShifter,
            Achievement::Explorer,
            Achievement::DeepDiver,
            Achievement::RuneCollector,
            Achievement::DailyPlayer,
            Achievement::DailyStreak3,
            Achievement::DailyStreak7,
            Achievement::TopScore,
            Achievement::Survivor,
            Achievement::Pacifist,
            Achievement::HoarderOfRunes,
        ]
    }
}

/// Every achievement occurs exactly once in the list of all achievements.
pub proof fn lemma_all_achievements(a: Achievement)
    ensures
        all_achievements().contains(a),
        all_achievements().len() == 22,
        all_achievements().no_duplicates(),
{
    let s = all_achievements();
    assert(s.no_duplicates());
    match a {
        Achievement::FirstVictory => assert(s[0] == a),
        Achievement::SpeedrunVictory => assert(s[1] == a),
        Achievement::FlawlessVictory => assert(s[2] == a),
        Achievement::FirstBlood => assert(s[3] == a),
        Achievement::Slayer => assert(s[4] == a),
        Achievement::BossHunter => assert(s[5] == a),
        Achievement::BossSlayer => assert(s[6] == a),
        Achievement::Untouchable => assert(s[7] == a),
        Achievement::Apprentice => assert(s[8] == a),
        Achievement::Archmage => assert(s[9] == a),
        Achievement::ElementalMaster => assert(s[10] == a),
        Achievement::ShapeShifter => assert(s[11] == a),
        Achievement::Explorer => assert(s[12] == a),
        Achievement::DeepDiver => assert(s[13] == a),
        Achievement::RuneCollector => assert(s[14] == a),
        Achievement::DailyPlayer => assert(s[15] == a),
        Achievement::DailyStreak3 => assert(s[16] == a),
        Achievement::DailyStreak7 => assert(s[17] == a),
        Achievement::TopScore => assert(s[18] == a),
        Achievement::Survivor => assert(s[19] == a),
        Achievement::Pacifist => assert(s[20] == a),
        Achievement::HoarderOfRunes => assert(s[21] == a),
    }
}

/// The views of a list of strings.
pub open spec fn string_views(v: Seq<String>) -> Seq<Seq<char>> {
    v.map_values(|x: String| x@)
}

/// `s` is in the list, or is appended to it.
pub open spec fn with_string(v: Seq<Seq<char>>, s: Seq<char>) -> Seq<Seq<char>> {
    if v.contains(s) {
        v
    } else {
        v.push(s)
    }
}

/// Whether `a` is followed by `b` when `c` holds, as a list of one or none.
pub open spec fn when(c: bool, a: Achievement) -> Seq<Achievement> {
    if c {
        seq![a]
    } else {
        Seq::empty()
    }
}

/// Persistent achievement storage.
#[derive(Debug)]
pub struct AchievementStore {
    /// Unlocked achievements.
    pub unlocked: Vec<Achievement>,
    /// Total enemies killed across all runs.
    pub total_kills: u32,
    /// Boss types defeated.
    pub bosses_defeated: Vec<String>,
    /// Daily challenges completed (dates).
    pub daily_completions: Vec<String>,
}

impl AchievementStore {
    /// No achievement, boss type or date is recorded twice.
    pub open spec fn wf(&self) -> bool {
        &&& self.unlocked@.no_duplicates()
        &&& string_views(self.bosses_defeated@).no_duplicates()
        &&& string_views(self.daily_completions@).no_duplicates()
    }

    /// The set of unlocked achievements.
    pub open spec fn unlocked_set(&self) -> Set<Achievement> {
        self.unlocked@.to_set()
    }

    /// An empty store.
    pub fn new() -> (s: Self)
        ensures
            s.wf(),
            s.unlocked@.len() == 0,
            s.total_kills == 0,
            s.bosses_defeated@.len() == 0,
            s.daily_completions@.len() == 0,
    {
        let s = AchievementStore {
            unlocked: Vec::new(),
            total_kills: 0,
            bosses_defeated: Vec::new(),
            daily_completions: Vec::new(),
        };
        assert(string_views(s.bosses_defeated@) =~= Seq::empty());
        assert(string_views(s.daily_completions@) =~= Seq::empty());
        s
    }

    /// Unlock an achievement, returning true if newly unlocked.
    pub fn unlock(&mut self, achievement: Achievement) -> (newly: bool)
        requires
            old(self).wf(),
        ensures
            final(self).wf(),
            newly == !old(self).unlocked@.contains(achievement),
            final(self).unlocked@ == if newly {
                old(self).unlocked@.push(achievement)
            } else {
                old(self).unlocked@
            },
            final(self).total_kills == old(self).total_kills,
            final(self).bosses_defeated@ == old(self).bosses_defeated@,
            final(self).daily_completions@ == old(self).daily_completions@,
    {
        if self.is_unlocked(achievement) {
            false
        } else {
            proof {
                vstd::seq_lib::lemma_no_dup_in_concat(self.unlocked@, seq![achievement]);
                assert(self.unlocked@ + seq![achievement] =~= self.unlocked@.push(achievement));
            }
            self.unlocked.push(achievement);
            true
        }
    }

    /// Check if an achievement is unlocked.
    pub fn is_unlocked(&self, achievement: Achievement) -> (b: bool)
        ensures
            b == self.unlocked@.contains(achievement),
    {
        let mut i: usize = 0;
        while i < self.unlocked.len()
            invariant
                i <= self.unlocked@.len(),
                forall|j: int| 0 <= j < i ==> self.unlocked@[j] != achievement,
            decreases self.unlocked@.len() - i,
        {
            if self.unlocked[i] == achievement {
                return true;
            }
            i = i + 1;
        }
        false
    }

    /// Get count of unlocked achievements.
    pub fn unlocked_count(&self) -> (n: usize)
        requires
            self.wf(),
        ensures
            n == self.unlocked_set().len(),
    {
        proof {
            self.unlocked@.unique_seq_to_set();
        }
        self.unlocked.len()
    }

    /// Get total achievement count.
    pub fn total_count(&self) -> (n: usize)
        ensures
            n == all_achievements().len(),
            n == 22,
    {
        Achievement::all().len()
    }

    /// Record an enemy kill, unlocking achievements if needed; returns the
    /// newly unlocked ones.
    pub fn record_kill(&mut self) -> (newly: Vec<Achievement>)
        requires
            old(self).wf(),
            old(self).total_kills < u32::MAX,
        ensures
            final(self).wf(),
            final(self).total_kills == old(self).total_kills + 1,
            newly@ == when(
                final(self).total_kills == 1 && !old(self).unlocked@.contains(Achievement::FirstBlood),
                Achievement::FirstBlood,
            ) + when(
                final(self).total_kills >= 50 && !old(self).unlocked@.contains(Achievement::Slayer),
                Achievement::Slayer,
            ),
            final(self).unlocked@ == old(self).unlocked@ + newly@,
            final(self).bosses_defeated@ == old(self).bosses_defeated@,
            final(self).daily_completions@ == old(self).daily_completions@,
    {
        let mut newly: Vec<Achievement> = Vec::new();
        let ghost start = self.unlocked@;
        self.total_kills = self.total_kills + 1;
        if self.total_kills == 1 && self.unlock(Achievement::FirstBlood) {
            newly.push(Achievement::FirstBlood);
        }
        assert(self.unlocked@ == start + newly@);
        if self.total_kills >= 50 && self.unlock(Achievement::Slayer) {
            newly.push(Achievement::Slayer);
        }
        proof {
            if start.contains(Achievement::Slayer) {
                let k = choose|k: int| 0 <= k < start.len() && start[k] == Achievement::Slayer;
                assert((start + newly@)[k] == Achievement::Slayer);
            }
        }
        assert(self.unlocked@ =~= start + newly@);
        assert(newly@ =~= when(
            self.total_kills == 1 && !start.contains(Achievement::FirstBlood),
            Achievement::FirstBlood,
        ) + when(self.total_kills >= 50 && !start.contains(Achievement::Slayer), Achievement::Slayer));
        newly
    }

    /// Record a boss defeat; returns the newly unlocked achievements.
    pub fn record_boss_defeat(&mut self, boss_type: &str) -> (newly: Vec<Achievement>)
        requires
            old(self).wf(),
        ensures
            final(self).wf(),
            string_views(final(self).bosses_defeated@) == with_string(
                string_views(old(self).bosses_defeated@),
                boss_type@,
            ),
            newly@ == when(!old(self).unlocked@.contains(Achievement::BossHunter), Achievement::BossHunter)
                + when(
                all_bosses_in(string_views(final(self).bosses_defeated@))
                    && !old(self).unlocked@.contains(Achievement::BossSlayer),
                Achievement::BossSlayer,
            ),
            final(self).unlocked@ == old(self).unlocked@ + newly@,
            final(self).total_kills == old(self).total_kills,
            final(self).daily_completions@ == old(self).daily_completions@,
    {
        let mut newly: Vec<Achievement> = Vec::new();
        let ghost start = self.unlocked@;
        let name = boss_type.to_owned();
        add_string(&mut self.bosses_defeated, name);
        if self.unlock(Achievement::BossHunter) {
            newly.push(Achievement::BossHunter);
        }
        assert(self.unlocked@ == start + newly@);
        let fire = "FireLord".to_owned();
        let frost = "FrostQueen".to_owned();
        let void = "VoidWraith".to_owned();
        let all = contains_string(&self.bosses_defeated, &fire) && contains_string(
            &self.bosses_defeated,
            &frost,
        ) && contains_string(&self.bosses_defeated, &void);
        if all {
            if self.unlock(Achievement::BossSlayer) {
                newly.push(Achievement::BossSlayer);
            }
        }
        proof {
            if start.contains(Achievement::BossSlayer) {
                let k = choose|k: int| 0 <= k < start.len() && start[k] == Achievement::BossSlayer;
                assert((start + newly@)[k] == Achievement::BossSlayer);
            }
        }
        assert(self.unlocked@ =~= start + newly@);
        assert(newly@ =~= when(!start.contains(Achievement::BossHunter), Achievement::BossHunter)
            + when(
            all_bosses_in(string_views(self.bosses_defeated@)) && !start.contains(
                Achievement::BossSlayer,
            ),
            Achievement::BossSlayer,
        ));
        newly
    }

    /// Record a daily challenge completion; returns the newly unlocked achievements.
    pub fn record_daily_completion(&mut self, date: &str) -> (newly: Vec<Achievement>)
        requires
            old(self).wf(),
        ensures
            final(self).wf(),
            string_views(final(self).daily_completions@) == with_string(
                string_views(old(self).daily_completions@),
                date@,
            ),
            newly@ == when(!old(self).unlocked@.contains(Achievement::DailyPlayer), Achievement::DailyPlayer)
                + when(
                final(self).daily_completions@.len() >= 3 && !old(self).unlocked@.contains(
                    Achievement::DailyStreak3,
                ),
                Achievement::DailyStreak3,
            ) + when(
                final(self).daily_completions@.len() >= 7 && !old(self).unlocked@.contains(
                    Achievement::DailyStreak7,
                ),
                Achievement::DailyStreak7,
            ),
            final(self).unlocked@ == old(self).unlocked@ + newly@,
            final(self).total_kills == old(self).total_kills,
            final(self).bosses_defeated@ == old(self).bosses_defeated@,
    {
        let mut newly: Vec<Achievement> = Vec::new();
        let ghost start = self.unlocked@;
        let day = date.to_owned();
        add_string(&mut self.daily_completions, day);
        if self.unlock(Achievement::DailyPlayer) {
            newly.push(Achievement::DailyPlayer);
        }
        assert(self.unlocked@ == start + newly@);
        let ghost mid = newly@;
        if self.daily_completions.len() >= 3 && self.unlock(Achievement::DailyStreak3) {
            newly.push(Achievement::DailyStreak3);
        }
        proof {
            if start.contains(Achievement::DailyStreak3) {
                let k = choose|k: int| 0 <= k < start.len() && start[k] == Achievement::DailyStreak3;
                assert((start + mid)[k] == Achievement::DailyStreak3);
            }
        }
        assert(self.unlocked@ =~= start + newly@);
        let ghost mid2 = newly@;
        if self.daily_completions.len() >= 7 && self.unlock(Achievement::DailyStreak7) {
            newly.push(Achievement::DailyStreak7);
        }
        proof {
            if start.contains(Achievement::DailyStreak7) {
                let k = choose|k: int| 0 <= k < start.len() && start[k] == Achievement::DailyStreak7;
                assert((start + mid2)[k] == Achievement::DailyStreak7);
            }
        }
        assert(self.unlocked@ =~= start + newly@);
        assert(newly@ =~= when(!start.contains(Achievement::DailyPlayer), Achievement::DailyPlayer)
            + when(
            self.daily_completions@.len() >= 3 && !start.contains(Achievement::DailyStreak3),
            Achievement::DailyStreak3,
        ) + when(
            self.daily_completions@.len() >= 7 && !start.contains(Achievement::DailyStreak7),
            Achievement::DailyStreak7,
        ));
        newly
    }
}

impl Default for AchievementStore {
    fn default() -> (s: Self)
        ensures
            s.wf(),
            s.unlocked@.len() == 0,
            s.total_kills == 0,
            s.bosses_defeated@.len() == 0,
            s.daily_completions@.len() == 0,
    {
        AchievementStore::new()
    }
}

/// All three boss types appear among the names.
pub open spec fn all_bosses_in(names: Seq<Seq<char>>) -> bool {
    &&& names.contains("FireLord"@)
    &&& names.contains("FrostQueen"@)
    &&& names.contains("VoidWraith"@)
}

/// Whether a list of strings holds one equal to `s`.
fn contains_string(v: &Vec<String>, s: &String) -> (b: bool)
    ensures
        b == string_views(v@).contains(s@),
{
    let mut i: usize = 0;
    while i < v.len()
        invariant
            i <= v@.len(),
            forall|j: int| 0 <= j < i ==> v@[j]@ != s@,
        decreases v@.len() - i,
    {
        if v[i] == *s {
            assert(string_views(v@)[i as int] == s@);
            return true;
        }
        i = i + 1;
    }
    proof {
        if string_views(v@).contains(s@) {
            let k = choose|k: int| 0 <= k < v@.len() && string_views(v@)[k] == s@;
            assert(v@[k]@ == s@);
        }
    }
    false
}

/// Append `s` unless an equal string is already there.
fn add_string(v: &mut Vec<String>, s: String)
    requires
        string_views(old(v)@).no_duplicates(),
    ensures
        string_views(final(v)@).no_duplicates(),
        string_views(final(v)@) == with_string(string_views(old(v)@), s@),
{
    if !contains_string(v, &s) {
        let ghost before = string_views(v@);
        v.push(s);
        proof {
            assert(string_views(v@) =~= before.push(s@));
            vstd::seq_lib::lemma_no_dup_in_concat(before, seq![s@]);
            assert(before + seq![s@] =~= before.push(s@));
        }
    }
}

} // verus!
