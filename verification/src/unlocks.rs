//! Unlockable content: advanced runes that achievements unlock.

use vstd::prelude::*;

use crate::achievements::{Achievement, AchievementStore};
use crate::magic::{Element, Modifier, Shape};

verus! {

/// Content that can be unlocked.
#[derive(Clone, Copy, PartialEq, Eq, Structural, Debug, Hash)]
pub enum Unlockable {
    ElementLight,
    ElementDark,
    ElementVoid,
    ElementPoison,
    ShapeWall,
    ShapeChain,
    ShapeNova,
    ModifierHoming,
    ModifierPiercing,
    ModifierVampiric,
    ModifierSilent,
}

/// Every unlockable, in declaration order.
pub open spec fn all_unlockables() -> Seq<Unlockable> {
    seq![
        Unlockable::ElementLight,
        Unlockable::ElementDark,
        Unlockable::ElementVoid,
        Unlockable::ElementPoison,
        Unlockable::ShapeWall,
        Unlockable::ShapeChain,
        Unlockable::ShapeNova,
        Unlockable::ModifierHoming,
        Unlockable::ModifierPiercing,
        Unlockable::ModifierVampiric,
        Unlockable::ModifierSilent,
    ]
}

/// The display name of an unlockable.
pub open spec fn unlockable_name(u: Unlockable) -> Seq<char> {
    match u {
        Unlockable::ElementLight => "Light Element"@,
        Unlockable::ElementDark => "Dark Element"@,
        Unlockable::ElementVoid => "Void Element"@,
        Unlockable::ElementPoison => "Poison Element"@,
        Unlockable::ShapeWall => "Wall Shape"@,
        Unlockable::ShapeChain => "Chain Shape"@,
        Unlockable::ShapeNova => "Nova Shape"@,
        Unlockable::ModifierHoming => "Homing Modifier"@,
        Unlockable::ModifierPiercing => "Piercing Modifier"@,
        Unlockable::ModifierVampiric => "Vampiric Modifier"@,
        Unlockable::ModifierSilent => "Silent Modifier"@,
    }
}

/// The achievement that unlocks a piece of content.
pub open spec fn required_for(u: Unlockable) -> Achievement {
    match u {
        Unlockable::ElementLight => Achievement::FirstVictory,
        Unlockable::ElementDark => Achievement::BossHunter,
        Unlockable::ElementVoid => Achievement::DeepDiver,
        Unlockable::ElementPoison => Achievement::Slayer,
        Unlockable::ShapeWall => Achievement::Explorer,
        Unlockable::ShapeChain => Achievement::ElementalMaster,
        Unlockable::ShapeNova => Achievement::Archmage,
        Unlockable::ModifierHoming => Achievement::Apprentice,
        Unlockable::ModifierPiercing => Achievement::Untouchable,
        Unlockable::ModifierVampiric => Achievement::Survivor,
        Unlockable::ModifierSilent => Achievement::Pacifist,
    }
}

/// The unlock hint of an unlockable.
pub open spec fn unlockable_hint(u: Unlockable) -> Seq<char> {
    match u {
        Unlockable::ElementLight => "Win your first game"@,
        Unlockable::ElementDark => "Defeat a boss"@,
        Unlockable::ElementVoid => "Reach floor 3"@,
        Unlockable::ElementPoison => "Kill 50 enemies total"@,
        Unlockable::ShapeWall => "Reach floor 2"@,
        Unlockable::ShapeChain => "Use all 6 base elements in one run"@,
        Unlockable::ShapeNova => "Have 5 spells at once"@,
        Unlockable::ModifierHoming => "Craft your first spell"@,
        Unlockable::ModifierPiercing => "Complete a floor without damage"@,
        Unlockable::ModifierVampiric => "Win with less than 10 HP"@,
        Unlockable::ModifierSilent => "Complete a floor without killing"@,
    }
}

impl Unlockable {
    /// Get all unlockables.
    pub fn all() -> (v: Vec<Unlockable>)
        ensures
            v@ == all_unlockables(),
    {
        vec![
            Unlockable::ElementLight,
            Unlockable::ElementDark,
            Unlockable::ElementVoid,
            Unlockable::ElementPoison,
            Unlockable::ShapeWall,
            Unlockable::ShapeChain,
            Unlockable::ShapeNova,
            Unlockable::ModifierHoming,
            Unlockable::ModifierPiercing,
            Unlockable::ModifierVampiric,
            Unlockable::ModifierSilent,
        ]
    }

    /// Get the display name for this unlockable.
    pub fn name(&self) -> (n: &'static str)
        ensures
            n@ == unlockable_name(*self),
    {
        match self {
            Unlockable::ElementLight => "Light Element",
            Unlockable::ElementDark => "Dark Element",
            Unlockable::ElementVoid => "Void Element",
            Unlockable::ElementPoison => "Poison Element",
            Unlockable::ShapeWall => "Wall Shape",
            Unlockable::ShapeChain => "Chain Shape",
            Unlockable::ShapeNova => "Nova Shape",
            Unlockable::ModifierHoming => "Homing Modifier",
            Unlockable::ModifierPiercing => "Piercing Modifier",
            Unlockable::ModifierVampiric => "Vampiric Modifier",
            Unlockable::ModifierSilent => "Silent Modifier",
        }
    }

    /// Get the achievement required to unlock this content.
    pub fn required_achievement(&self) -> (a: Achievement)
        ensures
            a == required_for(*self),
    {
        match self {
            Unlockable::ElementLight => Achievement::FirstVictory,
            Unlockable::ElementDark => Achievement::BossHunter,
            Unlockable::ElementVoid => Achievement::DeepDiver,
            Unlockable::ElementPoison => Achievement::Slayer,
            Unlockable::ShapeWall => Achievement::Explorer,
            Unlockable::ShapeChain => Achievement::ElementalMaster,
            Unlockable::ShapeNova => Achievement::Archmage,
            Unlockable::ModifierHoming => Achievement::Apprentice,
            Unlockable::ModifierPiercing => Achievement::Untouchable,
            Unlockable::ModifierVampiric => Achievement::Survivor,
            Unlockable::ModifierSilent => Achievement::Pacifist,
        }
    }

    /// Get unlock hint text.
    pub fn hint(&self) -> (h: &'static str)
        ensures
            h@ == unlockable_hint(*self),
    {
        match self {
            Unlockable::ElementLight => "Win your first game",
            Unlockable::ElementDark => "Defeat a boss",
            Unlockable::ElementVoid => "Reach floor 3",
            Unlockable::ElementPoison => "Kill 50 enemies total",
            Unlockable::ShapeWall => "Reach floor 2",
            Unlockable::ShapeChain => "Use all 6 base elements in one run",
            Unlockable::ShapeNova => "Have 5 spells at once",
            Unlockable::ModifierHoming => "Craft your first spell",
            Unlockable::ModifierPiercing => "Complete a floor without damage",
            Unlockable::ModifierVampiric => "Win with less than 10 HP",
            Unlockable::ModifierSilent => "Complete a floor without killing",
        }
    }
}

/// Every unlockable occurs exactly once in the list of all of them, and the
/// required achievements are pairwise distinct.
pub proof fn lemma_all_unlockables(u: Unlockable)
    ensures
        all_unlockables().contains(u),
        all_unlockables().len() == 11,
        all_unlockables().no_duplicates(),
        forall|v: Unlockable| required_for(v) == required_for(u) ==> v == u,
{
    let s = all_unlockables();
    match u {
        Unlockable::ElementLight => assert(s[0] == u),
        Unlockable::ElementDark => assert(s[1] == u),
        Unlockable::ElementVoid => assert(s[2] == u),
        Unlockable::ElementPoison => assert(s[3] == u),
        Unlockable::ShapeWall => assert(s[4] == u),
        Unlockable::ShapeChain => assert(s[5] == u),
        Unlockable::ShapeNova => assert(s[6] == u),
        Unlockable::ModifierHoming => assert(s[7] == u),
        Unlockable::ModifierPiercing => assert(s[8] == u),
        Unlockable::ModifierVampiric => assert(s[9] == u),
        Unlockable::ModifierSilent => assert(s[10] == u),
    }
}

/// Persistent unlock storage.
#[derive(Debug)]
pub struct UnlockStore {
    /// Manually unlocked content (for unlocks that do not come from achievements).
    pub unlocked: Vec<Unlockable>,
}

/// Content counts as unlocked when it was unlocked by hand or its achievement is.
pub open spec fn is_open(manual: Seq<Unlockable>, achieved: Seq<Achievement>, u: Unlockable) -> bool {
    manual.contains(u) || achieved.contains(required_for(u))
}

/// The unlocked content, in the order of `all_unlockables`.
pub open spec fn unlocked_of(manual: Seq<Unlockable>, achieved: Seq<Achievement>) -> Seq<Unlockable> {
    all_unlockables().filter(|u: Unlockable| is_open(manual, achieved, u))
}

/// The content still locked, in the order of `all_unlockables`.
pub open spec fn locked_of(manual: Seq<Unlockable>, achieved: Seq<Achievement>) -> Seq<Unlockable> {
    all_unlockables().filter(|u: Unlockable| !is_open(manual, achieved, u))
}

impl UnlockStore {
    /// An empty store.
    pub fn new() -> (s: Self)
        ensures
            s.unlocked@.len() == 0,
    {
        UnlockStore { unlocked: Vec::new() }
    }

    /// Check if content is unlocked (checks the achievement store too).
    pub fn is_unlocked(&self, unlockable: Unlockable, achievements: &AchievementStore) -> (b: bool)
        ensures
            b == is_open(self.unlocked@, achievements.unlocked@, unlockable),
    {
        let mut i: usize = 0;
        while i < self.unlocked.len()
            invariant
                i <= self.unlocked@.len(),
                forall|j: int| 0 <= j < i ==> self.unlocked@[j] != unlockable,
            decreases self.unlocked@.len() - i,
        {
            if self.unlocked[i] == unlockable {
                return true;
            }
            i = i + 1;
        }
        achievements.is_unlocked(unlockable.required_achievement())
    }

    /// Get all unlocked content, in the order of `Unlockable::all`.
    pub fn get_unlocked(&self, achievements: &AchievementStore) -> (v: Vec<Unlockable>)
        ensures
            v@ == unlocked_of(self.unlocked@, achievements.unlocked@),
    {
        let all = Unlockable::all();
        let ghost p = |u: Unlockable| is_open(self.unlocked@, achievements.unlocked@, u);
        let mut out: Vec<Unlockable> = Vec::new();
        let mut i: usize = 0;
        while i < all.len()
            invariant
                i <= all@.len(),
                all@ == all_unlockables(),
                p == (|u: Unlockable| is_open(self.unlocked@, achievements.unlocked@, u)),
                out@ == all@.subrange(0, i as int).filter(p),
            decreases all@.len() - i,
        {
            let ghost prefix = all@.subrange(0, i + 1);
            assert(prefix.drop_last() =~= all@.subrange(0, i as int));
            reveal_with_fuel(Seq::<_>::filter, 1);
            let u = all[i];
            if self.is_unlocked(u, achievements) {
                out.push(u);
            }
            i = i + 1;
        }
        assert(all@.subrange(0, i as int) =~= all@);
        out
    }

    /// Get all locked content, in the order of `Unlockable::all`.
    pub fn get_locked(&self, achievements: &AchievementStore) -> (v: Vec<Unlockable>)
        ensures
            v@ == locked_of(self.unlocked@, achievements.unlocked@),
    {
        let all = Unlockable::all();
        let ghost p = |u: Unlockable| !is_open(self.unlocked@, achievements.unlocked@, u);
        let mut out: Vec<Unlockable> = Vec::new();
        let mut i: usize = 0;
        while i < all.len()
            invariant
                i <= all@.len(),
                all@ == all_unlockables(),
                p == (|u: Unlockable| !is_open(self.unlocked@, achievements.unlocked@, u)),
                out@ == all@.subrange(0, i as int).filter(p),
            decreases all@.len() - i,
        {
            let ghost prefix = all@.subrange(0, i + 1);
            assert(prefix.drop_last() =~= all@.subrange(0, i as int));
            reveal_with_fuel(Seq::<_>::filter, 1);
            let u = all[i];
            if !self.is_unlocked(u, achievements) {
                out.push(u);
            }
            i = i + 1;
        }
        assert(all@.subrange(0, i as int) =~= all@);
        out
    }

    /// Check if an element is unlocked: the four base elements always are.
    pub fn is_element_unlocked(&self, element: Element, achievements: &AchievementStore) -> (b: bool)
        ensures
            b == match element {
                Element::Fire | Element::Ice | Element::Lightning | Element::Earth => true,
                Element::Light => is_open(self.unlocked@, achievements.unlocked@, Unlockable::ElementLight),
                Element::Dark => is_open(self.unlocked@, achievements.unlocked@, Unlockable::ElementDark),
                Element::Void => is_open(self.unlocked@, achievements.unlocked@, Unlockable::ElementVoid),
                Element::Poison => is_open(self.unlocked@, achievements.unlocked@, Unlockable::ElementPoison),
            },
    {
        match element {
            Element::Fire | Element::Ice | Element::Lightning | Element::Earth => true,
            Element::Light => self.is_unlocked(Unlockable::ElementLight, achievements),
            Element::Dark => self.is_unlocked(Unlockable::ElementDark, achievements),
            Element::Void => self.is_unlocked(Unlockable::ElementVoid, achievements),
            Element::Poison => self.is_unlocked(Unlockable::ElementPoison, achievements),
        }
    }

    /// Check if a shape is unlocked: the five base shapes always are.
    pub fn is_shape_unlocked(&self, shape: Shape, achievements: &AchievementStore) -> (b: bool)
        ensures
            b == match shape {
                Shape::Point | Shape::Line | Shape::Cone | Shape::Ring | Shape::Burst => true,
                Shape::Wall => is_open(self.unlocked@, achievements.unlocked@, Unlockable::ShapeWall),
                Shape::Chain => is_open(self.unlocked@, achievements.unlocked@, Unlockable::ShapeChain),
                Shape::Nova => is_open(self.unlocked@, achievements.unlocked@, Unlockable::ShapeNova),
            },
    {
        match shape {
            Shape::Point | Shape::Line | Shape::Cone | Shape::Ring | Shape::Burst => true,
            Shape::Wall => self.is_unlocked(Unlockable::ShapeWall, achievements),
            Shape::Chain => self.is_unlocked(Unlockable::ShapeChain, achievements),
            Shape::Nova => self.is_unlocked(Unlockable::ShapeNova, achievements),
        }
    }

    /// Check if a modifier is unlocked: the five base modifiers always are.
    pub fn is_modifier_unlocked(&self, modifier: Modifier, achievements: &AchievementStore) -> (b: bool)
        ensures
            b == match modifier {
                Modifier::Power | Modifier::Range | Modifier::Duration | Modifier::Split
                | Modifier::Echo => true,
                Modifier::Homing => is_open(self.unlocked@, achievements.unlocked@, Unlockable::ModifierHoming),
                Modifier::Piercing => is_open(self.unlocked@, achievements.unlocked@, Unlockable::ModifierPiercing),
                Modifier::Vampiric => is_open(self.unlocked@, achievements.unlocked@, Unlockable::ModifierVampiric),
                Modifier::Silent => is_open(self.unlocked@, achievements.unlocked@, Unlockable::ModifierSilent),
            },
    {
        match modifier {
            Modifier::Power | Modifier::Range | Modifier::Duration | Modifier::Split
            | Modifier::Echo => true,
            Modifier::Homing => self.is_unlocked(Unlockable::ModifierHoming, achievements),
            Modifier::Piercing => self.is_unlocked(Unlockable::ModifierPiercing, achievements),
            Modifier::Vampiric => self.is_unlocked(Unlockable::ModifierVampiric, achievements),
            Modifier::Silent => self.is_unlocked(Unlockable::ModifierSilent, achievements),
        }
    }
}

impl Default for UnlockStore {
    fn default() -> (s: Self)
        ensures
            s.unlocked@.len() == 0,
    {
        UnlockStore::new()
    }
}

/// The locked and the unlocked content split the list of all content: no
/// content is both, every content is one of them, each is listed in the order
/// of `all_unlockables` without repeats, and the two lists together are as
/// long as the whole. With nothing unlocked by hand and no achievement, all
/// eleven are locked.
pub proof fn lemma_locked_unlocked_split(manual: Seq<Unlockable>, achieved: Seq<Achievement>)
    ensures
        unlocked_of(manual, achieved).to_set().disjoint(locked_of(manual, achieved).to_set()),
        unlocked_of(manual, achieved).to_set() + locked_of(manual, achieved).to_set() == all_unlockables().to_set(),
        unlocked_of(manual, achieved).no_duplicates(),
        locked_of(manual, achieved).no_duplicates(),
        unlocked_of(manual, achieved).len() + locked_of(manual, achieved).len() == 11,
        forall|u: Unlockable|
            #[trigger] locked_of(manual, achieved).contains(u) <==> !is_open(manual, achieved, u),
        manual.len() == 0 && achieved.len() == 0 ==> locked_of(manual, achieved) == all_unlockables(),
{
    let p = |u: Unlockable| is_open(manual, achieved, u);
    let q = |u: Unlockable| !is_open(manual, achieved, u);
    let all = all_unlockables();
    lemma_all_unlockables(Unlockable::ElementLight);
    lemma_filter_split(all, p, q);
    let a = unlocked_of(manual, achieved);
    let b = locked_of(manual, achieved);
    assert(a == all.filter(p));
    assert(b == all.filter(q));
    assert forall|u: Unlockable| #[trigger] b.contains(u) <==> !is_open(manual, achieved, u) by {
        lemma_all_unlockables(u);
    }
    assert(a.to_set().disjoint(b.to_set()));
    assert(a.to_set() + b.to_set() =~= all.to_set());
    if manual.len() == 0 && achieved.len() == 0 {
        assert forall|u: Unlockable| #[trigger] q(u) by {}
        lemma_filter_everything(all, q);
    }
}

/// Filtering by a predicate and by its negation keeps exactly the items that
/// meet each, without repeats where the list had none, and parts the list's
/// length between them.
proof fn lemma_filter_split(s: Seq<Unlockable>, p: spec_fn(Unlockable) -> bool, q: spec_fn(Unlockable) -> bool)
    requires
        forall|u: Unlockable| #[trigger] q(u) == !p(u),
    ensures
        s.filter(p).len() + s.filter(q).len() == s.len(),
        forall|u: Unlockable| #[trigger] s.filter(p).contains(u) == (s.contains(u) && p(u)),
        forall|u: Unlockable| #[trigger] s.filter(q).contains(u) == (s.contains(u) && q(u)),
        s.no_duplicates() ==> s.filter(p).no_duplicates() && s.filter(q).no_duplicates(),
    decreases s.len(),
{
    reveal_with_fuel(Seq::<_>::filter, 1);
    if s.len() > 0 {
        let r = s.drop_last();
        let x = s.last();
        lemma_filter_split(r, p, q);
        assert(s =~= r.push(x));
        broadcast use vstd::seq_lib::lemma_seq_contains_after_push;

        if s.no_duplicates() {
            assert(r.no_duplicates());
            assert(!r.contains(x)) by {
                if r.contains(x) {
                    let k = choose|k: int| 0 <= k < r.len() && r[k] == x;
                    assert(s[k] == s[s.len() - 1]);
                }
            }
            lemma_push_unique(r.filter(p), x);
            lemma_push_unique(r.filter(q), x);
        }
    }
}

/// Pushing an item that a list without repeats lacks keeps it without repeats.
proof fn lemma_push_unique(s: Seq<Unlockable>, x: Unlockable)
    requires
        s.no_duplicates(),
        !s.contains(x),
    ensures
        s.push(x).no_duplicates(),
{
    let t = s.push(x);
    assert forall|i: int, j: int| 0 <= i < t.len() && 0 <= j < t.len() && i != j implies t[i] != t[j] by {
        if i < s.len() && j < s.len() {
            assert(t[i] == s[i] && t[j] == s[j]);
        } else if i < s.len() {
            assert(t[i] == s[i]);
        } else if j < s.len() {
            assert(t[j] == s[j]);
        }
    }
}

/// Filtering by a predicate that every item meets keeps the whole list.
proof fn lemma_filter_everything(s: Seq<Unlockable>, p: spec_fn(Unlockable) -> bool)
    requires
        forall|u: Unlockable| #[trigger] p(u),
    ensures
        s.filter(p) == s,
    decreases s.len(),
{
    reveal_with_fuel(Seq::<_>::filter, 1);
    if s.len() > 0 {
        lemma_filter_everything(s.drop_last(), p);
        assert(s.drop_last().push(s.last()) =~= s);
    }
}

/// Check for newly unlocked content after an achievement unlock: the content
/// that the achievements unlock and that is not among `previous_unlocks`.
pub fn check_new_unlocks(achievements: &AchievementStore, previous_unlocks: &Vec<Unlockable>) -> (v: Vec<
    Unlockable,
>)
    ensures
        v@ == all_unlockables().filter(
            |u: Unlockable| achievements.unlocked@.contains(required_for(u)) && !previous_unlocks@.contains(u),
        ),
{
    let unlock_store = UnlockStore::new();
    let current = unlock_store.get_unlocked(achievements);
    let ghost cur_pred = |u: Unlockable| is_open(unlock_store.unlocked@, achievements.unlocked@, u);
    let ghost p = |u: Unlockable|
        achievements.unlocked@.contains(required_for(u)) && !previous_unlocks@.contains(u);
    let mut out: Vec<Unlockable> = Vec::new();
    let mut i: usize = 0;
    proof {
        assert(unlock_store.unlocked@ =~= Seq::<Unlockable>::empty());
        assert(cur_pred =~= (|u: Unlockable| achievements.unlocked@.contains(required_for(u))));
    }
    while i < current.len()
        invariant
            i <= current@.len(),
            current@ == all_unlockables().filter(cur_pred),
            cur_pred == (|u: Unlockable| achievements.unlocked@.contains(required_for(u))),
            p == (|u: Unlockable|
                achievements.unlocked@.contains(required_for(u)) && !previous_unlocks@.contains(u)),
            out@ == current@.subrange(0, i as int).filter(|u: Unlockable| !previous_unlocks@.contains(u)),
        decreases current@.len() - i,
    {
        let ghost prefix = current@.subrange(0, i + 1);
        assert(prefix.drop_last() =~= current@.subrange(0, i as int));
        reveal_with_fuel(Seq::<_>::filter, 1);
        let u = current[i];
        if !contains_unlockable(previous_unlocks, u) {
            out.push(u);
        }
        i = i + 1;
    }
    proof {
        assert(current@.subrange(0, i as int) =~= current@);
        lemma_filter_filter(all_unlockables(), cur_pred, |u: Unlockable| !previous_unlocks@.contains(u), p);
    }
    out
}

/// Whether a list holds an unlockable.
fn contains_unlockable(v: &Vec<Unlockable>, u: Unlockable) -> (b: bool)
    ensures
        b == v@.contains(u),
{
    let mut i: usize = 0;
    while i < v.len()
        invariant
            i <= v@.len(),
            forall|j: int| 0 <= j < i ==> v@[j] != u,
        decreases v@.len() - i,
    {
        if v[i] == u {
            return true;
        }
        i = i + 1;
    }
    false
}

/// Filtering twice is filtering by both predicates.
proof fn lemma_filter_filter(
    s: Seq<Unlockable>,
    a: spec_fn(Unlockable) -> bool,
    b: spec_fn(Unlockable) -> bool,
    ab: spec_fn(Unlockable) -> bool,
)
    requires
        forall|u: Unlockable| #[trigger] ab(u) == (a(u) && b(u)),
    ensures
        s.filter(a).filter(b) == s.filter(ab),
    decreases s.len(),
{
    reveal_with_fuel(Seq::<_>::filter, 1);
    if s.len() > 0 {
        lemma_filter_filter(s.drop_last(), a, b, ab);
        assert(s.filter(a) == if a(s.last()) {
            s.drop_last().filter(a).push(s.last())
        } else {
            s.drop_last().filter(a)
        });
        if a(s.last()) {
            assert(s.filter(a).drop_last() =~= s.drop_last().filter(a));
        }
    }
}

} // verus!
