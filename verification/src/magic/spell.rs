//! Spell crafting and targeting.

use vstd::prelude::*;

use super::rune::{
    element_name, shape_base_range, shape_name, Element, Modifier, Rune, RuneKind, Shape,
};
use crate::hex::algorithms::{
    cone as hex_cone, cone_layer, cone_seq, lemma_div_mod_exact, lists_disk, range, ring, ring_seq, shifted, steps,
};
use crate::hex::coord::{abs, direction, line_seq, spec_direction, Hex, COORD_LIMIT};

verus! {

/// A crafted spell ready to cast.
#[derive(Clone, Debug)]
pub struct Spell {
    pub elements: Vec<Element>,
    pub shape: Shape,
    pub modifiers: Vec<Modifier>,
    pub ap_cost: i32,
    pub base_range: i32,
    pub base_damage: i32,
}

/// How many times a modifier occurs in a list.
pub open spec fn count_modifier(s: Seq<Modifier>, m: Modifier) -> nat
    decreases s.len(),
{
    if s.len() == 0 {
        0
    } else {
        count_modifier(s.drop_last(), m) + if s.last() == m {
            1nat
        } else {
            0nat
        }
    }
}

/// A modifier occurs at most as often as the list is long.
pub proof fn lemma_count_modifier_le(s: Seq<Modifier>, m: Modifier)
    ensures
        count_modifier(s, m) <= s.len(),
    decreases s.len(),
{
    if s.len() > 0 {
        lemma_count_modifier_le(s.drop_last(), m);
    }
}

/// Appending a modifier counts it once more, and counts no other modifier
/// again.
pub proof fn lemma_count_modifier_push(s: Seq<Modifier>, added: Modifier, m: Modifier)
    ensures
        count_modifier(s.push(added), m) == count_modifier(s, m) + if added == m {
            1int
        } else {
            0int
        },
{
    assert(s.push(added).drop_last() =~= s);
}

/// Element names joined by "/".
pub open spec fn joined_element_names(s: Seq<Element>) -> Seq<char>
    decreases s.len(),
{
    if s.len() == 0 {
        Seq::empty()
    } else if s.len() == 1 {
        element_name(s[0])
    } else {
        joined_element_names(s.drop_last()) + "/"@ + element_name(s.last())
    }
}

/// The elements among some runes, in order.
pub open spec fn elements_of(runes: Seq<Rune>) -> Seq<Element>
    decreases runes.len(),
{
    if runes.len() == 0 {
        Seq::empty()
    } else {
        match runes.last().kind {
            RuneKind::Element(e) => elements_of(runes.drop_last()).push(e),
            _ => elements_of(runes.drop_last()),
        }
    }
}

/// The modifiers among some runes, in order.
pub open spec fn modifiers_of(runes: Seq<Rune>) -> Seq<Modifier>
    decreases runes.len(),
{
    if runes.len() == 0 {
        Seq::empty()
    } else {
        match runes.last().kind {
            RuneKind::Modifier(m) => modifiers_of(runes.drop_last()).push(m),
            _ => modifiers_of(runes.drop_last()),
        }
    }
}

/// The last shape among some runes, `Point` when there is none.
pub open spec fn shape_of(runes: Seq<Rune>) -> Shape
    decreases runes.len(),
{
    if runes.len() == 0 {
        Shape::Point
    } else {
        match runes.last().kind {
            RuneKind::Shape(s) => s,
            _ => shape_of(runes.drop_last()),
        }
    }
}

/// Action points that casting a shape costs. The wall shape costs as much as
/// a line, and chain and nova as much as a cone: these three shapes were
/// added later than the others and are priced by the shape they resemble.
pub open spec fn shape_cost(s: Shape) -> i32 {
    match s {
        Shape::Point => 1,
        Shape::Line => 2,
        Shape::Cone => 3,
        Shape::Ring => 3,
        Shape::Burst => 4,
        Shape::Wall => 2,
        Shape::Chain => 3,
        Shape::Nova => 3,
    }
}

/// Base range of a crafted spell of a shape. Wall, chain and nova take the
/// shape's own base range (`Shape::base_range`).
pub open spec fn crafted_range(s: Shape) -> i32 {
    match s {
        Shape::Point => 5,
        Shape::Line => 6,
        Shape::Cone => 4,
        Shape::Ring => 4,
        Shape::Burst => 3,
        _ => shape_base_range(s),
    }
}

impl Spell {
    /// Effective range: the base range plus two per Range modifier.
    pub open spec fn spec_range(&self) -> int {
        self.base_range + 2 * count_modifier(self.modifiers@, Modifier::Range)
    }

    /// Effective damage: the base damage plus five per Power modifier.
    pub open spec fn spec_damage(&self) -> int {
        self.base_damage + 5 * count_modifier(self.modifiers@, Modifier::Power)
    }

    /// Get effective range after modifiers.
    pub fn range(&self) -> (r: i32)
        requires
            self.base_range + 2 * self.modifiers@.len() <= i32::MAX,
        ensures
            r == self.spec_range(),
    {
        let mut r = self.base_range;
        let mut i: usize = 0;
        while i < self.modifiers.len()
            invariant
                i <= self.modifiers@.len(),
                self.base_range + 2 * self.modifiers@.len() <= i32::MAX,
                r == self.base_range + 2 * count_modifier(self.modifiers@.subrange(0, i as int), Modifier::Range),
                count_modifier(self.modifiers@.subrange(0, i as int), Modifier::Range) <= i,
            decreases self.modifiers@.len() - i,
        {
            let ghost prefix = self.modifiers@.subrange(0, i + 1);
            assert(prefix.drop_last() =~= self.modifiers@.subrange(0, i as int));
            if self.modifiers[i] == Modifier::Range {
                r = r + 2;
            }
            i = i + 1;
        }
        assert(self.modifiers@.subrange(0, i as int) =~= self.modifiers@);
        r
    }

    /// Get effective damage after modifiers.
    pub fn damage(&self) -> (d: i32)
        requires
            self.base_damage + 5 * self.modifiers@.len() <= i32::MAX,
        ensures
            d == self.spec_damage(),
    {
        let mut d = self.base_damage;
        let mut i: usize = 0;
        while i < self.modifiers.len()
            invariant
                i <= self.modifiers@.len(),
                self.base_damage + 5 * self.modifiers@.len() <= i32::MAX,
                d == self.base_damage + 5 * count_modifier(self.modifiers@.subrange(0, i as int), Modifier::Power),
                count_modifier(self.modifiers@.subrange(0, i as int), Modifier::Power) <= i,
            decreases self.modifiers@.len() - i,
        {
            let ghost prefix = self.modifiers@.subrange(0, i + 1);
            assert(prefix.drop_last() =~= self.modifiers@.subrange(0, i as int));
            if self.modifiers[i] == Modifier::Power {
                d = d + 5;
            }
            i = i + 1;
        }
        assert(self.modifiers@.subrange(0, i as int) =~= self.modifiers@);
        d
    }

    /// The spell's name: its element names joined by "/", a space, its shape's name.
    pub fn name(&self) -> (n: String)
        ensures
            n@ == joined_element_names(self.elements@) + " "@ + shape_name(self.shape),
    {
        let mut s = String::new();
        let mut i: usize = 0;
        proof {
            assert(s@ =~= joined_element_names(self.elements@.subrange(0, 0)));
        }
        while i < self.elements.len()
            invariant
                i <= self.elements@.len(),
                s@ == joined_element_names(self.elements@.subrange(0, i as int)),
            decreases self.elements@.len() - i,
        {
            let ghost prefix = self.elements@.subrange(0, i + 1);
            assert(prefix.drop_last() =~= self.elements@.subrange(0, i as int));
            if i > 0 {
                s.append("/");
            }
            s.append(self.elements[i].name());
            proof {
                if i == 0 {
                    assert(s@ =~= element_name(prefix[0]));
                } else {
                    assert(s@ =~= joined_element_names(prefix.drop_last()) + "/"@ + element_name(prefix.last()));
                }
            }
            i = i + 1;
        }
        assert(self.elements@.subrange(0, i as int) =~= self.elements@);
        s.append(" ");
        s.append(self.shape.name());
        s
    }
}

/// Craft a spell from runes.
/// Requires at least one element rune; the shape is the last shape rune, Point by default.
pub fn craft_spell(runes: &[Rune]) -> (spell: Option<Spell>)
    requires
        10 * elements_of(runes@).len() <= i32::MAX,
        4 + modifiers_of(runes@).len() <= i32::MAX,
    ensures
        spell is None <==> elements_of(runes@).len() == 0,
        spell matches Some(sp) ==> {
            &&& sp.elements@ == elements_of(runes@)
            &&& sp.shape == shape_of(runes@)
            &&& sp.modifiers@ == modifiers_of(runes@)
            &&& sp.base_damage == 10 * elements_of(runes@).len()
            &&& sp.ap_cost == shape_cost(shape_of(runes@)) + modifiers_of(runes@).len()
            &&& sp.base_range == crafted_range(shape_of(runes@))
        },
{
    let mut elements: Vec<Element> = Vec::new();
    let mut shape = Shape::Point;
    let mut modifiers: Vec<Modifier> = Vec::new();
    let mut i: usize = 0;
    while i < runes.len()
        invariant
            i <= runes@.len(),
            elements@ == elements_of(runes@.subrange(0, i as int)),
            modifiers@ == modifiers_of(runes@.subrange(0, i as int)),
            shape == shape_of(runes@.subrange(0, i as int)),
        decreases runes@.len() - i,
    {
        let ghost prefix = runes@.subrange(0, i + 1);
        assert(prefix.drop_last() =~= runes@.subrange(0, i as int));
        match &runes[i].kind {
            RuneKind::Element(e) => elements.push(*e),
            RuneKind::Shape(s) => shape = *s,
            RuneKind::Modifier(m) => modifiers.push(*m),
        }
        i = i + 1;
    }
    assert(runes@.subrange(0, i as int) =~= runes@);
    if elements.len() == 0 {
        return None;
    }
    let base_damage = elements.len() as i32 * 10;
    let shape_cost: i32 = match shape {
        Shape::Point => 1,
        Shape::Line => 2,
        Shape::Cone => 3,
        Shape::Ring => 3,
        Shape::Burst => 4,
        Shape::Wall => 2,
        Shape::Chain => 3,
        Shape::Nova => 3,
    };
    let modifier_cost = modifiers.len() as i32;
    let ap_cost = shape_cost + modifier_cost;
    let base_range = match shape {
        Shape::Point => 5,
        Shape::Line => 6,
        Shape::Cone => 4,
        Shape::Ring => 4,
        Shape::Burst => 3,
        _ => shape.base_range(),
    };
    Some(Spell { elements, shape, modifiers, ap_cost, base_range, base_damage })
}

/// How far an offset is from one unit step in direction `d`.
pub open spec fn direction_mismatch(diff: Hex, d: int) -> int {
    let u = spec_direction(d);
    abs(diff.x - u.x) + abs(diff.y - u.y) + abs(diff.z - u.z)
}

/// The first of directions `0..n` whose unit step is closest to `diff`.
pub open spec fn closest_direction(diff: Hex, n: int) -> int
    decreases n,
{
    if n <= 1 {
        0
    } else {
        let b = closest_direction(diff, n - 1);
        if direction_mismatch(diff, n - 1) < direction_mismatch(diff, b) {
            n - 1
        } else {
            b
        }
    }
}

/// The direction a spell aimed from `from` at `to` travels in.
pub open spec fn aim_direction(from: Hex, to: Hex) -> int {
    closest_direction(to.minus(from), 6)
}

/// The closest direction is no worse than any other, and strictly better than
/// every earlier one.
pub proof fn lemma_closest_direction(diff: Hex, n: int)
    requires
        1 <= n <= 6,
    ensures
        0 <= closest_direction(diff, n) < n,
        forall|k: int|
            0 <= k < n ==> direction_mismatch(diff, closest_direction(diff, n))
                <= #[trigger] direction_mismatch(diff, k),
        forall|k: int|
            0 <= k < closest_direction(diff, n) ==> direction_mismatch(diff, closest_direction(diff, n))
                < #[trigger] direction_mismatch(diff, k),
    decreases n,
{
    if n > 1 {
        lemma_closest_direction(diff, n - 1);
    }
}

/// Find the direction from one hex towards another.
fn find_direction(from: Hex, to: Hex) -> (d: usize)
    requires
        from.within_limit(),
        to.within_limit(),
    ensures
        d as int == aim_direction(from, to),
        d < 6,
{
    let diff = to - from;
    let mut best_dir: usize = 0;
    let mut best_dist: i32 = i32::MAX;
    let mut i: usize = 0;
    while i < 6
        invariant
            i <= 6,
            diff == to.minus(from),
            -0x2000_0000 <= diff.x <= 0x2000_0000,
            -0x2000_0000 <= diff.y <= 0x2000_0000,
            -0x2000_0000 <= diff.z <= 0x2000_0000,
            i == 0 ==> best_dist == i32::MAX && best_dir == 0,
            i > 0 ==> best_dir as int == closest_direction(diff, i as int) && best_dist
                == direction_mismatch(diff, best_dir as int),
            best_dir < 6,
        decreases 6 - i,
    {
        let u = direction(i);
        let dist = abs_i32(diff.x - u.x) + abs_i32(diff.y - u.y) + abs_i32(diff.z - u.z);
        if dist < best_dist {
            best_dist = dist;
            best_dir = i;
        }
        i = i + 1;
    }
    best_dir
}

fn abs_i32(v: i32) -> (r: i32)
    requires
        v > i32::MIN,
    ensures
        r == abs(v as int),
{
    if v < 0 {
        -v
    } else {
        v
    }
}

/// Modifiers stack: each Power modifier adds five damage and each Range
/// modifier two range, however many came before; any other modifier changes
/// neither. Without modifiers a spell has its base damage and range.
pub proof fn lemma_modifiers_stack(s: Spell, t: Spell, added: Modifier)
    requires
        t.base_damage == s.base_damage,
        t.base_range == s.base_range,
        t.modifiers@ == s.modifiers@.push(added),
    ensures
        t.spec_damage() == s.spec_damage() + if added == Modifier::Power {
            5int
        } else {
            0int
        },
        t.spec_range() == s.spec_range() + if added == Modifier::Range {
            2int
        } else {
            0int
        },
        s.modifiers@.len() == 0 ==> s.spec_damage() == s.base_damage && s.spec_range() == s.base_range,
{
    lemma_count_modifier_push(s.modifiers@, added, Modifier::Power);
    lemma_count_modifier_push(s.modifiers@, added, Modifier::Range);
}

/// A cone of depth `n` holds `n + 2 (n^2 / 4)` hexes (layer `j` holds
/// `1 + 2 (j / 2)`), and its tip, `n` steps along the aim, is among them.
pub proof fn lemma_cone_size(origin: Hex, dir: int, n: int)
    requires
        n >= 0,
    ensures
        cone_seq(origin, dir, n).len() == n + 2 * ((n * n) / 4),
        n >= 1 ==> cone_seq(origin, dir, n).contains(shifted(origin, steps(dir, n))),
    decreases n,
{
    if n == 0 {
        assert((n * n) / 4 == 0);
    } else {
        lemma_cone_size(origin, dir, n - 1);
        let prev = cone_seq(origin, dir, n - 1);
        let layer = cone_layer(origin, dir, n);
        assert(cone_seq(origin, dir, n) == prev + layer);
        let m = n / 2;
        let q = n % 2;
        vstd::arithmetic::div_mod::lemma_fundamental_div_mod(n, 2);
        vstd::arithmetic::div_mod::lemma_mod_bound(n, 2);
        assert(n == 2 * m + q && 0 <= q < 2);
        if q == 0 {
            assert(n * n == 4 * (m * m) && (n - 1) * (n - 1) == 4 * (m * m - m) + 1) by (nonlinear_arith)
                requires
                    n == 2 * m,
            ;
            lemma_div_mod_exact(n * n, 4, m * m, 0);
            lemma_div_mod_exact((n - 1) * (n - 1), 4, m * m - m, 1);
        } else {
            assert(n * n == 4 * (m * m + m) + 1 && (n - 1) * (n - 1) == 4 * (m * m)) by (nonlinear_arith)
                requires
                    n == 2 * m + 1,
            ;
            lemma_div_mod_exact(n * n, 4, m * m + m, 1);
            lemma_div_mod_exact((n - 1) * (n - 1), 4, m * m, 0);
        }
        assert(layer.len() == 1 + 2 * m);
        assert(prev.len() == (n - 1) + 2 * (((n - 1) * (n - 1)) / 4));
        if q == 0 {
            assert((n * n) / 4 == m * m);
            assert(((n - 1) * (n - 1)) / 4 == m * m - m);
        } else {
            assert((n * n) / 4 == m * m + m);
            assert(((n - 1) * (n - 1)) / 4 == m * m);
        }
        assert((prev + layer).len() == n + 2 * ((n * n) / 4));
        assert((prev + layer)[prev.len() as int] == layer[0]);
        assert(layer[0] == shifted(origin, steps(dir, n)));
    }
}

/// A cone spell reaches its effective range: it covers the hex as many steps
/// along the aim as the base range plus two per Range modifier, and as many
/// hexes as a cone of that depth holds.
pub proof fn lemma_cone_spell_reach(spell: Spell, origin: Hex, target: Hex)
    requires
        spell.shape == Shape::Cone,
        spell.base_range + 2 * count_modifier(spell.modifiers@, Modifier::Range) >= 0,
    ensures
        ({
            let reach = spell.base_range + 2 * count_modifier(spell.modifiers@, Modifier::Range);
            let covered = spell_targets(spell, origin, target);
            &&& covered.len() == reach + 2 * ((reach * reach) / 4)
            &&& reach >= 1 ==> covered.contains(shifted(origin, steps(aim_direction(origin, target), reach)))
        }),
{
    let reach = spell.base_range + 2 * count_modifier(spell.modifiers@, Modifier::Range);
    lemma_cone_size(origin, aim_direction(origin, target), reach);
}

/// The hexes a spell aimed from `origin` at `target` covers. A wall is three
/// hexes across the line of aim, centered on the target; a chain strikes the
/// target; a nova is the ring of radius two around the caster.
pub open spec fn spell_targets(spell: Spell, origin: Hex, target: Hex) -> Seq<Hex> {
    let d = aim_direction(origin, target);
    match spell.shape {
        Shape::Point => seq![target],
        Shape::Line => line_seq(origin, target),
        Shape::Cone => cone_seq(origin, d, spell.spec_range()),
        Shape::Ring => ring_seq(target, 2),
        Shape::Wall => seq![
            target.plus(spec_direction((d + 2) % 6)),
            target,
            target.plus(spec_direction((d + 5) % 6)),
        ],
        Shape::Chain => seq![target],
        Shape::Nova => ring_seq(origin, 2),
        Shape::Burst => Seq::empty(),
    }
}

/// Get all hex targets for a spell.
pub fn get_targets(spell: &Spell, origin: Hex, target: Hex) -> (targets: Vec<Hex>)
    requires
        origin.within_limit(),
        target.within_limit(),
        spell.shape == Shape::Cone ==> spell.base_range + 2 * spell.modifiers@.len() <= COORD_LIMIT,
    ensures
        spell.shape == Shape::Burst ==> lists_disk(target, 2, targets@),
        spell.shape != Shape::Burst ==> targets@ == spell_targets(*spell, origin, target),
{
    match spell.shape {
        Shape::Point => vec![target],
        Shape::Line => origin.line_to(target),
        Shape::Cone => {
            let direction = find_direction(origin, target);
            proof {
                lemma_count_modifier_le(spell.modifiers@, Modifier::Range);
            }
            hex_cone(origin, direction, spell.range())
        },
        Shape::Ring => ring(target, 2),
        Shape::Burst => range(target, 2),
        Shape::Wall => {
            let direction = find_direction(origin, target);
            vec![target.neighbor(direction + 2), target, target.neighbor(direction + 5)]
        },
        Shape::Chain => vec![target],
        Shape::Nova => ring(origin, 2),
    }
}

} // verus!
