//! Rune types for spell crafting.

use vstd::prelude::*;

verus! {

/// Elemental damage types.
#[derive(Clone, Copy, PartialEq, Eq, Structural, Debug, Hash)]
pub enum Element {
    Fire,
    Ice,
    Lightning,
    Earth,
    Void,
    Light,
    Dark,
    Poison,
}

/// The display name of an element.
pub open spec fn element_name(e: Element) -> Seq<char> {
    match e {
        Element::Fire => "Fire"@,
        Element::Ice => "Ice"@,
        Element::Lightning => "Lightning"@,
        Element::Earth => "Earth"@,
        Element::Void => "Void"@,
        Element::Light => "Light"@,
        Element::Dark => "Dark"@,
        Element::Poison => "Poison"@,
    }
}

/// The glyph of an element.
pub open spec fn element_glyph(e: Element) -> char {
    match e {
        Element::Fire => '🔥',
        Element::Ice => '❄',
        Element::Lightning => '⚡',
        Element::Earth => '🗿',
        Element::Void => '◯',
        Element::Light => '☀',
        Element::Dark => '🌑',
        Element::Poison => '☠',
    }
}

/// The element that opposes another, for resistance and weakness.
pub open spec fn element_opposed(e: Element) -> Option<Element> {
    match e {
        Element::Fire => Some(Element::Ice),
        Element::Ice => Some(Element::Fire),
        Element::Lightning => Some(Element::Earth),
        Element::Earth => Some(Element::Lightning),
        Element::Light => Some(Element::Dark),
        Element::Dark => Some(Element::Light),
        _ => None,
    }
}

impl Element {
    pub fn glyph(&self) -> (c: char)
        ensures
            c == element_glyph(*self),
    {
        match self {
            Element::Fire => '🔥',
            Element::Ice => '❄',
            Element::Lightning => '⚡',
            Element::Earth => '🗿',
            Element::Void => '◯',
            Element::Light => '☀',
            Element::Dark => '🌑',
            Element::Poison => '☠',
        }
    }

    pub fn name(&self) -> (s: &'static str)
        ensures
            s@ == element_name(*self),
    {
        match self {
            Element::Fire => "Fire",
            Element::Ice => "Ice",
            Element::Lightning => "Lightning",
            Element::Earth => "Earth",
            Element::Void => "Void",
            Element::Light => "Light",
            Element::Dark => "Dark",
            Element::Poison => "Poison",
        }
    }

    /// Get the elemental opposition (for resistance/weakness).
    pub fn opposed(&self) -> (o: Option<Element>)
        ensures
            o == element_opposed(*self),
    {
        match self {
            Element::Fire => Some(Element::Ice),
            Element::Ice => Some(Element::Fire),
            Element::Lightning => Some(Element::Earth),
            Element::Earth => Some(Element::Lightning),
            Element::Light => Some(Element::Dark),
            Element::Dark => Some(Element::Light),
            _ => None,
        }
    }
}

/// Opposition is symmetric: an element opposes whatever opposes it.
pub proof fn lemma_opposed_symmetric(e: Element)
    ensures
        element_opposed(e) matches Some(o) ==> element_opposed(o) == Some(e),
{
}

/// Spell shapes (area of effect).
#[derive(Clone, Copy, PartialEq, Eq, Structural, Debug, Hash)]
pub enum Shape {
    Point,
    Line,
    Cone,
    Ring,
    Burst,
    Wall,
    Chain,
    Nova,
}

/// The display name of a shape.
pub open spec fn shape_name(s: Shape) -> Seq<char> {
    match s {
        Shape::Point => "Point"@,
        Shape::Line => "Line"@,
        Shape::Cone => "Cone"@,
        Shape::Ring => "Ring"@,
        Shape::Burst => "Burst"@,
        Shape::Wall => "Wall"@,
        Shape::Chain => "Chain"@,
        Shape::Nova => "Nova"@,
    }
}

/// The base range of a shape.
pub open spec fn shape_base_range(s: Shape) -> i32 {
    match s {
        Shape::Point => 5,
        Shape::Line => 4,
        Shape::Cone => 3,
        Shape::Ring => 4,
        Shape::Burst => 3,
        Shape::Wall => 4,
        Shape::Chain => 6,
        Shape::Nova => 0,
    }
}

impl Shape {
    pub fn name(&self) -> (n: &'static str)
        ensures
            n@ == shape_name(*self),
    {
        match self {
            Shape::Point => "Point",
            Shape::Line => "Line",
            Shape::Cone => "Cone",
            Shape::Ring => "Ring",
            Shape::Burst => "Burst",
            Shape::Wall => "Wall",
            Shape::Chain => "Chain",
            Shape::Nova => "Nova",
        }
    }

    /// Get the base range for this shape.
    pub fn base_range(&self) -> (r: i32)
        ensures
            r == shape_base_range(*self),
    {
        match self {
            Shape::Point => 5,
            Shape::Line => 4,
            Shape::Cone => 3,
            Shape::Ring => 4,
            Shape::Burst => 3,
            Shape::Wall => 4,
            Shape::Chain => 6,
            Shape::Nova => 0,
        }
    }
}

/// Spell modifiers.
#[derive(Clone, Copy, PartialEq, Eq, Structural, Debug, Hash)]
pub enum Modifier {
    Power,
    Range,
    Duration,
    Split,
    Echo,
    Homing,
    Piercing,
    Vampiric,
    Silent,
}

/// The display name of a modifier.
pub open spec fn modifier_name(m: Modifier) -> Seq<char> {
    match m {
        Modifier::Power => "Power"@,
        Modifier::Range => "Range"@,
        Modifier::Duration => "Duration"@,
        Modifier::Split => "Split"@,
        Modifier::Echo => "Echo"@,
        Modifier::Homing => "Homing"@,
        Modifier::Piercing => "Piercing"@,
        Modifier::Vampiric => "Vampiric"@,
        Modifier::Silent => "Silent"@,
    }
}

impl Modifier {
    pub fn name(&self) -> (n: &'static str)
        ensures
            n@ == modifier_name(*self),
    {
        match self {
            Modifier::Power => "Power",
            Modifier::Range => "Range",
            Modifier::Duration => "Duration",
            Modifier::Split => "Split",
            Modifier::Echo => "Echo",
            Modifier::Homing => "Homing",
            Modifier::Piercing => "Piercing",
            Modifier::Vampiric => "Vampiric",
            Modifier::Silent => "Silent",
        }
    }
}

/// What a rune is.
#[derive(Clone, Copy, PartialEq, Eq, Structural, Debug)]
pub enum RuneKind {
    Element(Element),
    Shape(Shape),
    Modifier(Modifier),
}

/// A rune that can be combined into spells.
#[derive(Clone, Copy, PartialEq, Eq, Structural, Debug)]
pub struct Rune {
    pub kind: RuneKind,
}

/// The display name of a rune: that of its element, shape or modifier.
pub open spec fn rune_name(r: Rune) -> Seq<char> {
    match r.kind {
        RuneKind::Element(e) => element_name(e),
        RuneKind::Shape(s) => shape_name(s),
        RuneKind::Modifier(m) => modifier_name(m),
    }
}

impl Rune {
    pub fn element(e: Element) -> (r: Rune)
        ensures
            r.kind == RuneKind::Element(e),
    {
        Rune { kind: RuneKind::Element(e) }
    }

    pub fn shape(s: Shape) -> (r: Rune)
        ensures
            r.kind == RuneKind::Shape(s),
    {
        Rune { kind: RuneKind::Shape(s) }
    }

    pub fn modifier(m: Modifier) -> (r: Rune)
        ensures
            r.kind == RuneKind::Modifier(m),
    {
        Rune { kind: RuneKind::Modifier(m) }
    }

    pub fn name(&self) -> (n: &'static str)
        ensures
            n@ == rune_name(*self),
    {
        match &self.kind {
            RuneKind::Element(e) => e.name(),
            RuneKind::Shape(s) => s.name(),
            RuneKind::Modifier(m) => m.name(),
        }
    }
}

} // verus!
