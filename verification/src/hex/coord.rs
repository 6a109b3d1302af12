//! Hex coordinate system using cube coordinates (x + y + z = 0).

use vstd::prelude::*;
use vstd::arithmetic::div_mod::{lemma_fundamental_div_mod, lemma_mod_bound};

use crate::ui::{signed_decimal, signed_text};

verus! {

/// Bound on the coordinates that the grid algorithms accept: with it every
/// sum, difference and distance of two coordinates stays inside `i32`.
pub const COORD_LIMIT: i32 = 0x1000_0000;

/// A hex coordinate using cube coordinates.
/// A hex is valid when x + y + z = 0.
#[derive(Clone, Copy, PartialEq, Eq, Structural, Hash, Default, Debug)]
pub struct Hex {
    pub x: i32,
    pub y: i32,
    pub z: i32,
}

/// Absolute value on mathematical integers.
pub open spec fn abs(v: int) -> int {
    if v < 0 {
        -v
    } else {
        v
    }
}

/// The six unit directions: East, Northeast, Northwest, West, Southwest, Southeast.
pub open spec fn spec_direction(d: int) -> Hex {
    if d == 0 {
        Hex { x: 1i32, y: -1i32, z: 0i32 }
    } else if d == 1 {
        Hex { x: 1i32, y: 0i32, z: -1i32 }
    } else if d == 2 {
        Hex { x: 0i32, y: 1i32, z: -1i32 }
    } else if d == 3 {
        Hex { x: -1i32, y: 1i32, z: 0i32 }
    } else if d == 4 {
        Hex { x: -1i32, y: 0i32, z: 1i32 }
    } else {
        Hex { x: 0i32, y: -1i32, z: 1i32 }
    }
}

/// Whether an integer lies in the range of `i32`.
pub open spec fn fits_i32(v: int) -> bool {
    i32::MIN <= v <= i32::MAX
}

/// `num / n` rounded to the nearest integer, halves away from zero.
pub open spec fn round_div(num: int, n: int) -> int {
    if num >= 0 {
        (2 * num + n) / (2 * n)
    } else {
        -((-2 * num + n) / (2 * n))
    }
}

/// `n` times the point at `i / n` of the way from `a` to `b`.
pub open spec fn lerp_num(a: int, b: int, n: int, i: int) -> int {
    a * n + (b - a) * i
}

/// Step `i` of `n` of the line from `a` to `b`: each coordinate of the exact
/// interpolation rounded to the nearest integer, then the coordinate with the
/// largest rounding error recomputed from the other two.
pub open spec fn line_point(a: Hex, b: Hex, n: int, i: int) -> Hex {
    let nx = lerp_num(a.x as int, b.x as int, n, i);
    let ny = lerp_num(a.y as int, b.y as int, n, i);
    let nz = lerp_num(a.z as int, b.z as int, n, i);
    let rx = round_div(nx, n);
    let ry = round_div(ny, n);
    let rz = round_div(nz, n);
    let ex = abs(rx * n - nx);
    let ey = abs(ry * n - ny);
    let ez = abs(rz * n - nz);
    if ex > ey && ex > ez {
        Hex { x: (-ry - rz) as i32, y: ry as i32, z: rz as i32 }
    } else if ey > ez {
        Hex { x: rx as i32, y: (-rx - rz) as i32, z: rz as i32 }
    } else {
        Hex { x: rx as i32, y: ry as i32, z: (-rx - ry) as i32 }
    }
}

/// The hexes of the line from `a` to `b`, one per step of their distance.
pub open spec fn line_seq(a: Hex, b: Hex) -> Seq<Hex> {
    let n = a.dist(b);
    if n == 0 {
        seq![a]
    } else {
        Seq::new((n + 1) as nat, |i: int| line_point(a, b, n, i))
    }
}

impl Hex {
    /// The cube-coordinate constraint x + y + z = 0.
    pub open spec fn is_valid(self) -> bool {
        self.x + self.y + self.z == 0
    }

    /// All three coordinates lie within `COORD_LIMIT` of zero.
    pub open spec fn within_limit(self) -> bool {
        &&& -COORD_LIMIT <= self.x <= COORD_LIMIT
        &&& -COORD_LIMIT <= self.y <= COORD_LIMIT
        &&& -COORD_LIMIT <= self.z <= COORD_LIMIT
    }

    /// Coordinate-wise sum fits in `i32`.
    pub open spec fn sum_fits(self, o: Hex) -> bool {
        fits_i32(self.x + o.x) && fits_i32(self.y + o.y) && fits_i32(self.z + o.z)
    }

    /// Coordinate-wise difference fits in `i32`.
    pub open spec fn diff_fits(self, o: Hex) -> bool {
        fits_i32(self.x - o.x) && fits_i32(self.y - o.y) && fits_i32(self.z - o.z)
    }

    /// Coordinate-wise sum.
    pub open spec fn plus(self, o: Hex) -> Hex {
        Hex { x: (self.x + o.x) as i32, y: (self.y + o.y) as i32, z: (self.z + o.z) as i32 }
    }

    /// Coordinate-wise difference.
    pub open spec fn minus(self, o: Hex) -> Hex {
        Hex { x: (self.x - o.x) as i32, y: (self.y - o.y) as i32, z: (self.z - o.z) as i32 }
    }

    /// The hex distance: half the sum of the absolute coordinate differences.
    pub open spec fn dist(self, o: Hex) -> int {
        (abs(self.x - o.x) + abs(self.y - o.y) + abs(self.z - o.z)) / 2
    }

    /// The distance can be computed in `i32`.
    pub open spec fn distance_fits(self, o: Hex) -> bool {
        &&& i32::MIN < self.x - o.x <= i32::MAX
        &&& i32::MIN < self.y - o.y <= i32::MAX
        &&& i32::MIN < self.z - o.z <= i32::MAX
        &&& abs(self.x - o.x) + abs(self.y - o.y) + abs(self.z - o.z) <= i32::MAX
    }

    /// Create a new hex coordinate.
    pub fn new(x: i32, y: i32, z: i32) -> (h: Hex)
        requires
            fits_i32(x + y),
            x + y + z == 0,
        ensures
            h == (Hex { x, y, z }),
            h.is_valid(),
    {
        Hex { x, y, z }
    }

    /// Create a hex from axial coordinates (q, r); z is computed as -q - r.
    pub fn from_axial(q: i32, r: i32) -> (h: Hex)
        requires
            q > i32::MIN,
            fits_i32(-q - r),
        ensures
            h == (Hex { x: q, y: r, z: (-q - r) as i32 }),
            h.is_valid(),
    {
        Hex { x: q, y: r, z: -q - r }
    }

    /// The origin hex (0, 0, 0).
    pub fn origin() -> (h: Hex)
        ensures
            h == (Hex { x: 0, y: 0, z: 0 }),
    {
        Hex { x: 0, y: 0, z: 0 }
    }

    /// Get the neighbor in a given direction (taken modulo 6).
    pub fn neighbor(&self, direction: usize) -> (n: Hex)
        requires
            self.sum_fits(spec_direction((direction % 6) as int)),
        ensures
            n == self.plus(spec_direction((direction % 6) as int)),
            self.is_valid() ==> n.is_valid(),
            self.dist(n) == 1,
    {
        let d = crate::hex::coord::direction(direction % 6);
        Hex { x: self.x + d.x, y: self.y + d.y, z: self.z + d.z }
    }

    /// Get all six neighbors, in direction order.
    pub fn neighbors(&self) -> (ns: [Hex; 6])
        requires
            forall|d: int| 0 <= d < 6 ==> #[trigger] self.sum_fits(spec_direction(d)),
        ensures
            forall|d: int| 0 <= d < 6 ==> #[trigger] ns@[d] == self.plus(spec_direction(d)),
    {
        assert(self.sum_fits(spec_direction(0)));
        assert(self.sum_fits(spec_direction(1)));
        assert(self.sum_fits(spec_direction(2)));
        assert(self.sum_fits(spec_direction(3)));
        assert(self.sum_fits(spec_direction(4)));
        assert(self.sum_fits(spec_direction(5)));
        [
            self.neighbor(0),
            self.neighbor(1),
            self.neighbor(2),
            self.neighbor(3),
            self.neighbor(4),
            self.neighbor(5),
        ]
    }

    /// Hex (Manhattan) distance to another hex.
    pub fn distance(&self, other: Hex) -> (d: i32)
        requires
            self.distance_fits(other),
        ensures
            d == self.dist(other),
    {
        let s = abs_i32(self.x - other.x) + abs_i32(self.y - other.y) + abs_i32(self.z - other.z);
        s / 2
    }

    /// Draw a line from self to other, returning all hexes along the way.
    ///
    /// Each point is the exact rational interpolation rounded in integers
    /// (`line_point`): halves round away from zero, and the coordinate with
    /// the largest rounding error is recomputed from the other two, with z
    /// preferred, then y, when errors tie. Where the exact point lies
    /// halfway between hexes this can differ from a floating-point rounding:
    /// step 15 of the line from (-4, -4, 8) to (7, 7, -14) is (4, 3, -7)
    /// here, where `f64` interpolation gives (3, 4, -7). Between valid hexes
    /// consecutive hexes of the line are neighbours
    /// (`lemma_line_steps_adjacent`).
    pub fn line_to(&self, other: Hex) -> (line: Vec<Hex>)
        requires
            self.within_limit(),
            other.within_limit(),
        ensures
            line@ == line_seq(*self, other),
            line@.len() == self.dist(other) + 1,
            (self.is_valid() && other.is_valid()) ==> line@[0] == *self && line@.last() == other,
    {
        let n = self.distance(other);
        if n == 0 {
            return vec![*self];
        }
        let mut results: Vec<Hex> = Vec::new();
        let mut i: i32 = 0;
        while i <= n
            invariant
                0 < n,
                n == self.dist(other),
                n < 0x4000_0000,
                0 <= i <= n + 1,
                self.within_limit(),
                other.within_limit(),
                results@.len() == i,
                forall|k: int| 0 <= k < i ==> results@[k] == line_point(*self, other, n as int, k),
            decreases n + 1 - i,
        {
            let p = lerp_round(*self, other, n, i);
            results.push(p);
            i = i + 1;
        }
        proof {
            let s = line_seq(*self, other);
            assert(results@ =~= s);
            lemma_line_point_ends(*self, other, n as int);
        }
        results
    }
}

impl core::ops::Add for Hex {
    type Output = Hex;

    /// Coordinate-wise sum.
    fn add(self, other: Hex) -> (r: Hex) {
        Hex { x: self.x + other.x, y: self.y + other.y, z: self.z + other.z }
    }
}

impl vstd::std_specs::ops::AddSpecImpl for Hex {
    open spec fn obeys_add_spec() -> bool {
        true
    }

    open spec fn add_req(self, rhs: Hex) -> bool {
        self.sum_fits(rhs)
    }

    open spec fn add_spec(self, rhs: Hex) -> Hex {
        self.plus(rhs)
    }
}

impl core::ops::Sub for Hex {
    type Output = Hex;

    /// Coordinate-wise difference.
    fn sub(self, other: Hex) -> (r: Hex) {
        Hex { x: self.x - other.x, y: self.y - other.y, z: self.z - other.z }
    }
}

impl vstd::std_specs::ops::SubSpecImpl for Hex {
    open spec fn obeys_sub_spec() -> bool {
        true
    }

    open spec fn sub_req(self, rhs: Hex) -> bool {
        self.diff_fits(rhs)
    }

    open spec fn sub_spec(self, rhs: Hex) -> Hex {
        self.minus(rhs)
    }
}

/// The hex distance is a metric on valid hexes: zero exactly from a hex to
/// itself, symmetric, and never more than a detour through a third hex.
pub proof fn lemma_distance_metric(a: Hex, b: Hex, c: Hex)
    requires
        a.is_valid(),
        b.is_valid(),
        c.is_valid(),
    ensures
        a.dist(a) == 0,
        a.dist(b) == b.dist(a),
        a.dist(b) == 0 <==> a == b,
        a.dist(c) <= a.dist(b) + b.dist(c),
{
    let ab = abs(a.x - b.x) + abs(a.y - b.y) + abs(a.z - b.z);
    let bc = abs(b.x - c.x) + abs(b.y - c.y) + abs(b.z - c.z);
    let ac = abs(a.x - c.x) + abs(a.y - c.y) + abs(a.z - c.z);
    crate::hex::algorithms::lemma_abs_sum3(a.x - b.x, a.y - b.y, a.z - b.z);
    crate::hex::algorithms::lemma_abs_sum3(b.x - c.x, b.y - c.y, b.z - c.z);
    crate::hex::algorithms::lemma_abs_sum3(a.x - c.x, a.y - c.y, a.z - c.z);
    assert(ac <= ab + bc);
    assert(a.dist(b) * 2 == ab);
    assert(b.dist(c) * 2 == bc);
    assert(a.dist(c) * 2 == ac);
}

/// A hex written as `(x, y, z)`.
pub open spec fn hex_text(h: Hex) -> Seq<char> {
    "("@ + signed_decimal(h.x as int) + ", "@ + signed_decimal(h.y as int) + ", "@ + signed_decimal(
        h.z as int,
    ) + ")"@
}

impl Hex {
    /// The hex as text, `(x, y, z)`.
    pub fn to_string(&self) -> (s: String)
        ensures
            s@ == hex_text(*self),
    {
        let mut s = String::from_str("(");
        proof {
            reveal_strlit("(");
            reveal_strlit(", ");
            reveal_strlit(")");
        }
        s.append(signed_text(self.x).as_str());
        s.append(", ");
        s.append(signed_text(self.y).as_str());
        s.append(", ");
        s.append(signed_text(self.z).as_str());
        s.append(")");
        s
    }
}

/// The unit vector of a direction (0..6).
pub fn direction(d: usize) -> (h: Hex)
    requires
        d < 6,
    ensures
        h == spec_direction(d as int),
{
    if d == 0 {
        Hex { x: 1, y: -1, z: 0 }
    } else if d == 1 {
        Hex { x: 1, y: 0, z: -1 }
    } else if d == 2 {
        Hex { x: 0, y: 1, z: -1 }
    } else if d == 3 {
        Hex { x: -1, y: 1, z: 0 }
    } else if d == 4 {
        Hex { x: -1, y: 0, z: 1 }
    } else {
        Hex { x: 0, y: -1, z: 1 }
    }
}

/// One step in any direction moves a hex to distance one.
pub proof fn lemma_step_dist(h: Hex, d: int)
    requires
        0 <= d < 6,
        h.sum_fits(spec_direction(d)),
    ensures
        h.dist(h.plus(spec_direction(d))) == 1,
        h.is_valid() ==> h.plus(spec_direction(d)).is_valid(),
{
}

fn abs_i32(v: i32) -> (r: i32)
    requires
        v > i32::MIN,
    ensures
        r == abs(v as int),
{
    if v < 0 {
        -v
    } else {
        v
    }
}

proof fn lemma_div_bounds(x: int, d: int)
    requires
        d > 0,
    ensures
        d * (x / d) <= x < d * (x / d) + d,
{
    lemma_fundamental_div_mod(x, d);
    lemma_mod_bound(x, d);
}

/// If `lo <= q/d <= hi` in exact arithmetic then `x/d` lies between them.
proof fn lemma_div_in_range(x: int, d: int, lo: int, hi: int)
    requires
        d > 0,
        d * lo <= x,
        x < d * (hi + 1),
    ensures
        lo <= x / d <= hi,
{
    lemma_div_bounds(x, d);
    let q = x / d;
    assert(lo <= q) by (nonlinear_arith)
        requires
            d > 0,
            d * lo <= x,
            x < d * q + d,
    ;
    assert(q <= hi) by (nonlinear_arith)
        requires
            d > 0,
            d * q <= x,
            x < d * (hi + 1),
    ;
}

/// The rounded interpolation stays between the two end values.
proof fn lemma_round_between(a: int, b: int, n: int, i: int)
    requires
        n > 0,
        0 <= i <= n,
    ensures
        ({
            let r = round_div(lerp_num(a, b, n, i), n);
            &&& (a <= b ==> a <= r <= b)
            &&& (b <= a ==> b <= r <= a)
        }),
{
    let num = lerp_num(a, b, n, i);
    let lo = if a <= b { a } else { b };
    let hi = if a <= b { b } else { a };
    assert(lo * n <= num <= hi * n) by (nonlinear_arith)
        requires
            num == a * n + (b - a) * i,
            n > 0,
            0 <= i <= n,
            lo <= a,
            lo <= b,
            a <= hi,
            b <= hi,
            lo == a || lo == b,
            hi == a || hi == b,
    ;
    if num >= 0 {
        let lo2 = if lo > 0 { lo } else { 0 };
        assert(2 * n * lo2 <= 2 * num + n) by (nonlinear_arith)
            requires
                lo * n <= num,
                num >= 0,
                n > 0,
                lo2 == lo || (lo2 == 0 && lo <= 0),
                lo2 >= 0,
        ;
        assert(2 * num + n < 2 * n * (hi + 1)) by (nonlinear_arith)
            requires
                num <= hi * n,
                n > 0,
        ;
        lemma_div_in_range(2 * num + n, 2 * n, lo2, hi);
    } else {
        let hi2 = if hi < 0 { hi } else { 0 };
        assert(2 * n * (-hi2) <= -2 * num + n) by (nonlinear_arith)
            requires
                num <= hi * n,
                num < 0,
                n > 0,
                hi2 == hi || (hi2 == 0 && hi >= 0),
                hi2 <= 0,
        ;
        assert(-2 * num + n < 2 * n * (-lo + 1)) by (nonlinear_arith)
            requires
                lo * n <= num,
                n > 0,
        ;
        lemma_div_in_range(-2 * num + n, 2 * n, -hi2, -lo);
    }
}

/// The first and last steps of a line are its endpoints.
proof fn lemma_line_point_ends(a: Hex, b: Hex, n: int)
    requires
        n > 0,
    ensures
        a.is_valid() ==> line_point(a, b, n, 0) == a,
        b.is_valid() ==> line_point(a, b, n, n) == b,
{
    assert forall|v: int| #[trigger] round_div(v * n, n) == v by {
        if v >= 0 {
            assert(2 * n * v <= 2 * (v * n) + n < 2 * n * (v + 1)) by (nonlinear_arith)
                requires
                    n > 0,
            ;
            lemma_div_in_range(2 * (v * n) + n, 2 * n, v, v);
        } else {
            assert(v * n < 0) by (nonlinear_arith)
                requires
                    n > 0,
                    v < 0,
            ;
            assert(2 * n * (-v) <= -2 * (v * n) + n < 2 * n * (-v + 1)) by (nonlinear_arith)
                requires
                    n > 0,
            ;
            lemma_div_in_range(-2 * (v * n) + n, 2 * n, -v, -v);
        }
    }
    assert forall|a0: int, b0: int| lerp_num(a0, b0, n, 0) == a0 * n by {
        assert((b0 - a0) * 0 == 0) by (nonlinear_arith);
    }
    assert forall|a0: int, b0: int| lerp_num(a0, b0, n, n) == b0 * n by {
        assert(a0 * n + (b0 - a0) * n == b0 * n) by (nonlinear_arith);
    }
    assert forall|v: int| #[trigger] abs(v * n - v * n) == 0 by {}
    let ax = a.x as int;
    let ay = a.y as int;
    let az = a.z as int;
    assert(round_div(ax * n, n) == ax);
    assert(round_div(ay * n, n) == ay);
    assert(round_div(az * n, n) == az);
}

/// A line never strays far from its endpoints: when both are valid and lie
/// within `b` of zero in every coordinate, each hex of the line is valid and
/// lies within `2 * b`.
pub proof fn lemma_line_bounded(a: Hex, b: Hex, bound: int, k: int)
    requires
        0 <= bound <= COORD_LIMIT,
        -bound <= a.x <= bound && -bound <= a.y <= bound && -bound <= a.z <= bound,
        -bound <= b.x <= bound && -bound <= b.y <= bound && -bound <= b.z <= bound,
        a.is_valid(),
        0 <= k < line_seq(a, b).len(),
    ensures
        ({
            let h = line_seq(a, b)[k];
            &&& -2 * bound <= h.x <= 2 * bound && -2 * bound <= h.y <= 2 * bound && -2 * bound <= h.z
                <= 2 * bound
            &&& h.is_valid()
        }),
{
    let n = a.dist(b);
    if n > 0 {
        lemma_round_between(a.x as int, b.x as int, n, k);
        lemma_round_between(a.y as int, b.y as int, n, k);
        lemma_round_between(a.z as int, b.z as int, n, k);
    }
}

/// Rounding `num / n` errs by at most a half: `2 (r n - num)` lies in `[-n, n]`.
proof fn lemma_round_err(num: int, n: int)
    requires
        n > 0,
    ensures
        -n <= 2 * (round_div(num, n) * n - num) <= n,
{
    let r = round_div(num, n);
    if num >= 0 {
        lemma_div_bounds(2 * num + n, 2 * n);
        let q = (2 * num + n) / (2 * n);
        assert(r == q);
        assert(-n <= 2 * (r * n - num) <= n) by (nonlinear_arith)
            requires
                r == q,
                2 * n * q <= 2 * num + n,
                2 * num + n < 2 * n * q + 2 * n,
        ;
    } else {
        lemma_div_bounds(-2 * num + n, 2 * n);
        let q = (-2 * num + n) / (2 * n);
        assert(r == -q);
        assert(-n <= 2 * (r * n - num) <= n) by (nonlinear_arith)
            requires
                r == -q,
                2 * n * q <= -2 * num + n,
                -2 * num + n < 2 * n * q + 2 * n,
        ;
    }
}

/// A multiple `t n` of `n` within `2 n` of zero is one of five.
proof fn lemma_small_multiple(t: int, n: int, v: int)
    requires
        n > 0,
        v == t * n,
        -2 * n <= v <= 2 * n,
    ensures
        (t == -2 && v == -2 * n) || (t == -1 && v == -n) || (t == 0 && v == 0) || (t == 1 && v == n) || (t == 2
            && v == 2 * n),
{
    assert(-2 <= t <= 2) by (nonlinear_arith)
        requires
            n > 0,
            v == t * n,
            -2 * n <= v <= 2 * n,
    ;
    assert(v == t * n);
    assert((t == -2 ==> v == -2 * n) && (t == -1 ==> v == -n) && (t == 0 ==> v == 0) && (t == 1 ==> v == n) && (
    t == 2 ==> v == 2 * n)) by (nonlinear_arith)
        requires
            v == t * n,
    ;
}

/// A coordinate that moves a whole hex per step is interpolated exactly.
proof fn lemma_whole_err(e: int, r: int, a: int, d: int, i: int, n: int)
    requires
        n > 0,
        d == n || d == -n,
        e == r * n - (a * n + d * i),
        -n <= 2 * e <= n,
    ensures
        e == 0,
{
    let q = if d == n {
        r - a - i
    } else {
        r - a + i
    };
    assert(e == n * q) by (nonlinear_arith)
        requires
            d == n || d == -n,
            e == r * n - (a * n + d * i),
            q == if d == n {
                r - a - i
            } else {
                r - a + i
            },
    ;
    assert(e == 0) by (nonlinear_arith)
        requires
            n > 0,
            e == n * q,
            -n <= 2 * e <= n,
    ;
}

/// Which coordinate the rounding of a line recomputes, by the errors.
pub open spec fn fixed_coord(ex: int, ey: int, ez: int) -> int {
    if abs(ex) > abs(ey) && abs(ex) > abs(ez) {
        0
    } else if abs(ey) > abs(ez) {
        1
    } else {
        2
    }
}

/// The rounding core of a line step, in errors alone: no coordinate of the
/// rounded hex moves by more than one from one step to the next.
proof fn lemma_line_step_core(
    n: int,
    e: (int, int, int),
    e2: (int, int, int),
    d: (int, int, int),
    t: (int, int, int),
    s: int,
    s2: int,
)
    requires
        n > 0,
        -n <= 2 * e.0 <= n && -n <= 2 * e.1 <= n && -n <= 2 * e.2 <= n,
        -n <= 2 * e2.0 <= n && -n <= 2 * e2.1 <= n && -n <= 2 * e2.2 <= n,
        d.0 + d.1 + d.2 == 0,
        abs(d.0) + abs(d.1) + abs(d.2) == 2 * n,
        abs(d.0) == n ==> e.0 == 0 && e2.0 == 0,
        abs(d.1) == n ==> e.1 == 0 && e2.1 == 0,
        abs(d.2) == n ==> e.2 == 0 && e2.2 == 0,
        (t.0 == -1 && e2.0 - e.0 + d.0 == -n) || (t.0 == 0 && e2.0 - e.0 + d.0 == 0) || (t.0 == 1 && e2.0
            - e.0 + d.0 == n),
        (t.1 == -1 && e2.1 - e.1 + d.1 == -n) || (t.1 == 0 && e2.1 - e.1 + d.1 == 0) || (t.1 == 1 && e2.1
            - e.1 + d.1 == n),
        (t.2 == -1 && e2.2 - e.2 + d.2 == -n) || (t.2 == 0 && e2.2 - e.2 + d.2 == 0) || (t.2 == 1 && e2.2
            - e.2 + d.2 == n),
        (s == -1 && e.0 + e.1 + e.2 == -n) || (s == 0 && e.0 + e.1 + e.2 == 0) || (s == 1 && e.0 + e.1 + e.2
            == n),
        (s2 == -1 && e2.0 + e2.1 + e2.2 == -n) || (s2 == 0 && e2.0 + e2.1 + e2.2 == 0) || (s2 == 1 && e2.0
            + e2.1 + e2.2 == n),
    ensures
        ({
            let f = fixed_coord(e.0, e.1, e.2);
            let f2 = fixed_coord(e2.0, e2.1, e2.2);
            &&& -1 <= t.0 - (if f2 == 0 { s2 } else { 0 }) + (if f == 0 { s } else { 0 }) <= 1
            &&& -1 <= t.1 - (if f2 == 1 { s2 } else { 0 }) + (if f == 1 { s } else { 0 }) <= 1
            &&& -1 <= t.2 - (if f2 == 2 { s2 } else { 0 }) + (if f == 2 { s } else { 0 }) <= 1
        }),
{
}

/// One coordinate of a line step: the interpolations at steps `i` and
/// `i + 1`, their rounding errors and how far the rounded value moves.
proof fn lemma_line_coord(a: int, b: int, n: int, i: int)
    requires
        n > 0,
        0 <= i < n,
        -n <= b - a <= n,
    ensures
        ({
            let num = lerp_num(a, b, n, i);
            let num2 = lerp_num(a, b, n, i + 1);
            let r = round_div(num, n);
            let r2 = round_div(num2, n);
            let e = r * n - num;
            let e2 = r2 * n - num2;
            let t = r2 - r;
            &&& num2 == num + (b - a)
            &&& -n <= 2 * e <= n
            &&& -n <= 2 * e2 <= n
            &&& (abs(b - a) == n ==> e == 0 && e2 == 0)
            &&& (t == -1 && e2 - e + (b - a) == -n) || (t == 0 && e2 - e + (b - a) == 0) || (t == 1 && e2 - e
                + (b - a) == n)
        }),
{
    let d = b - a;
    let num = lerp_num(a, b, n, i);
    let num2 = lerp_num(a, b, n, i + 1);
    let r = round_div(num, n);
    let r2 = round_div(num2, n);
    let e = r * n - num;
    let e2 = r2 * n - num2;
    let t = r2 - r;
    assert(num2 == num + d) by (nonlinear_arith)
        requires
            num == a * n + d * i,
            num2 == a * n + d * (i + 1),
    ;
    lemma_round_err(num, n);
    lemma_round_err(num2, n);
    if abs(d) == n {
        lemma_whole_err(e, r, a, d, i, n);
        lemma_whole_err(e2, r2, a, d, i + 1, n);
    }
    let v = e2 - e + d;
    assert(v == t * n) by (nonlinear_arith)
        requires
            e == r * n - num,
            e2 == r2 * n - num2,
            num2 == num + d,
            v == e2 - e + d,
            t == r2 - r,
    ;
    lemma_small_multiple(t, n, v);
}

/// Step `i` of a line is the rounded interpolation with the coordinate of
/// largest error moved by the sum of the rounded coordinates.
proof fn lemma_line_point_shape(a: Hex, b: Hex, n: int, i: int)
    requires
        a.within_limit(),
        b.within_limit(),
        n > 0,
        0 <= i <= n,
    ensures
        ({
            let (nx, ny, nz) = (
                lerp_num(a.x as int, b.x as int, n, i),
                lerp_num(a.y as int, b.y as int, n, i),
                lerp_num(a.z as int, b.z as int, n, i),
            );
            let (rx, ry, rz) = (round_div(nx, n), round_div(ny, n), round_div(nz, n));
            let s = rx + ry + rz;
            let f = fixed_coord(rx * n - nx, ry * n - ny, rz * n - nz);
            let p = line_point(a, b, n, i);
            &&& p.x == rx - (if f == 0 { s } else { 0 })
            &&& p.y == ry - (if f == 1 { s } else { 0 })
            &&& p.z == rz - (if f == 2 { s } else { 0 })
        }),
{
    lemma_round_between(a.x as int, b.x as int, n, i);
    lemma_round_between(a.y as int, b.y as int, n, i);
    lemma_round_between(a.z as int, b.z as int, n, i);
}

/// From one step of a line to the next, no coordinate of the rounded hex
/// moves by more than one.
#[verifier::spinoff_prover]
#[verifier::rlimit(60)]
proof fn lemma_line_moves(ax: int, ay: int, az: int, bx: int, by: int, bz: int, n: int, i: int)
    requires
        ax + ay + az == 0,
        bx + by + bz == 0,
        abs(bx - ax) + abs(by - ay) + abs(bz - az) == 2 * n,
        n > 0,
        0 <= i < n,
    ensures
        ({
            let (nx, ny, nz) = (lerp_num(ax, bx, n, i), lerp_num(ay, by, n, i), lerp_num(az, bz, n, i));
            let (mx, my, mz) = (
                lerp_num(ax, bx, n, i + 1),
                lerp_num(ay, by, n, i + 1),
                lerp_num(az, bz, n, i + 1),
            );
            let (rx, ry, rz) = (round_div(nx, n), round_div(ny, n), round_div(nz, n));
            let (qx, qy, qz) = (round_div(mx, n), round_div(my, n), round_div(mz, n));
            let s = rx + ry + rz;
            let s2 = qx + qy + qz;
            let f = fixed_coord(rx * n - nx, ry * n - ny, rz * n - nz);
            let f2 = fixed_coord(qx * n - mx, qy * n - my, qz * n - mz);
            &&& -1 <= (qx - (if f2 == 0 { s2 } else { 0 })) - (rx - (if f == 0 { s } else { 0 })) <= 1
            &&& -1 <= (qy - (if f2 == 1 { s2 } else { 0 })) - (ry - (if f == 1 { s } else { 0 })) <= 1
            &&& -1 <= (qz - (if f2 == 2 { s2 } else { 0 })) - (rz - (if f == 2 { s } else { 0 })) <= 1
        }),
{
    lemma_line_coord(ax, bx, n, i);
    lemma_line_coord(ay, by, n, i);
    lemma_line_coord(az, bz, n, i);
    let (nx, ny, nz) = (lerp_num(ax, bx, n, i), lerp_num(ay, by, n, i), lerp_num(az, bz, n, i));
    let (mx, my, mz) = (lerp_num(ax, bx, n, i + 1), lerp_num(ay, by, n, i + 1), lerp_num(az, bz, n, i + 1));
    let (rx, ry, rz) = (round_div(nx, n), round_div(ny, n), round_div(nz, n));
    let (qx, qy, qz) = (round_div(mx, n), round_div(my, n), round_div(mz, n));
    let e = (rx * n - nx, ry * n - ny, rz * n - nz);
    let e2 = (qx * n - mx, qy * n - my, qz * n - mz);
    let s = rx + ry + rz;
    let s2 = qx + qy + qz;
    assert(nx + ny + nz == 0) by (nonlinear_arith)
        requires
            ax + ay + az == 0,
            bx + by + bz == 0,
            nx == ax * n + (bx - ax) * i,
            ny == ay * n + (by - ay) * i,
            nz == az * n + (bz - az) * i,
    ;
    assert(mx + my + mz == 0) by (nonlinear_arith)
        requires
            ax + ay + az == 0,
            bx + by + bz == 0,
            mx == ax * n + (bx - ax) * (i + 1),
            my == ay * n + (by - ay) * (i + 1),
            mz == az * n + (bz - az) * (i + 1),
    ;
    assert(e.0 + e.1 + e.2 == s * n) by (nonlinear_arith)
        requires
            nx + ny + nz == 0,
            e == (rx * n - nx, ry * n - ny, rz * n - nz),
            s == rx + ry + rz,
    ;
    assert(e2.0 + e2.1 + e2.2 == s2 * n) by (nonlinear_arith)
        requires
            mx + my + mz == 0,
            e2 == (qx * n - mx, qy * n - my, qz * n - mz),
            s2 == qx + qy + qz,
    ;
    lemma_small_multiple(s, n, e.0 + e.1 + e.2);
    lemma_small_multiple(s2, n, e2.0 + e2.1 + e2.2);
    lemma_line_step_core(n, e, e2, (bx - ax, by - ay, bz - az), (qx - rx, qy - ry, qz - rz), s, s2);
}

/// Two consecutive hexes of a line between valid hexes are at most one
/// step apart, and valid.
proof fn lemma_line_step(a: Hex, b: Hex, i: int)
    requires
        a.is_valid(),
        b.is_valid(),
        a.within_limit(),
        b.within_limit(),
        a.dist(b) > 0,
        0 <= i < a.dist(b),
    ensures
        line_point(a, b, a.dist(b), i).is_valid(),
        line_point(a, b, a.dist(b), i + 1).is_valid(),
        line_point(a, b, a.dist(b), i).dist(line_point(a, b, a.dist(b), i + 1)) <= 1,
{
    let n = a.dist(b);
    crate::hex::algorithms::lemma_abs_sum3(b.x - a.x, b.y - a.y, b.z - a.z);
    lemma_line_moves(a.x as int, a.y as int, a.z as int, b.x as int, b.y as int, b.z as int, n, i);
    lemma_line_point_shape(a, b, n, i);
    lemma_line_point_shape(a, b, n, i + 1);
}

/// Step `k` of a line lies within `k` of its start.
proof fn lemma_line_from_start(a: Hex, b: Hex, k: int)
    requires
        a.is_valid(),
        b.is_valid(),
        a.within_limit(),
        b.within_limit(),
        a.dist(b) > 0,
        0 <= k <= a.dist(b),
    ensures
        line_point(a, b, a.dist(b), k).is_valid(),
        a.dist(line_point(a, b, a.dist(b), k)) <= k,
    decreases k,
{
    let n = a.dist(b);
    lemma_line_point_ends(a, b, n);
    if k == 0 {
        lemma_distance_metric(a, a, a);
    } else {
        lemma_line_from_start(a, b, k - 1);
        lemma_line_step(a, b, k - 1);
        lemma_distance_metric(a, line_point(a, b, n, k - 1), line_point(a, b, n, k));
    }
}

/// Step `k` of a line lies within `n - k` of its end.
proof fn lemma_line_to_end(a: Hex, b: Hex, k: int)
    requires
        a.is_valid(),
        b.is_valid(),
        a.within_limit(),
        b.within_limit(),
        a.dist(b) > 0,
        0 <= k <= a.dist(b),
    ensures
        line_point(a, b, a.dist(b), k).dist(b) <= a.dist(b) - k,
    decreases a.dist(b) - k,
{
    let n = a.dist(b);
    lemma_line_point_ends(a, b, n);
    if k == n {
        lemma_distance_metric(b, b, b);
    } else {
        lemma_line_to_end(a, b, k + 1);
        lemma_line_step(a, b, k);
        lemma_distance_metric(line_point(a, b, n, k), line_point(a, b, n, k + 1), b);
    }
}

/// Consecutive hexes of the line between two valid hexes are neighbours:
/// the line walks from one end to the other one step at a time.
pub proof fn lemma_line_steps_adjacent(a: Hex, b: Hex)
    requires
        a.is_valid(),
        b.is_valid(),
        a.within_limit(),
        b.within_limit(),
    ensures
        forall|i: int|
            0 <= i < line_seq(a, b).len() - 1 ==> #[trigger] line_seq(a, b)[i].dist(line_seq(a, b)[i + 1]) == 1,
{
    let n = a.dist(b);
    if n > 0 {
        assert forall|i: int| 0 <= i < line_seq(a, b).len() - 1 implies #[trigger] line_seq(a, b)[i].dist(
            line_seq(a, b)[i + 1],
        ) == 1 by {
            let p = line_point(a, b, n, i);
            let q = line_point(a, b, n, i + 1);
            assert(line_seq(a, b)[i] == p);
            assert(line_seq(a, b)[i + 1] == q);
            lemma_line_from_start(a, b, i);
            lemma_line_to_end(a, b, i + 1);
            lemma_line_step(a, b, i);
            lemma_distance_metric(a, p, b);
            lemma_distance_metric(p, q, b);
        }
    }
}

/// One step of a line: round each interpolated coordinate, then fix the one
/// with the largest rounding error.
fn lerp_round(a: Hex, b: Hex, n: i32, i: i32) -> (h: Hex)
    requires
        a.within_limit(),
        b.within_limit(),
        0 < n < 0x4000_0000,
        0 <= i <= n,
    ensures
        h == line_point(a, b, n as int, i as int),
{
    let (rx, ex) = round_component(a.x, b.x, n, i);
    let (ry, ey) = round_component(a.y, b.y, n, i);
    let (rz, ez) = round_component(a.z, b.z, n, i);
    if ex > ey && ex > ez {
        Hex { x: -ry - rz, y: ry, z: rz }
    } else if ey > ez {
        Hex { x: rx, y: -rx - rz, z: rz }
    } else {
        Hex { x: rx, y: ry, z: -rx - ry }
    }
}

/// Round one interpolated coordinate; also return the scaled rounding error.
fn round_component(a: i32, b: i32, n: i32, i: i32) -> (res: (i32, i64))
    requires
        -COORD_LIMIT <= a <= COORD_LIMIT,
        -COORD_LIMIT <= b <= COORD_LIMIT,
        0 < n < 0x4000_0000,
        0 <= i <= n,
    ensures
        res.0 == round_div(lerp_num(a as int, b as int, n as int, i as int), n as int),
        res.1 == abs(res.0 * n - lerp_num(a as int, b as int, n as int, i as int)),
        -COORD_LIMIT <= res.0 <= COORD_LIMIT,
{
    let a64 = a as i64;
    let b64 = b as i64;
    let n64 = n as i64;
    let i64v = i as i64;
    assert(-0x0800_0000_0000_0000 < a64 * n64 < 0x0800_0000_0000_0000) by (nonlinear_arith)
        requires
            -0x1000_0000 <= a64 <= 0x1000_0000,
            0 < n64 < 0x4000_0000,
    ;
    assert(-0x1000_0000_0000_0000 < (b64 - a64) * i64v < 0x1000_0000_0000_0000)
        by (nonlinear_arith)
        requires
            -0x2000_0000 <= b64 - a64 <= 0x2000_0000,
            0 <= i64v < 0x4000_0000,
    ;
    let num: i64 = a64 * n64 + (b64 - a64) * i64v;
    proof {
        lemma_round_between(a as int, b as int, n as int, i as int);
    }
    let r: i64 = if num >= 0 {
        (2 * num + n64) / (2 * n64)
    } else {
        -((n64 - 2 * num) / (2 * n64))
    };
    assert(-0x4000_0000_0000_0000 < r * n64 < 0x4000_0000_0000_0000) by (nonlinear_arith)
        requires
            -0x1000_0000 <= r <= 0x1000_0000,
            0 < n64 < 0x4000_0000,
    ;
    let diff: i64 = r * n64 - num;
    let err: i64 = if diff < 0 {
        -diff
    } else {
        diff
    };
    (r as i32, err)
}

} // verus!
