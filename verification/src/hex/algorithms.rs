//! Hex grid algorithms: range, ring, cone, line of sight, pathfinding.

use vstd::prelude::*;

use super::coord::{abs, direction, fits_i32, line_seq, spec_direction, Hex, COORD_LIMIT};
use super::grid::HexGrid;

verus! {

/// Tile trait for pathfinding and line of sight.
pub trait Tile {
    /// Whether a unit may stand on the tile.
    spec fn walkable(&self) -> bool;

    /// Whether the tile lets sight through.
    spec fn transparent(&self) -> bool;

    fn is_walkable(&self) -> (b: bool)
        ensures
            b == self.walkable(),
    ;

    fn is_transparent(&self) -> (b: bool)
        ensures
            b == self.transparent(),
    ;
}

/// An offset lies in the filled hexagon of a radius: a valid cube offset none
/// of whose coordinates exceeds the radius.
pub open spec fn in_disk(o: Hex, radius: int) -> bool {
    &&& o.is_valid()
    &&& abs(o.x as int) <= radius
    &&& abs(o.y as int) <= radius
    &&& abs(o.z as int) <= radius
}

/// Order by x, then by y.
pub open spec fn lex_lt(a: Hex, b: Hex) -> bool {
    a.x < b.x || (a.x == b.x && a.y < b.y)
}

/// Every coordinate of `c` moved by up to `r` in either direction fits `i32`.
pub open spec fn shift_fits(c: Hex, r: int) -> bool {
    &&& fits_i32(c.x - r) && fits_i32(c.x + r)
    &&& fits_i32(c.y - r) && fits_i32(c.y + r)
    &&& fits_i32(c.z - r) && fits_i32(c.z + r)
}

/// For valid hexes, the distance is at most `r` exactly when the offset lies in
/// the hexagon of radius `r`.
pub proof fn lemma_disk_is_distance(center: Hex, h: Hex, r: int)
    requires
        center.is_valid(),
        h.is_valid(),
        h.diff_fits(center),
    ensures
        in_disk(h.minus(center), r) <==> h.dist(center) <= r,
{
    let a = h.x - center.x;
    let b = h.y - center.y;
    let c = h.z - center.z;
    lemma_abs_sum3(a, b, c);
    let o = h.minus(center);
    assert(o.x == a && o.y == b && o.z == c);
    assert(h.dist(center) == (abs(a) + abs(b) + abs(c)) / 2);
    assert(h.dist(center) == max3(abs(a), abs(b), abs(c)));
}

/// For three integers summing to zero, the absolute values sum to twice the largest.
pub proof fn lemma_abs_sum3(a: int, b: int, c: int)
    requires
        a + b + c == 0,
    ensures
        abs(a) + abs(b) + abs(c) == 2 * max3(abs(a), abs(b), abs(c)),
{
}

/// The largest of three integers.
pub open spec fn max3(a: int, b: int, c: int) -> int {
    if a >= b && a >= c {
        a
    } else if b >= c {
        b
    } else {
        c
    }
}

/// Exact quotient and remainder from a decomposition.
pub proof fn lemma_div_mod_exact(k: int, r: int, q: int, m: int)
    requires
        r > 0,
        k == q * r + m,
        0 <= m < r,
    ensures
        k / r == q,
        k % r == m,
{
    vstd::arithmetic::div_mod::lemma_fundamental_div_mod(k, r);
    vstd::arithmetic::div_mod::lemma_mod_bound(k, r);
    assert(k / r == q && k % r == m) by (nonlinear_arith)
        requires
            k == q * r + m,
            0 <= m < r,
            k == r * (k / r) + k % r,
            0 <= k % r < r,
    ;
}

/// `hexes` lists the filled hexagon of radius `radius` around `center`:
/// each offset in the hexagon exactly once, ordered by x then y.
pub open spec fn lists_disk(center: Hex, radius: int, hexes: Seq<Hex>) -> bool {
    &&& forall|k: int|
        0 <= k < hexes.len() ==> #[trigger] hexes[k] == center.plus(hexes[k].minus(center))
            && in_disk(hexes[k].minus(center), radius)
    &&& forall|o: Hex| in_disk(o, radius) ==> #[trigger] hexes.contains(center.plus(o))
    &&& forall|a: int, b: int| 0 <= a < b < hexes.len() ==> lex_lt(hexes[a], hexes[b])
}

/// How many hexes of the disk of radius `r` lie in the columns left of `x`
/// (offset x from `-r` up to `x - 1`); the column at offset `j` holds
/// `2 r + 1 - |j|` hexes.
pub open spec fn disk_columns(r: int, x: int) -> int
    decreases x + r,
{
    if x <= -r {
        0
    } else {
        disk_columns(r, x - 1) + (2 * r + 1 - abs(x - 1))
    }
}

/// Left of the column `x`, for `x <= 1`, the disk holds
/// `m (r + 1) + m (m - 1) / 2` hexes, with `m = x + r` columns.
proof fn lemma_disk_left(r: int, x: int)
    requires
        0 <= r,
        -r <= x <= 1,
    ensures
        2 * disk_columns(r, x) == 2 * (x + r) * (r + 1) + (x + r) * (x + r - 1),
    decreases x + r,
{
    let m = x + r;
    if x > -r {
        lemma_disk_left(r, x - 1);
        let prev = disk_columns(r, x - 1);
        assert(disk_columns(r, x) == prev + (2 * r + 1 + (x - 1)));
        assert(2 * disk_columns(r, x) == 2 * m * (r + 1) + m * (m - 1)) by (nonlinear_arith)
            requires
                2 * prev == 2 * (m - 1) * (r + 1) + (m - 1) * (m - 2),
                disk_columns(r, x) == prev + (2 * r + 1 + (x - 1)),
                m == x + r,
        ;
    } else {
        assert(m == 0);
        assert(2 * m * (r + 1) + m * (m - 1) == 0) by (nonlinear_arith)
            requires
                m == 0,
        ;
    }
}

/// Left of the column `x`, for `x >= 1`, the disk holds the left half and
/// the columns from one up to `x - 1`.
proof fn lemma_disk_right(r: int, x: int)
    requires
        0 <= r,
        1 <= x <= r + 1,
    ensures
        2 * disk_columns(r, x) == 2 * (r + 1) * (r + 1) + (r + 1) * r + 2 * (x - 1) * (2 * r + 1) - (x - 1) * x,
    decreases x,
{
    if x == 1 {
        lemma_disk_left(r, 1);
        assert(2 * (1 + r) * (r + 1) + (1 + r) * r == 2 * (r + 1) * (r + 1) + (r + 1) * r + 2 * (x - 1) * (2 * r
            + 1) - (x - 1) * x) by (nonlinear_arith)
            requires
                x == 1,
        ;
    } else {
        lemma_disk_right(r, x - 1);
        let prev = disk_columns(r, x - 1);
        assert(disk_columns(r, x) == prev + (2 * r + 1 - (x - 1)));
        assert(2 * disk_columns(r, x) == 2 * (r + 1) * (r + 1) + (r + 1) * r + 2 * (x - 1) * (2 * r + 1) - (x
            - 1) * x) by (nonlinear_arith)
            requires
                2 * prev == 2 * (r + 1) * (r + 1) + (r + 1) * r + 2 * (x - 2) * (2 * r + 1) - (x - 2) * (x - 1),
                disk_columns(r, x) == prev + (2 * r + 1 - (x - 1)),
        ;
    }
}

/// The disk of radius `r` holds `3 r^2 + 3 r + 1` hexes.
proof fn lemma_disk_count(r: int)
    requires
        0 <= r,
    ensures
        disk_columns(r, r + 1) == 3 * r * r + 3 * r + 1,
{
    lemma_disk_right(r, r + 1);
    assert(2 * (r + 1) * (r + 1) + (r + 1) * r + 2 * r * (2 * r + 1) - r * (r + 1) == 2 * (3 * r * r + 3 * r
        + 1)) by (nonlinear_arith);
}

/// Get all hexes within a given radius (filled hexagon), ordered by x then y:
/// `3 r^2 + 3 r + 1` of them for radius `r`.
pub fn range(center: Hex, radius: i32) -> (hexes: Vec<Hex>)
    requires
        radius > i32::MIN,
        radius <= 0x3fff_ffff,
        radius >= 0 ==> shift_fits(center, radius as int),
    ensures
        lists_disk(center, radius as int, hexes@),
        hexes@.len() == if radius >= 0 {
            3 * radius * radius + 3 * radius + 1
        } else {
            0
        },
{
    let mut results: Vec<Hex> = Vec::new();
    if radius < 0 {
        assert forall|o: Hex| in_disk(o, radius as int) implies #[trigger] results@.contains(
            center.plus(o),
        ) by {}
        return results;
    }
    let ghost r = radius as int;
    let mut x: i32 = -radius;
    while x <= radius
        invariant
            0 <= radius <= 0x3fff_ffff,
            r == radius as int,
            shift_fits(center, r),
            -radius <= x <= radius + 1,
            results@.len() == disk_columns(r, x as int),
            forall|k: int|
                0 <= k < results@.len() ==> #[trigger] results@[k] == center.plus(
                    results@[k].minus(center),
                ) && in_disk(results@[k].minus(center), r) && results@[k].minus(center).x < x,
            forall|o: Hex|
                in_disk(o, r) && o.x < x ==> #[trigger] results@.contains(center.plus(o)),
            forall|a: int, b: int|
                0 <= a < b < results@.len() ==> lex_lt(results@[a], results@[b]),
        decreases radius + 1 - x,
    {
        let y_min = if -radius > -x - radius {
            -radius
        } else {
            -x - radius
        };
        let y_max = if radius < -x + radius {
            radius
        } else {
            -x + radius
        };
        let mut y: i32 = y_min;
        while y <= y_max
            invariant
                0 <= radius <= 0x3fff_ffff,
                r == radius as int,
                shift_fits(center, r),
                -radius <= x <= radius,
                y_min == if -r > -x - r { -r } else { -x - r },
                y_max == if r < -x + r { r } else { -x + r },
                y_min <= y <= y_max + 1,
                results@.len() == disk_columns(r, x as int) + (y - y_min),
                forall|k: int|
                    0 <= k < results@.len() ==> #[trigger] results@[k] == center.plus(
                        results@[k].minus(center),
                    ) && in_disk(results@[k].minus(center), r) && (results@[k].minus(center).x < x
                        || (results@[k].minus(center).x == x && results@[k].minus(center).y < y)),
                forall|o: Hex|
                    in_disk(o, r) && (o.x < x || (o.x == x && o.y < y)) ==> #[trigger] results@.contains(
                        center.plus(o),
                    ),
                forall|a: int, b: int|
                    0 <= a < b < results@.len() ==> lex_lt(results@[a], results@[b]),
            decreases y_max + 1 - y,
        {
            let z = -x - y;
            let off = Hex::new(x, y, z);
            let h = off + center;
            let ghost prev = results@;
            assert(h == center.plus(off));
            assert(h.minus(center) == off);
            results.push(h);
            proof {
                assert forall|o: Hex|
                    in_disk(o, r) && (o.x < x || (o.x == x && o.y < y + 1)) implies #[trigger] results@.contains(
                    center.plus(o),
                ) by {
                    if o.x == x && o.y == y {
                        assert(o == off);
                        assert(results@[prev.len() as int] == h);
                    } else {
                        assert(prev.contains(center.plus(o)));
                        let k = choose|k: int| 0 <= k < prev.len() && prev[k] == center.plus(o);
                        assert(results@[k] == prev[k]);
                    }
                }
                assert forall|a: int, b: int|
                    0 <= a < b < results@.len() implies lex_lt(results@[a], results@[b]) by {
                    if b == prev.len() {
                        assert(results@[a] == prev[a]);
                        assert(prev[a] == center.plus(prev[a].minus(center)));
                    } else {
                        assert(results@[a] == prev[a]);
                        assert(results@[b] == prev[b]);
                    }
                }
            }
            y = y + 1;
        }
        proof {
            assert(disk_columns(r, x + 1) == disk_columns(r, x as int) + (2 * r + 1 - abs(x as int)));
            assert forall|o: Hex| in_disk(o, r) && o.x < x + 1 implies #[trigger] results@.contains(
                center.plus(o),
            ) by {
                if o.x == x {
                    assert(o.y <= y_max);
                }
            }
        }
        x = x + 1;
    }
    proof {
        lemma_disk_count(r);
    }
    results
}

/// `m` steps in direction `d`, as a coordinate offset.
pub open spec fn steps(d: int, m: int) -> (int, int, int) {
    if d == 0 {
        (m, -m, 0)
    } else if d == 1 {
        (m, 0, -m)
    } else if d == 2 {
        (0, m, -m)
    } else if d == 3 {
        (-m, m, 0)
    } else if d == 4 {
        (-m, 0, m)
    } else {
        (0, -m, m)
    }
}

/// A hex moved by a coordinate offset.
pub open spec fn shifted(h: Hex, o: (int, int, int)) -> Hex {
    Hex { x: (h.x + o.0) as i32, y: (h.y + o.1) as i32, z: (h.z + o.2) as i32 }
}

/// Hex `k` of the ring of radius `r` around `center`: the ring starts at the
/// western corner and walks six sides of `r` steps, side `s` starting at the
/// corner `r` steps in direction `s + 3` and walking in direction `s + 5`.
pub open spec fn ring_point(center: Hex, r: int, k: int) -> Hex {
    let side = k / r;
    let step = k % r;
    shifted(
        shifted(center, steps((side + 3) % 6, r)),
        steps((side + 5) % 6, step),
    )
}

/// The ring of radius `r` around `center`, in walking order.
pub open spec fn ring_seq(center: Hex, r: int) -> Seq<Hex> {
    if r == 0 {
        seq![center]
    } else {
        Seq::new((6 * r) as nat, |k: int| ring_point(center, r, k))
    }
}

/// Get hexes at exactly a given distance (ring outline).
pub fn ring(center: Hex, radius: i32) -> (hexes: Vec<Hex>)
    requires
        radius >= 0,
        radius <= 0x3fff_ffff,
        shift_fits(center, 2 * radius as int),
    ensures
        hexes@ == ring_seq(center, radius as int),
        radius > 0 ==> forall|k: int|
            0 <= k < hexes@.len() ==> center.dist(#[trigger] hexes@[k]) == radius,
{
    if radius == 0 {
        return vec![center];
    }
    let ghost r = radius as int;
    let mut results: Vec<Hex> = Vec::new();
    let mut hex = Hex { x: center.x - radius, y: center.y + radius, z: center.z };
    let mut side: usize = 0;
    proof {
        lemma_div_mod_exact(0, r, 0, 0);
    }
    while side < 6
        invariant
            0 < radius <= 0x3fff_ffff,
            r == radius as int,
            shift_fits(center, 2 * r),
            side <= 6,
            results@.len() == side * r,
            side < 6 ==> hex == ring_point(center, r, side * r),
            forall|k: int| 0 <= k < results@.len() ==> #[trigger] results@[k] == ring_point(center, r, k),
        decreases 6 - side,
    {
        let walk = direction((side + 5) % 6);
        let mut step: i32 = 0;
        while step < radius
            invariant
                0 < radius <= 0x3fff_ffff,
                r == radius as int,
                shift_fits(center, 2 * r),
                side < 6,
                walk == spec_direction(((side + 5) % 6) as int),
                0 <= step <= radius,
                results@.len() == side * r + step,
                step < radius ==> hex == ring_point(center, r, side * r + step),
                step == radius && side < 5 ==> hex == ring_point(center, r, (side + 1) * r),
                forall|k: int|
                    0 <= k < results@.len() ==> #[trigger] results@[k] == ring_point(center, r, k),
            decreases radius - step,
        {
            proof {
                lemma_ring_step(center, r, side as int, step as int);
            }
            results.push(hex);
            hex = Hex { x: hex.x + walk.x, y: hex.y + walk.y, z: hex.z + walk.z };
            step = step + 1;
        }
        assert((side + 1) * r == side * r + r) by (nonlinear_arith);
        side = side + 1;
    }
    proof {
        assert forall|k: int| 0 <= k < results@.len() implies center.dist(#[trigger] results@[k])
            == radius by {
            lemma_ring_point_dist(center, r, k);
        }
        assert(results@ =~= ring_seq(center, r));
    }
    results
}

/// Facts about one step along the ring.
proof fn lemma_ring_step(center: Hex, r: int, side: int, step: int)
    requires
        0 < r <= 0x3fff_ffff,
        shift_fits(center, 2 * r),
        0 <= side < 6,
        0 <= step < r,
    ensures
        ({
            let p = ring_point(center, r, side * r + step);
            let walk = spec_direction((side + 5) % 6);
            &&& fits_i32(p.x + walk.x) && fits_i32(p.y + walk.y) && fits_i32(p.z + walk.z)
            &&& (step + 1 < r ==> ring_point(center, r, side * r + step + 1) == p.plus(walk))
            &&& (step + 1 == r && side < 5 ==> ring_point(center, r, (side + 1) * r) == p.plus(walk))
        }),
{
    lemma_div_mod_exact(side * r + step, r, side, step);
    if step + 1 < r {
        lemma_div_mod_exact(side * r + step + 1, r, side, step + 1);
    }
    if step + 1 == r && side < 5 {
        lemma_div_mod_exact((side + 1) * r, r, side + 1, 0);
        assert((side + 1) * r == side * r + r) by (nonlinear_arith);
    }
    lemma_side_cases(side);
    if side == 0 {
    } else if side == 1 {
    } else if side == 2 {
    } else if side == 3 {
    } else if side == 4 {
    } else {
    }
}

/// Names the concrete directions of each side of the ring.
proof fn lemma_side_cases(side: int)
    requires
        0 <= side < 6,
    ensures
        side == 0 ==> (side + 3) % 6 == 3 && (side + 5) % 6 == 5,
        side == 1 ==> (side + 3) % 6 == 4 && (side + 5) % 6 == 0,
        side == 2 ==> (side + 3) % 6 == 5 && (side + 5) % 6 == 1,
        side == 3 ==> (side + 3) % 6 == 0 && (side + 5) % 6 == 2,
        side == 4 ==> (side + 3) % 6 == 1 && (side + 5) % 6 == 3,
        side == 5 ==> (side + 3) % 6 == 2 && (side + 5) % 6 == 4,
{
}

/// Every hex of the ring lies at the ring's radius.
proof fn lemma_ring_point_dist(center: Hex, r: int, k: int)
    requires
        0 < r <= 0x3fff_ffff,
        shift_fits(center, 2 * r),
        0 <= k < 6 * r,
    ensures
        center.dist(ring_point(center, r, k)) == r,
{
    vstd::arithmetic::div_mod::lemma_fundamental_div_mod(k, r);
    vstd::arithmetic::div_mod::lemma_mod_bound(k, r);
    let side = k / r;
    let step = k % r;
    assert(0 <= side < 6) by (nonlinear_arith)
        requires
            k == r * side + step,
            0 <= step < r,
            0 <= k < 6 * r,
    ;
    lemma_side_cases(side);
    if side == 0 {
    } else if side == 1 {
    } else if side == 2 {
    } else if side == 3 {
    } else if side == 4 {
    } else {
    }
}

/// The offset from the center of the hex `m` steps along side `side` of the
/// ring of radius `r`.
pub open spec fn ring_offset(r: int, side: int, m: int) -> (int, int, int) {
    if side == 0 {
        (-r, r - m, m)
    } else if side == 1 {
        (-r + m, -m, r)
    } else if side == 2 {
        (m, -r, r - m)
    } else if side == 3 {
        (r, -r + m, -m)
    } else if side == 4 {
        (r - m, m, -r)
    } else {
        (-m, r, -r + m)
    }
}

/// Hex `k` of the ring lies `k % r` steps along side `k / r`.
proof fn lemma_ring_point_offset(center: Hex, r: int, k: int)
    requires
        0 < r <= 0x3fff_ffff,
        shift_fits(center, 2 * r),
        0 <= k < 6 * r,
    ensures
        0 <= k / r < 6,
        0 <= k % r < r,
        k == (k / r) * r + k % r,
        ({
            let o = ring_offset(r, k / r, k % r);
            let p = ring_point(center, r, k);
            p.x == center.x + o.0 && p.y == center.y + o.1 && p.z == center.z + o.2
        }),
{
    vstd::arithmetic::div_mod::lemma_fundamental_div_mod(k, r);
    vstd::arithmetic::div_mod::lemma_mod_bound(k, r);
    let side = k / r;
    let step = k % r;
    assert(0 <= side < 6) by (nonlinear_arith)
        requires
            k == r * side + step,
            0 <= step < r,
            0 <= k < 6 * r,
    ;
    assert(k == side * r + step) by (nonlinear_arith)
        requires
            k == r * side + step,
    ;
    lemma_side_cases(side);
}

/// Two steps of the ring's walk that reach the same offset are the same step.
proof fn lemma_ring_offset_unique(r: int, s1: int, m1: int, s2: int, m2: int)
    requires
        0 < r,
        0 <= s1 < 6,
        0 <= s2 < 6,
        0 <= m1 < r,
        0 <= m2 < r,
        ring_offset(r, s1, m1) == ring_offset(r, s2, m2),
    ensures
        s1 == s2,
        m1 == m2,
{
}

/// A valid hex at distance `r > 0` from a valid center lies on the ring.
proof fn lemma_ring_complete(center: Hex, r: int, h: Hex)
    requires
        0 < r <= 0x3fff_ffff,
        shift_fits(center, 2 * r),
        center.is_valid(),
        h.is_valid(),
        center.dist(h) == r,
    ensures
        ring_seq(center, r).contains(h),
{
    let ox = h.x - center.x;
    let oy = h.y - center.y;
    let oz = h.z - center.z;
    let (side, m) = if ox == -r && 0 <= oz < r {
        (0int, oz)
    } else if oz == r && -r <= ox < 0 {
        (1int, ox + r)
    } else if oy == -r && 0 <= ox < r {
        (2int, ox)
    } else if ox == r && -r <= oy < 0 {
        (3int, oy + r)
    } else if oz == -r && 0 <= oy < r {
        (4int, oy)
    } else {
        (5int, oz + r)
    };
    assert(0 <= m < r);
    assert(ring_offset(r, side, m) == (ox, oy, oz));
    let k = side * r + m;
    assert(0 <= k < 6 * r) by (nonlinear_arith)
        requires
            k == side * r + m,
            0 <= side < 6,
            0 <= m < r,
    ;
    lemma_div_mod_exact(k, r, side, m);
    lemma_ring_point_offset(center, r, k);
    assert(ring_seq(center, r)[k] == h);
}

/// The walk of the ring of radius `r` around `center` visits `6 r` hexes (the
/// center alone for radius zero), each once, all at distance `r` from the
/// center; around a valid center it visits every valid hex at that distance.
pub proof fn lemma_ring_walk(center: Hex, r: int)
    requires
        0 <= r <= 0x3fff_ffff,
        shift_fits(center, 2 * r),
    ensures
        ring_seq(center, r).len() == if r == 0 {
            1
        } else {
            6 * r
        },
        ring_seq(center, r).no_duplicates(),
        forall|k: int| 0 <= k < ring_seq(center, r).len() ==> center.dist(#[trigger] ring_seq(center, r)[k]) == r,
        center.is_valid() ==> forall|h: Hex|
            h.is_valid() && center.dist(h) == r ==> #[trigger] ring_seq(center, r).contains(h),
{
    let s = ring_seq(center, r);
    if r == 0 {
        if center.is_valid() {
            assert forall|h: Hex| h.is_valid() && center.dist(h) == r implies #[trigger] s.contains(h) by {
                assert(h.x == center.x && h.y == center.y && h.z == center.z);
                assert(s[0] == h);
            }
        }
    } else {
        if center.is_valid() {
            assert forall|h: Hex| h.is_valid() && center.dist(h) == r implies #[trigger] s.contains(h) by {
                lemma_ring_complete(center, r, h);
            }
        }
        assert forall|k: int| 0 <= k < s.len() implies center.dist(#[trigger] s[k]) == r by {
            lemma_ring_point_dist(center, r, k);
        }
        assert forall|i: int, j: int| 0 <= i < s.len() && 0 <= j < s.len() && i != j implies s[i] != s[j] by {
            lemma_ring_point_offset(center, r, i);
            lemma_ring_point_offset(center, r, j);
            if s[i] == s[j] {
                lemma_ring_offset_unique(r, i / r, i % r, j / r, j % r);
            }
        }
    }
}

/// The hexes of one layer of a cone: the hex `dist` steps along the main
/// direction, then pairs spreading to either side, `dist / 2` steps at most.
pub open spec fn cone_layer(origin: Hex, dir: int, dist: int) -> Seq<Hex> {
    let c = shifted(origin, steps(dir, dist));
    Seq::new(
        (1 + 2 * (dist / 2)) as nat,
        |k: int|
            if k == 0 {
                c
            } else if k % 2 == 1 {
                shifted(c, steps((dir + 1) % 6, (k + 1) / 2))
            } else {
                shifted(c, steps((dir + 5) % 6, k / 2))
            },
    )
}

/// The layers of a cone from distance 1 up to `n`, concatenated.
pub open spec fn cone_seq(origin: Hex, dir: int, n: int) -> Seq<Hex>
    decreases n,
{
    if n <= 0 {
        seq![]
    } else {
        cone_seq(origin, dir, n - 1) + cone_layer(origin, dir, n)
    }
}

/// Whether a hex lies within `b` of zero in every coordinate.
pub open spec fn bounded_by(h: Hex, b: int) -> bool {
    -b <= h.x <= b && -b <= h.y <= b && -b <= h.z <= b
}

/// One more step in a direction is one neighbor further.
proof fn lemma_steps_succ(h: Hex, d: int, m: int)
    requires
        0 <= d < 6,
        0 <= m,
        bounded_by(h, 0x2000_0000),
        m < 0x1000_0000,
    ensures
        bounded_by(shifted(h, steps(d, m)), 0x3000_0000),
        shifted(h, steps(d, m)).sum_fits(spec_direction(d)),
        shifted(h, steps(d, m)).plus(spec_direction(d)) == shifted(h, steps(d, m + 1)),
        shifted(h, steps(d, 0)) == h,
{
}

/// `h` moved `m` steps in direction `d`.
fn shift_steps(h: Hex, d: usize, m: i32) -> (r: Hex)
    requires
        d < 6,
        bounded_by(h, 0x1000_0000),
        0 <= m <= 0x1000_0000,
    ensures
        r == shifted(h, steps(d as int, m as int)),
        bounded_by(r, 0x2000_0000),
{
    if d == 0 {
        Hex { x: h.x + m, y: h.y - m, z: h.z }
    } else if d == 1 {
        Hex { x: h.x + m, y: h.y, z: h.z - m }
    } else if d == 2 {
        Hex { x: h.x, y: h.y + m, z: h.z - m }
    } else if d == 3 {
        Hex { x: h.x - m, y: h.y + m, z: h.z }
    } else if d == 4 {
        Hex { x: h.x - m, y: h.y, z: h.z + m }
    } else {
        Hex { x: h.x, y: h.y - m, z: h.z + m }
    }
}

/// Get hexes in a cone shape.
pub fn cone(origin: Hex, direction: usize, cone_range: i32) -> (hexes: Vec<Hex>)
    requires
        origin.within_limit(),
        cone_range <= COORD_LIMIT,
    ensures
        hexes@ == cone_seq(origin, (direction % 6) as int, cone_range as int),
{
    let mut results: Vec<Hex> = Vec::new();
    let dir_idx = direction % 6;
    let left_dir = (dir_idx + 1) % 6;
    let right_dir = (dir_idx + 5) % 6;
    let ghost di = dir_idx as int;
    let mut dist: i32 = 1;
    proof {
        assert(results@ =~= cone_seq(origin, di, 0));
    }
    while dist <= cone_range
        invariant
            origin.within_limit(),
            cone_range <= COORD_LIMIT,
            1 <= dist,
            dist <= cone_range + 1 || cone_range < 1,
            cone_range < 1 ==> dist == 1,
            di == dir_idx as int,
            dir_idx < 6,
            left_dir == (dir_idx + 1) % 6,
            right_dir == (dir_idx + 5) % 6,
            results@ == cone_seq(origin, di, dist - 1),
        decreases cone_range + 1 - dist,
    {
        let center = shift_steps(origin, dir_idx, dist);
        let ghost before = results@;
        let ghost layer = cone_layer(origin, di, dist as int);
        results.push(center);
        let spread = dist / 2;
        let mut left = center;
        let mut right = center;
        let mut j: i32 = 0;
        proof {
            lemma_steps_succ(center, left_dir as int, 0);
            lemma_steps_succ(center, right_dir as int, 0);
            assert(results@ =~= before + layer.subrange(0, 1));
        }
        while j < spread
            invariant
                0 < dist <= COORD_LIMIT,
                spread == dist / 2,
                0 <= j <= spread,
                left_dir < 6,
                right_dir < 6,
                layer == cone_layer(origin, di, dist as int),
                layer.len() == 1 + 2 * spread,
                center == layer[0],
                bounded_by(center, 0x2000_0000),
                left == shifted(center, steps(left_dir as int, j as int)),
                right == shifted(center, steps(right_dir as int, j as int)),
                left_dir as int == (di + 1) % 6,
                right_dir as int == (di + 5) % 6,
                results@ == before + layer.subrange(0, 1 + 2 * j),
            decreases spread - j,
        {
            proof {
                lemma_steps_succ(center, left_dir as int, j as int);
                lemma_steps_succ(center, right_dir as int, j as int);
            }
            left = left.neighbor(left_dir);
            right = right.neighbor(right_dir);
            results.push(left);
            results.push(right);
            j = j + 1;
            proof {
                assert(layer[2 * j - 1] == left);
                assert(layer[2 * j] == right);
                assert(layer.subrange(0, 1 + 2 * j) =~= layer.subrange(0, 1 + 2 * (j - 1)).push(
                    layer[2 * j - 1],
                ).push(layer[2 * j]));
            }
        }
        assert(layer.subrange(0, 1 + 2 * spread) =~= layer);
        dist = dist + 1;
    }
    proof {
        if cone_range < 1 {
            assert(cone_seq(origin, di, cone_range as int) == Seq::<Hex>::empty());
            assert(cone_seq(origin, di, 0) == Seq::<Hex>::empty());
        } else {
            assert(dist == cone_range + 1);
        }
    }
    results
}

/// Check if there's line of sight between two hexes: no hex strictly between
/// them on the line holds an opaque tile.
pub fn line_of_sight<T: Tile>(grid: &HexGrid<T>, from: Hex, to: Hex) -> (visible: bool)
    requires
        grid.wf(),
        from.within_limit(),
        to.within_limit(),
    ensures
        visible == (forall|k: int|
            1 <= k < line_seq(from, to).len() - 1 && #[trigger] grid@.contains_key(
                line_seq(from, to)[k],
            ) ==> grid@[line_seq(from, to)[k]].transparent()),
{
    let line = from.line_to(to);
    let n = line.len();
    let limit: usize = if n >= 2 {
        n - 1
    } else {
        0
    };
    let mut k: usize = 1;
    while k < limit
        invariant
            grid.wf(),
            n == line@.len(),
            line@ == line_seq(from, to),
            limit == if n >= 2 { n - 1 } else { 0 },
            1 <= k,
            k <= limit || limit == 0,
            forall|j: int|
                1 <= j < k && #[trigger] grid@.contains_key(line@[j]) ==> grid@[line@[j]].transparent(),
        decreases n - k,
    {
        match grid.get(line[k]) {
            Some(tile) => {
                if !tile.is_transparent() {
                    return false;
                }
            },
            None => {},
        }
        k = k + 1;
    }
    true
}

/// A tile that a unit may enter: present in the grid and walkable.
pub open spec fn walkable_at<T: Tile>(m: Map<Hex, T>, h: Hex) -> bool {
    m.contains_key(h) && m[h].walkable()
}

/// `b` is one step from `a` in one of the six directions.
pub open spec fn adjacent(a: Hex, b: Hex) -> bool {
    exists|d: int| 0 <= d < 6 && #[trigger] a.plus(spec_direction(d)) == b
}

/// A walk from `from` to `to`: consecutive hexes adjacent, every hex after the
/// first walkable.
pub open spec fn is_walk<T: Tile>(m: Map<Hex, T>, from: Hex, to: Hex, p: Seq<Hex>) -> bool {
    &&& p.len() >= 1
    &&& p[0] == from
    &&& p[p.len() - 1] == to
    &&& forall|i: int, j: int|
        #![trigger p[i], p[j]]
        0 <= i < j < p.len() && j <= i + 1 ==> adjacent(p[i], p[j])
    &&& forall|i: int| 1 <= i < p.len() ==> walkable_at(m, #[trigger] p[i])
}

/// Whether some queued entry is for hex `n`.
spec fn queued(open: Seq<(Hex, i32)>, n: Hex) -> bool {
    exists|k: int| 0 <= k < open.len() && #[trigger] open[k].0 == n
}

/// Every walkable neighbor of `v` in the first `upto` directions has a score.
spec fn neighbors_scored<T: Tile>(m: Map<Hex, T>, g: Map<Hex, i32>, v: Hex, upto: int) -> bool {
    forall|d: int|
        0 <= d < upto && walkable_at(m, #[trigger] v.plus(spec_direction(d))) ==> g.contains_key(
            v.plus(spec_direction(d)),
        )
}

/// The state of the search: scores `g`, predecessors `came`, the visited set
/// and the queue, while the neighbors of `cur` are scored up to direction `upto`.
#[verifier::opaque]
spec fn search_inv<T: Tile>(
    m: Map<Hex, T>,
    from: Hex,
    to: Hex,
    g: Map<Hex, i32>,
    came: Map<Hex, Hex>,
    vis: Set<Hex>,
    open: Seq<(Hex, i32)>,
    cur: Hex,
    upto: int,
) -> bool {
    &&& g.contains_key(from) && g[from] == 0
    &&& vis.finite()
    &&& forall|n: Hex| #[trigger] vis.contains(n) ==> g.contains_key(n)
    &&& forall|n: Hex| #[trigger] g.contains_key(n) && !vis.contains(n) ==> queued(open, n)
    &&& forall|k: int| 0 <= k < open.len() ==> g.contains_key(#[trigger] open[k].0)
    &&& forall|v: Hex| #[trigger] vis.contains(v) && v != cur ==> neighbors_scored(m, g, v, 6)
    &&& vis.contains(cur) ==> neighbors_scored(m, g, cur, upto)
    &&& !vis.contains(to)
    &&& !came.contains_key(from)
    &&& forall|n: Hex| g.contains_key(n) && n != from ==> #[trigger] came.contains_key(n)
    &&& forall|n: Hex| #[trigger]
        came.contains_key(n) ==> {
            &&& g.contains_key(n)
            &&& g.contains_key(came[n])
            &&& adjacent(came[n], n)
            &&& walkable_at(m, n)
            &&& g[came[n]] < g[n]
        }
    &&& forall|n: Hex| #[trigger] g.contains_key(n) ==> 0 <= g[n] <= vis.len()
    &&& forall|n: Hex| #[trigger] g.contains_key(n) ==> n == from || walkable_at(m, n)
}

/// Every neighbor of `v` in the first `upto` directions that can be entered
/// has a score at most one more than `gvv`.
spec fn near_scored<T: Tile>(m: Map<Hex, T>, g: Map<Hex, i32>, gvv: int, v: Hex, upto: int) -> bool {
    forall|d: int|
        0 <= d < upto && walkable_at(m, #[trigger] v.plus(spec_direction(d))) ==> g.contains_key(
            v.plus(spec_direction(d)),
        ) && g[v.plus(spec_direction(d))] <= gvv + 1
}

/// Some queue entry is for hex `n` with key `key`.
spec fn keyed(open: Seq<(Hex, i32)>, n: Hex, key: int) -> bool {
    exists|k: int| 0 <= k < open.len() && #[trigger] open[k].0 == n && open[k].1 == key
}

/// What makes the search find shortest walks: `gv` holds each visited hex's
/// score when it was visited, which no walk to it undercuts; the entered
/// neighbors of visited hexes (those of `cur` up to direction `upto`) are
/// scored within one step of it; every scored hex not yet visited has a
/// queue entry with its exact key, the score plus the distance to the
/// target; and no entry's key is below that.
#[verifier::opaque]
spec fn best_inv<T: Tile>(
    m: Map<Hex, T>,
    from: Hex,
    to: Hex,
    g: Map<Hex, i32>,
    gv: Map<Hex, int>,
    vis: Set<Hex>,
    open: Seq<(Hex, i32)>,
    cur: Hex,
    upto: int,
) -> bool {
    &&& forall|v: Hex| #[trigger] vis.contains(v) ==> gv.contains_key(v) && g.contains_key(v) && g[v] <= gv[v]
    &&& forall|v: Hex, q: Seq<Hex>| vis.contains(v) && #[trigger] is_walk(m, from, v, q) ==> gv[v] <= q.len() - 1
    &&& forall|v: Hex| #[trigger] vis.contains(v) && v != cur ==> near_scored(m, g, gv[v], v, 6)
    &&& vis.contains(cur) ==> near_scored(m, g, gv[cur], cur, upto)
    &&& forall|n: Hex| #[trigger] g.contains_key(n) && !vis.contains(n) ==> keyed(open, n, g[n] + n.dist(to))
    &&& forall|k: int|
        0 <= k < open.len() ==> g.contains_key(#[trigger] open[k].0) && open[k].1 >= g[open[k].0] + open[k].0.dist(
            to,
        )
}

/// Index of a queue entry with the smallest score.
fn min_index(open: &Vec<(Hex, i32)>) -> (i: usize)
    requires
        open@.len() > 0,
    ensures
        i < open@.len(),
        forall|k: int| 0 <= k < open@.len() ==> open@[i as int].1 <= #[trigger] open@[k].1,
{
    let mut best: usize = 0;
    let mut k: usize = 1;
    while k < open.len()
        invariant
            open@.len() > 0,
            best < open@.len(),
            1 <= k <= open@.len(),
            forall|j: int| 0 <= j < k ==> open@[best as int].1 <= #[trigger] open@[j].1,
        decreases open@.len() - k,
    {
        if open[k].1 < open[best].1 {
            best = k;
        }
        k = k + 1;
    }
    best
}

/// `b` is recorded as the predecessor of `a`.
pub open spec fn pred_is(came: Map<Hex, Hex>, a: Hex, b: Hex) -> bool {
    came.contains_key(a) && came[a] == b
}

/// Each hex of `s` after the first has the one before it as predecessor.
pub open spec fn linked_back(came: Map<Hex, Hex>, s: Seq<Hex>) -> bool {
    forall|i: int, j: int|
        #![trigger s[i], s[j]]
        0 <= i < j < s.len() && j <= i + 1 ==> pred_is(came, s[j], s[i])
}

/// Each hex of `s` but the last has the next one as predecessor.
spec fn linked_forward(came: Map<Hex, Hex>, s: Seq<Hex>) -> bool {
    forall|i: int, j: int|
        #![trigger s[i], s[j]]
        0 <= i < j < s.len() && j <= i + 1 ==> pred_is(came, s[i], s[j])
}

proof fn lemma_linked_forward_push(came: Map<Hex, Hex>, s: Seq<Hex>, x: Hex)
    requires
        linked_forward(came, s),
        s.len() >= 1,
        came.contains_key(s[s.len() - 1]),
        came[s[s.len() - 1]] == x,
    ensures
        linked_forward(came, s.push(x)),
{
    let t = s.push(x);
    assert forall|i: int, j: int|
        #![trigger t[i], t[j]]
        0 <= i < j < t.len() && j <= i + 1 implies pred_is(came, t[i], t[j]) by {
        assert(t[i] == s[i]);
        if j < s.len() {
            assert(t[j] == s[j]);
        }
    }
}

proof fn lemma_linked_reverse(came: Map<Hex, Hex>, s: Seq<Hex>, r: Seq<Hex>)
    requires
        linked_forward(came, s),
        r.len() == s.len(),
        forall|i: int| 0 <= i < r.len() ==> #[trigger] r[i] == s[s.len() - 1 - i],
    ensures
        linked_back(came, r),
{
    let n = s.len();
    assert forall|i: int, j: int|
        #![trigger r[i], r[j]]
        0 <= i < j < r.len() && j <= i + 1 implies pred_is(came, r[j], r[i]) by {
        assert(r[j] == s[n - 1 - j]);
        assert(r[i] == s[n - 1 - i]);
        let a = n - 1 - j;
        let b = n - 1 - i;
        assert(b == a + 1);
        assert(s[a] == s[a]);
        assert(s[b] == s[b]);
    }
}

/// Follow predecessors back from `start` until a hex without one.
fn reconstruct_path(came_from: &HexGrid<Hex>, start: Hex, Ghost(g): Ghost<Map<Hex, i32>>) -> (path: Vec<
    Hex,
>)
    requires
        came_from.wf(),
        g.contains_key(start),
        forall|n: Hex| #[trigger]
            came_from@.contains_key(n) ==> g.contains_key(n) && g.contains_key(came_from@[n])
                && g[came_from@[n]] < g[n],
        forall|n: Hex| #[trigger] g.contains_key(n) ==> g[n] >= 0,
    ensures
        path@.len() >= 1,
        path@[path@.len() - 1] == start,
        !came_from@.contains_key(path@[0]),
        linked_back(came_from@, path@),
{
    let mut rev: Vec<Hex> = vec![start];
    let mut current = start;
    let mut done = false;
    while !done
        invariant
            came_from.wf(),
            g.contains_key(current),
            forall|n: Hex| #[trigger]
                came_from@.contains_key(n) ==> g.contains_key(n) && g.contains_key(came_from@[n])
                    && g[came_from@[n]] < g[n],
            forall|n: Hex| #[trigger] g.contains_key(n) ==> g[n] >= 0,
            rev@.len() >= 1,
            rev@[0] == start,
            rev@[rev@.len() - 1] == current,
            done ==> !came_from@.contains_key(current),
            linked_forward(came_from@, rev@),
        decreases (if done { 0int } else { 1int }), g[current],
    {
        match came_from.get(current) {
            Some(prev) => {
                let p = *prev;
                proof {
                    lemma_linked_forward_push(came_from@, rev@, p);
                }
                rev.push(p);
                current = p;
            },
            None => {
                done = true;
            },
        }
    }
    let n = rev.len();
    let mut path: Vec<Hex> = Vec::new();
    let mut j: usize = 0;
    while j < n
        invariant
            n == rev@.len(),
            j <= n,
            path@.len() == j,
            forall|i: int| 0 <= i < j ==> #[trigger] path@[i] == rev@[n - 1 - i],
        decreases n - j,
    {
        path.push(rev[n - 1 - j]);
        j = j + 1;
    }
    proof {
        lemma_linked_reverse(came_from@, rev@, path@);
    }
    path
}

/// Walks that start inside a set closed under walkable steps stay inside it.
proof fn lemma_walk_stays<T: Tile>(
    m: Map<Hex, T>,
    from: Hex,
    to: Hex,
    p: Seq<Hex>,
    s: Set<Hex>,
    i: int,
)
    requires
        is_walk(m, from, to, p),
        0 <= i < p.len(),
        s.contains(from),
        forall|v: Hex, d: int|
            #![trigger s.contains(v), v.plus(spec_direction(d))]
            s.contains(v) && 0 <= d < 6 && walkable_at(m, v.plus(spec_direction(d))) ==> s.contains(
                v.plus(spec_direction(d)),
            ),
    ensures
        s.contains(p[i]),
    decreases i,
{
    if i > 0 {
        lemma_walk_stays(m, from, to, p, s, i - 1);
        assert(adjacent(p[i - 1], p[i]));
        let d = choose|d: int| 0 <= d < 6 && #[trigger] p[i - 1].plus(spec_direction(d)) == p[i];
        assert(walkable_at(m, p[i]));
        assert(s.contains(p[i - 1].plus(spec_direction(d))));
    }
}

/// A* pathfinding between two hexes: a shortest walk from `from` to `to`
/// through walkable tiles, or `None` when there is none.
///
/// Scores and queue keys are `i32`: a score is at most the number of hexes
/// visited and a key adds a distance of at most `2 * COORD_LIMIT`, so the
/// grid is bounded to fewer than `2^28` tiles to keep every key below
/// `i32::MAX`.
#[verifier::spinoff_prover]
#[verifier::rlimit(80)]
pub fn pathfind<T: Tile>(grid: &HexGrid<T>, from: Hex, to: Hex) -> (path: Option<Vec<Hex>>)
    requires
        grid.wf(),
        from.within_limit(),
        to.within_limit(),
        forall|h: Hex| #[trigger] grid@.contains_key(h) ==> h.within_limit(),
        grid@.dom().len() < 0x1000_0000,
    ensures
        from == to ==> (path matches Some(p) && p@ == seq![from]),
        match path {
            Some(p) => {
                &&& is_walk(grid@, from, to, p@)
                &&& forall|q: Seq<Hex>| #[trigger] is_walk(grid@, from, to, q) ==> p@.len() <= q.len()
            },
            None => forall|p: Seq<Hex>| !#[trigger] is_walk(grid@, from, to, p),
        },
{
    if from == to {
        return Some(vec![from]);
    }
    let target_ok = match grid.get(to) {
        Some(tile) => tile.is_walkable(),
        None => false,
    };
    if !target_ok {
        proof {
            assert forall|p: Seq<Hex>| !#[trigger] is_walk(grid@, from, to, p) by {
                if is_walk(grid@, from, to, p) {
                    assert(p.len() >= 2);
                    assert(walkable_at(grid@, p[p.len() - 1]));
                }
            }
        }
        return None;
    }
    let ghost m = grid@;
    let ghost bound = grid@.dom().insert(from);
    proof {
        grid.lemma_finite();
        assert(bound.len() <= grid@.dom().len() + 1) by {
            if grid@.dom().contains(from) {
                assert(bound =~= grid@.dom());
            }
        }
    }
    let mut open: Vec<(Hex, i32)> = Vec::new();
    let mut came_from: HexGrid<Hex> = HexGrid::new();
    let mut g_score: HexGrid<i32> = HexGrid::new();
    let mut visited: HexGrid<bool> = HexGrid::new();
    g_score.set(from, 0);
    open.push((from, from.distance(to)));
    proof {
        visited.lemma_finite();
        assert(visited@.dom() =~= Set::<Hex>::empty());
        assert(queued(open@, from)) by {
            assert(open@[0].0 == from);
        }
    }
    let ghost mut gv: Map<Hex, int> = Map::empty();
    proof {
        reveal(search_inv);
        reveal(best_inv);
        assert(keyed(open@, from, g_score@[from] + from.dist(to))) by {
            assert(open@[0] == (from, from.dist(to) as i32));
        }
    }
    while open.len() > 0
        invariant
            grid.wf(),
            came_from.wf(),
            g_score.wf(),
            visited.wf(),
            m == grid@,
            bound == grid@.dom().insert(from),
            bound.finite(),
            bound.len() <= grid@.dom().len() + 1,
            grid@.dom().len() < 0x1000_0000,
            from != to,
            from.within_limit(),
            to.within_limit(),
            forall|h: Hex| #[trigger] grid@.contains_key(h) ==> h.within_limit(),
            walkable_at(grid@, to),
            search_inv(grid@, from, to, g_score@, came_from@, visited@.dom(), open@, from, 6),
            best_inv(grid@, from, to, g_score@, gv, visited@.dom(), open@, from, 6),
            visited@.dom().subset_of(bound),
        decreases bound.len() - visited@.dom().len(), open@.len(),
    {
        proof {
            vstd::set_lib::lemma_len_subset(visited@.dom(), bound);
        }
        let idx = min_index(&open);
        let ghost open_before = open@;
        let (current, _) = open.remove(idx);
        assert(open_before[idx as int].0 == current);
        assert(open@ == open_before.remove(idx as int));
        proof {
            lemma_after_pop(grid@, from, to, g_score@, came_from@, visited@.dom(), open_before, idx as int);
            lemma_inv_facts(grid@, from, to, g_score@, came_from@, visited@.dom(), open_before, from, 6);
            lemma_best_pop(grid@, from, to, g_score@, came_from@, gv, visited@.dom(), open_before, idx as int);
        }
        if current == to {
            let p = reconstruct_path(&came_from, current, Ghost(g_score@));
            proof {
                lemma_chain_is_walk(grid@, from, to, g_score@, came_from@, visited@.dom(), open_before, p@);
                lemma_chain_len(came_from@, g_score@, p@, p@.len() - 1);
            }
            return Some(p);
        }
        if visited.contains(current) {
            continue ;
        }
        let ghost vis_before = visited@.dom();
        visited.set(current, true);
        proof {
            assert(visited@.dom() =~= vis_before.insert(current));
            lemma_visit(grid@, from, to, g_score@, came_from@, vis_before, open_before, idx as int, bound);
            lemma_best_visit(grid@, from, to, g_score@, gv, vis_before, open_before, idx as int);
            gv = gv.insert(current, g_score@[current] as int);
        }
        let current_g = match g_score.get(current) {
            Some(g) => *g,
            None => i32::MAX,
        };
        assert(current.within_limit());
        let ns = current.neighbors();
        let mut d: usize = 0;
        while d < 6
            invariant
                grid.wf(),
                came_from.wf(),
                g_score.wf(),
                visited.wf(),
                m == grid@,
                bound == grid@.dom().insert(from),
                bound.finite(),
                visited@.dom().subset_of(bound),
                bound.len() <= grid@.dom().len() + 1,
                grid@.dom().len() < 0x1000_0000,
                from != to,
                current != to,
                from.within_limit(),
                to.within_limit(),
                forall|h: Hex| #[trigger] grid@.contains_key(h) ==> h.within_limit(),
                walkable_at(grid@, to),
                d <= 6,
                visited@.dom() == vis_before.insert(current),
                visited@.dom().len() == vis_before.len() + 1,
                visited@.dom().contains(current),
                g_score@.contains_key(current),
                g_score@[current] == current_g,
                current_g < visited@.dom().len(),
                forall|e: int| 0 <= e < 6 ==> #[trigger] ns@[e] == current.plus(spec_direction(e)),
                search_inv(grid@, from, to, g_score@, came_from@, visited@.dom(), open@, current, d as int),
                best_inv(grid@, from, to, g_score@, gv, visited@.dom(), open@, current, d as int),
            decreases 6 - d,
        {
            let neighbor = ns[d];
            let walkable = match grid.get(neighbor) {
                Some(t) => t.is_walkable(),
                None => false,
            };
            let ghost g_before = g_score@;
            let ghost came_before = came_from@;
            let ghost open_before2 = open@;
            let mut relaxed = false;
            if walkable {
                proof {
                    vstd::set_lib::lemma_len_subset(visited@.dom(), bound);
                }
                let tentative_g = current_g + 1;
                let old_g = match g_score.get(neighbor) {
                    Some(g) => *g,
                    None => i32::MAX,
                };
                if tentative_g < old_g {
                    came_from.set(neighbor, current);
                    g_score.set(neighbor, tentative_g);
                    let f = tentative_g + neighbor.distance(to);
                    open.push((neighbor, f));
                    relaxed = true;
                    proof {
                        lemma_relax(
                            grid@,
                            from,
                            to,
                            g_before,
                            came_before,
                            visited@.dom(),
                            open_before2,
                            current,
                            d as int,
                            neighbor,
                            tentative_g,
                            f,
                        );
                        lemma_best_relax(
                            grid@,
                            from,
                            to,
                            g_before,
                            gv,
                            visited@.dom(),
                            open_before2,
                            current,
                            d as int,
                            neighbor,
                            tentative_g,
                            f,
                        );
                    }
                }
            }
            proof {
                if !relaxed {
                    lemma_no_relax(grid@, from, to, g_score@, came_from@, visited@.dom(), open@, current, d as int);
                    lemma_best_no_relax(grid@, from, to, g_score@, gv, visited@.dom(), open@, current, d as int);
                }
            }
            d = d + 1;
        }
        proof {
            lemma_done_current(grid@, from, to, g_score@, came_from@, visited@.dom(), open@, current);
            lemma_best_done(grid@, from, to, g_score@, gv, visited@.dom(), open@, current);
            vstd::set_lib::lemma_len_subset(visited@.dom(), bound);
            vstd::set_lib::lemma_len_subset(vis_before, bound);
        }
    }
    proof {
        lemma_exhausted(grid@, from, to, g_score@, came_from@, visited@.dom(), open@);
    }
    None
}

/// Facts about the queue after the entry at `idx` is taken out.
proof fn lemma_after_pop<T: Tile>(
    m: Map<Hex, T>,
    from: Hex,
    to: Hex,
    g: Map<Hex, i32>,
    came: Map<Hex, Hex>,
    vis: Set<Hex>,
    open: Seq<(Hex, i32)>,
    idx: int,
)
    requires
        search_inv(m, from, to, g, came, vis, open, from, 6),
        0 <= idx < open.len(),
    ensures
        g.contains_key(open[idx].0),
        vis.contains(open[idx].0) ==> search_inv(m, from, to, g, came, vis, open.remove(idx), from, 6),
{
    reveal(search_inv);
    let o2 = open.remove(idx);
    let cur = open[idx].0;
    if vis.contains(cur) {
        assert forall|n: Hex| #[trigger] g.contains_key(n) && !vis.contains(n) implies queued(o2, n) by {
            let k = choose|k: int| 0 <= k < open.len() && #[trigger] open[k].0 == n;
            if k < idx {
                assert(o2[k] == open[k]);
            } else {
                assert(k != idx);
                assert(o2[k - 1] == open[k]);
            }
        }
        assert forall|k: int| 0 <= k < o2.len() implies g.contains_key(#[trigger] o2[k].0) by {
            if k < idx {
                assert(o2[k] == open[k]);
            } else {
                assert(o2[k] == open[k + 1]);
            }
        }
    }
}

/// Marking the popped hex visited starts the scoring of its neighbors.
#[verifier::spinoff_prover]
#[verifier::rlimit(40)]
proof fn lemma_visit<T: Tile>(
    m: Map<Hex, T>,
    from: Hex,
    to: Hex,
    g: Map<Hex, i32>,
    came: Map<Hex, Hex>,
    vis: Set<Hex>,
    open: Seq<(Hex, i32)>,
    idx: int,
    bound: Set<Hex>,
)
    requires
        search_inv(m, from, to, g, came, vis, open, from, 6),
        0 <= idx < open.len(),
        !vis.contains(open[idx].0),
        open[idx].0 != to,
        bound == m.dom().insert(from),
        bound.finite(),
        vis.subset_of(bound),
    ensures
        search_inv(m, from, to, g, came, vis.insert(open[idx].0), open.remove(idx), open[idx].0, 0),
        g.contains_key(open[idx].0),
        g[open[idx].0] < vis.insert(open[idx].0).len(),
        vis.insert(open[idx].0).subset_of(bound),
        vis.insert(open[idx].0).len() == vis.len() + 1,
{
    reveal(search_inv);
    let cur = open[idx].0;
    let o2 = open.remove(idx);
    let v2 = vis.insert(cur);
    assert forall|n: Hex| #[trigger] g.contains_key(n) && !v2.contains(n) implies queued(o2, n) by {
        let k = choose|k: int| 0 <= k < open.len() && #[trigger] open[k].0 == n;
        if k < idx {
            assert(o2[k] == open[k]);
        } else {
            assert(k != idx);
            assert(o2[k - 1] == open[k]);
        }
    }
    assert forall|k: int| 0 <= k < o2.len() implies g.contains_key(#[trigger] o2[k].0) by {
        if k < idx {
            assert(o2[k] == open[k]);
        } else {
            assert(o2[k] == open[k + 1]);
        }
    }
    assert(g.contains_key(cur));
    assert forall|n: Hex| v2.contains(n) implies bound.contains(n) by {
        if n == cur {
            assert(g.contains_key(n));
        }
    }
}

/// A neighbor that is not relaxed already has a score, or cannot be entered.
proof fn lemma_no_relax<T: Tile>(
    m: Map<Hex, T>,
    from: Hex,
    to: Hex,
    g: Map<Hex, i32>,
    came: Map<Hex, Hex>,
    vis: Set<Hex>,
    open: Seq<(Hex, i32)>,
    cur: Hex,
    d: int,
)
    requires
        search_inv(m, from, to, g, came, vis, open, cur, d),
        0 <= d < 6,
        vis.finite(),
        walkable_at(m, cur.plus(spec_direction(d))) ==> g.contains_key(cur.plus(spec_direction(d))),
    ensures
        search_inv(m, from, to, g, came, vis, open, cur, d + 1),
{
    reveal(search_inv);
}

/// Once all six directions are scored, the hex being expanded is no longer special.
proof fn lemma_done_current<T: Tile>(
    m: Map<Hex, T>,
    from: Hex,
    to: Hex,
    g: Map<Hex, i32>,
    came: Map<Hex, Hex>,
    vis: Set<Hex>,
    open: Seq<(Hex, i32)>,
    cur: Hex,
)
    requires
        search_inv(m, from, to, g, came, vis, open, cur, 6),
    ensures
        search_inv(m, from, to, g, came, vis, open, from, 6),
{
    reveal(search_inv);
    assert forall|v: Hex| #[trigger] vis.contains(v) && v != from implies neighbors_scored(m, g, v, 6) by {
        if v == cur {
        }
    }
}

/// What the search state says of scores and predecessors.
proof fn lemma_inv_facts<T: Tile>(
    m: Map<Hex, T>,
    from: Hex,
    to: Hex,
    g: Map<Hex, i32>,
    came: Map<Hex, Hex>,
    vis: Set<Hex>,
    open: Seq<(Hex, i32)>,
    cur: Hex,
    upto: int,
)
    requires
        search_inv(m, from, to, g, came, vis, open, cur, upto),
    ensures
        forall|n: Hex| #[trigger]
            came.contains_key(n) ==> g.contains_key(n) && g.contains_key(came[n]) && g[came[n]] < g[n],
        forall|n: Hex| #[trigger] g.contains_key(n) ==> g[n] >= 0,
        forall|n: Hex| #[trigger] g.contains_key(n) ==> n == from || walkable_at(m, n),
        forall|n: Hex| #[trigger] came.contains_key(n) ==> adjacent(came[n], n) && walkable_at(m, n),
        forall|n: Hex| g.contains_key(n) && n != from ==> #[trigger] came.contains_key(n),
        !came.contains_key(from),
        vis.finite(),
{
    reveal(search_inv);
}

/// The predecessor chain from the target is a walk from the start.
#[verifier::spinoff_prover]
#[verifier::rlimit(80)]
proof fn lemma_chain_is_walk<T: Tile>(
    m: Map<Hex, T>,
    from: Hex,
    to: Hex,
    g: Map<Hex, i32>,
    came: Map<Hex, Hex>,
    vis: Set<Hex>,
    open: Seq<(Hex, i32)>,
    p: Seq<Hex>,
)
    requires
        search_inv(m, from, to, g, came, vis, open, from, 6),
        g.contains_key(to),
        p.len() >= 1,
        p[p.len() - 1] == to,
        !came.contains_key(p[0]),
        linked_back(came, p),
    ensures
        is_walk(m, from, to, p),
{
    lemma_inv_facts(m, from, to, g, came, vis, open, from, 6);
    assert(g.contains_key(p[0])) by {
        if p.len() > 1 {
            assert(pred_is(came, p[1], p[0]));
        }
    }
    assert(p[0] == from);
    assert forall|i: int, j: int|
        #![trigger p[i], p[j]]
        0 <= i < j < p.len() && j <= i + 1 implies adjacent(p[i], p[j]) by {
        assert(pred_is(came, p[j], p[i]));
    }
    assert forall|i: int| 1 <= i < p.len() implies walkable_at(m, #[trigger] p[i]) by {
        let h = i - 1;
        assert(pred_is(came, p[i], p[h]));
    }
}

/// An empty queue means every hex reachable from the start was visited, and
/// the target was not.
proof fn lemma_exhausted<T: Tile>(
    m: Map<Hex, T>,
    from: Hex,
    to: Hex,
    g: Map<Hex, i32>,
    came: Map<Hex, Hex>,
    vis: Set<Hex>,
    open: Seq<(Hex, i32)>,
)
    requires
        search_inv(m, from, to, g, came, vis, open, from, 6),
        open.len() == 0,
    ensures
        forall|p: Seq<Hex>| !#[trigger] is_walk(m, from, to, p),
{
    reveal(search_inv);
    assert forall|v: Hex, d: int|
        #![trigger vis.contains(v), v.plus(spec_direction(d))]
        vis.contains(v) && 0 <= d < 6 && walkable_at(m, v.plus(spec_direction(d))) implies vis.contains(
        v.plus(spec_direction(d)),
    ) by {
        if v != from {
            assert(neighbors_scored(m, g, v, 6));
        }
        assert(g.contains_key(v.plus(spec_direction(d))));
        if !vis.contains(v.plus(spec_direction(d))) {
            assert(queued(open, v.plus(spec_direction(d))));
        }
    }
    assert(vis.contains(from)) by {
        if !vis.contains(from) {
            assert(queued(open, from));
        }
    }
    assert forall|p: Seq<Hex>| !#[trigger] is_walk(m, from, to, p) by {
        if is_walk(m, from, to, p) {
            lemma_walk_stays(m, from, to, p, vis, p.len() - 1);
        }
    }
}

/// Relaxing the edge from `cur` to its walkable neighbor keeps the search state.
proof fn lemma_relax<T: Tile>(
    m: Map<Hex, T>,
    from: Hex,
    to: Hex,
    g: Map<Hex, i32>,
    came: Map<Hex, Hex>,
    vis: Set<Hex>,
    open: Seq<(Hex, i32)>,
    cur: Hex,
    d: int,
    nb: Hex,
    t: i32,
    f: i32,
)
    requires
        search_inv(m, from, to, g, came, vis, open, cur, d),
        0 <= d < 6,
        vis.contains(cur),
        g.contains_key(cur),
        nb == cur.plus(spec_direction(d)),
        walkable_at(m, nb),
        t == g[cur] + 1,
        g[cur] < vis.len(),
        !g.contains_key(nb) || t < g[nb],
        from != to,
    ensures
        search_inv(
            m,
            from,
            to,
            g.insert(nb, t),
            came.insert(nb, cur),
            vis,
            open.push((nb, f)),
            cur,
            d + 1,
        ),
{
    reveal(search_inv);
    let g2 = g.insert(nb, t);
    let c2 = came.insert(nb, cur);
    let o2 = open.push((nb, f));
    assert(nb != from) by {
        if nb == from {
            assert(g[from] == 0);
        }
    }
    assert(adjacent(cur, nb));
    assert(queued(o2, nb)) by {
        assert(o2[open.len() as int].0 == nb);
    }
    assert forall|n: Hex| #[trigger] g2.contains_key(n) && !vis.contains(n) implies queued(o2, n) by {
        if n != nb {
            let k = choose|k: int| 0 <= k < open.len() && #[trigger] open[k].0 == n;
            assert(o2[k] == open[k]);
        }
    }
    assert forall|k: int| 0 <= k < o2.len() implies g2.contains_key(#[trigger] o2[k].0) by {
        if k < open.len() {
            assert(o2[k] == open[k]);
        }
    }
    assert forall|v: Hex| #[trigger] vis.contains(v) && v != cur implies neighbors_scored(m, g2, v, 6) by {
        assert(neighbors_scored(m, g, v, 6));
    }
    assert(neighbors_scored(m, g2, cur, d + 1));
    assert forall|n: Hex| #[trigger] c2.contains_key(n) implies {
        &&& g2.contains_key(n)
        &&& g2.contains_key(c2[n])
        &&& adjacent(c2[n], n)
        &&& walkable_at(m, n)
        &&& g2[c2[n]] < g2[n]
    } by {
        if n != nb {
            assert(came.contains_key(n));
            if came[n] == nb {
                assert(g[nb] < g[n]);
            }
        }
    }
}

/// One step changes the distance to a hex by at most one.
proof fn lemma_step_heuristic(a: Hex, d: int, t: Hex)
    requires
        0 <= d < 6,
        a.within_limit(),
        t.within_limit(),
    ensures
        a.dist(t) <= a.plus(spec_direction(d)).dist(t) + 1,
{
    let b = a.plus(spec_direction(d));
    let e = spec_direction(d);
    assert(b.x == a.x + e.x && b.y == a.y + e.y && b.z == a.z + e.z);
    assert(abs(e.x as int) + abs(e.y as int) + abs(e.z as int) == 2);
    let sa = abs(a.x - t.x) + abs(a.y - t.y) + abs(a.z - t.z);
    let sb = abs(b.x - t.x) + abs(b.y - t.y) + abs(b.z - t.z);
    assert(sa <= sb + 2);
    assert(sa / 2 <= (sb + 2) / 2);
    assert((sb + 2) / 2 == sb / 2 + 1);
}

/// Along a walk, the distance to a hex falls by at most one per step.
proof fn lemma_walk_heuristic<T: Tile>(m: Map<Hex, T>, from: Hex, u: Hex, q: Seq<Hex>, j: int, t: Hex)
    requires
        is_walk(m, from, u, q),
        0 <= j < q.len(),
        from.within_limit(),
        t.within_limit(),
        forall|h: Hex| #[trigger] m.contains_key(h) ==> h.within_limit(),
    ensures
        q[j].dist(t) <= (q.len() - 1 - j) + u.dist(t),
    decreases q.len() - j,
{
    if j < q.len() - 1 {
        lemma_walk_heuristic(m, from, u, q, j + 1, t);
        let a = q[j];
        let b = q[j + 1];
        assert(adjacent(a, b));
        let d = choose|d: int| 0 <= d < 6 && #[trigger] a.plus(spec_direction(d)) == b;
        assert(a.within_limit()) by {
            if j > 0 {
                assert(walkable_at(m, q[j]));
            }
        }
        lemma_step_heuristic(a, d, t);
    }
}

/// A prefix of a walk is a walk to its last hex.
proof fn lemma_prefix_walk<T: Tile>(m: Map<Hex, T>, from: Hex, u: Hex, q: Seq<Hex>, i: int)
    requires
        is_walk(m, from, u, q),
        0 <= i < q.len(),
    ensures
        is_walk(m, from, q[i], q.take(i + 1)),
{
    let r = q.take(i + 1);
    assert(r[0] == q[0]);
    assert(r[r.len() - 1] == q[i]);
    assert forall|a: int, b: int| #![trigger r[a], r[b]] 0 <= a < b < r.len() && b <= a + 1 implies adjacent(
        r[a],
        r[b],
    ) by {
        assert(r[a] == q[a] && r[b] == q[b]);
    }
    assert forall|a: int| 1 <= a < r.len() implies walkable_at(m, #[trigger] r[a]) by {
        assert(r[a] == q[a]);
    }
}

/// The last index at or before `j` whose hex is visited, or -1.
proof fn lemma_last_visited(q: Seq<Hex>, vis: Set<Hex>, j: int) -> (i: int)
    requires
        -1 <= j < q.len(),
    ensures
        -1 <= i <= j,
        i >= 0 ==> vis.contains(q[i]),
        forall|k: int| i < k <= j ==> !vis.contains(#[trigger] q[k]),
    decreases j + 1,
{
    if j < 0 {
        -1
    } else if vis.contains(q[j]) {
        j
    } else {
        lemma_last_visited(q, vis, j - 1)
    }
}

/// Some queue entry has a key no larger than the steps of any walk to an
/// unvisited hex plus that hex's distance to the target.
#[verifier::spinoff_prover]
proof fn lemma_frontier<T: Tile>(
    m: Map<Hex, T>,
    from: Hex,
    to: Hex,
    g: Map<Hex, i32>,
    came: Map<Hex, Hex>,
    gv: Map<Hex, int>,
    vis: Set<Hex>,
    open: Seq<(Hex, i32)>,
    u: Hex,
    q: Seq<Hex>,
)
    requires
        search_inv(m, from, to, g, came, vis, open, from, 6),
        best_inv(m, from, to, g, gv, vis, open, from, 6),
        is_walk(m, from, u, q),
        !vis.contains(u),
        from.within_limit(),
        to.within_limit(),
        forall|h: Hex| #[trigger] m.contains_key(h) ==> h.within_limit(),
    ensures
        exists|k: int| 0 <= k < open.len() && #[trigger] open[k].1 <= q.len() - 1 + u.dist(to),
{
    reveal(search_inv);
    reveal(best_inv);
    let last = q.len() - 1;
    let i = lemma_last_visited(q, vis, last);
    assert(i < last) by {
        if i == last {
            assert(q[last] == u);
        }
    }
    let w = q[i + 1];
    assert(!vis.contains(w));
    assert(g.contains_key(w) && g[w] <= i + 1) by {
        if i >= 0 {
            let v = q[i];
            lemma_prefix_walk(m, from, u, q, i);
            assert(gv[v] <= q.take(i + 1).len() - 1);
            assert(adjacent(v, w));
            let d = choose|d: int| 0 <= d < 6 && #[trigger] v.plus(spec_direction(d)) == w;
            assert(walkable_at(m, q[i + 1]));
            if v != from {
                assert(near_scored(m, g, gv[v], v, 6));
            }
            assert(walkable_at(m, v.plus(spec_direction(d))));
        } else {
            assert(w == from);
        }
    }
    lemma_walk_heuristic(m, from, u, q, i + 1, to);
    assert(keyed(open, w, g[w] + w.dist(to)));
    let k = choose|k: int| 0 <= k < open.len() && #[trigger] open[k].0 == w && open[k].1 == g[w] + w.dist(to);
    assert(open[k].1 <= q.len() - 1 + u.dist(to));
}

/// Taking the entry with the smallest key: an unvisited hex's score is then
/// no more than the steps of any walk to it; a visited one changes nothing.
proof fn lemma_best_pop<T: Tile>(
    m: Map<Hex, T>,
    from: Hex,
    to: Hex,
    g: Map<Hex, i32>,
    came: Map<Hex, Hex>,
    gv: Map<Hex, int>,
    vis: Set<Hex>,
    open: Seq<(Hex, i32)>,
    idx: int,
)
    requires
        search_inv(m, from, to, g, came, vis, open, from, 6),
        best_inv(m, from, to, g, gv, vis, open, from, 6),
        0 <= idx < open.len(),
        forall|k: int| 0 <= k < open.len() ==> open[idx].1 <= #[trigger] open[k].1,
        from.within_limit(),
        to.within_limit(),
        forall|h: Hex| #[trigger] m.contains_key(h) ==> h.within_limit(),
    ensures
        !vis.contains(to),
        !vis.contains(open[idx].0) ==> forall|q: Seq<Hex>|
            #[trigger] is_walk(m, from, open[idx].0, q) ==> g[open[idx].0] <= q.len() - 1,
        vis.contains(open[idx].0) ==> best_inv(m, from, to, g, gv, vis, open.remove(idx), from, 6),
{
    let u = open[idx].0;
    assert(!vis.contains(to)) by {
        reveal(search_inv);
    }
    if !vis.contains(u) {
        assert forall|q: Seq<Hex>| #[trigger] is_walk(m, from, u, q) implies g[u] <= q.len() - 1 by {
            lemma_frontier(m, from, to, g, came, gv, vis, open, u, q);
            let k = choose|k: int| 0 <= k < open.len() && #[trigger] open[k].1 <= q.len() - 1 + u.dist(to);
            assert(open[idx].1 <= open[k].1);
            reveal(best_inv);
            assert(open[idx].1 >= g[u] + u.dist(to));
        }
    } else {
        reveal(best_inv);
        let o2 = open.remove(idx);
        assert forall|n: Hex| #[trigger] g.contains_key(n) && !vis.contains(n) implies keyed(
            o2,
            n,
            g[n] + n.dist(to),
        ) by {
            let k = choose|k: int| 0 <= k < open.len() && #[trigger] open[k].0 == n && open[k].1 == g[n] + n.dist(to);
            if k < idx {
                assert(o2[k] == open[k]);
            } else {
                assert(k != idx);
                assert(o2[k - 1] == open[k]);
            }
        }
        assert forall|k: int| 0 <= k < o2.len() implies g.contains_key(#[trigger] o2[k].0) && o2[k].1 >= g[o2[k].0]
            + o2[k].0.dist(to) by {
            if k < idx {
                assert(o2[k] == open[k]);
            } else {
                assert(o2[k] == open[k + 1]);
            }
        }
    }
}

/// Visiting the popped hex records its score, which no walk undercuts.
proof fn lemma_best_visit<T: Tile>(
    m: Map<Hex, T>,
    from: Hex,
    to: Hex,
    g: Map<Hex, i32>,
    gv: Map<Hex, int>,
    vis: Set<Hex>,
    open: Seq<(Hex, i32)>,
    idx: int,
)
    requires
        best_inv(m, from, to, g, gv, vis, open, from, 6),
        0 <= idx < open.len(),
        !vis.contains(open[idx].0),
        forall|q: Seq<Hex>| #[trigger] is_walk(m, from, open[idx].0, q) ==> g[open[idx].0] <= q.len() - 1,
    ensures
        best_inv(
            m,
            from,
            to,
            g,
            gv.insert(open[idx].0, g[open[idx].0] as int),
            vis.insert(open[idx].0),
            open.remove(idx),
            open[idx].0,
            0,
        ),
{
    reveal(best_inv);
    let u = open[idx].0;
    let gv2 = gv.insert(u, g[u] as int);
    let v2 = vis.insert(u);
    let o2 = open.remove(idx);
    assert(g.contains_key(u));
    assert forall|v: Hex| #[trigger] v2.contains(v) implies gv2.contains_key(v) && g.contains_key(v) && g[v] <= gv2[v] by {
        if v != u {
            assert(vis.contains(v));
        }
    }
    assert forall|v: Hex, q: Seq<Hex>| v2.contains(v) && #[trigger] is_walk(m, from, v, q) implies gv2[v] <= q.len() - 1 by {
        if v != u {
            assert(vis.contains(v));
        }
    }
    assert forall|v: Hex| #[trigger] v2.contains(v) && v != u implies near_scored(m, g, gv2[v], v, 6) by {
        assert(vis.contains(v));
        assert(gv2[v] == gv[v]);
        if v == from {
            assert(near_scored(m, g, gv[from], from, 6));
        }
    }
    assert forall|n: Hex| #[trigger] g.contains_key(n) && !v2.contains(n) implies keyed(o2, n, g[n] + n.dist(to)) by {
        let k = choose|k: int| 0 <= k < open.len() && #[trigger] open[k].0 == n && open[k].1 == g[n] + n.dist(to);
        if k < idx {
            assert(o2[k] == open[k]);
        } else {
            assert(k != idx);
            assert(o2[k - 1] == open[k]);
        }
    }
    assert forall|k: int| 0 <= k < o2.len() implies g.contains_key(#[trigger] o2[k].0) && o2[k].1 >= g[o2[k].0]
        + o2[k].0.dist(to) by {
        if k < idx {
            assert(o2[k] == open[k]);
        } else {
            assert(o2[k] == open[k + 1]);
        }
    }
}

/// Relaxing a neighbor of the expanded hex keeps the shortest-walk facts.
proof fn lemma_best_relax<T: Tile>(
    m: Map<Hex, T>,
    from: Hex,
    to: Hex,
    g: Map<Hex, i32>,
    gv: Map<Hex, int>,
    vis: Set<Hex>,
    open: Seq<(Hex, i32)>,
    cur: Hex,
    d: int,
    nb: Hex,
    t: i32,
    f: i32,
)
    requires
        best_inv(m, from, to, g, gv, vis, open, cur, d),
        0 <= d < 6,
        vis.contains(cur),
        g.contains_key(cur),
        nb == cur.plus(spec_direction(d)),
        t == g[cur] + 1,
        !g.contains_key(nb) || t < g[nb],
        f == t + nb.dist(to),
    ensures
        best_inv(m, from, to, g.insert(nb, t), gv, vis, open.push((nb, f)), cur, d + 1),
{
    reveal(best_inv);
    let g2 = g.insert(nb, t);
    let o2 = open.push((nb, f));
    assert forall|v: Hex| #[trigger] vis.contains(v) implies gv.contains_key(v) && g2.contains_key(v) && g2[v] <= gv[v] by {
    }
    assert forall|v: Hex| #[trigger] vis.contains(v) && v != cur implies near_scored(m, g2, gv[v], v, 6) by {
        assert(near_scored(m, g, gv[v], v, 6));
        assert forall|e: int| 0 <= e < 6 && walkable_at(m, #[trigger] v.plus(spec_direction(e))) implies g2.contains_key(
            v.plus(spec_direction(e)),
        ) && g2[v.plus(spec_direction(e))] <= gv[v] + 1 by {
            assert(g.contains_key(v.plus(spec_direction(e))));
        }
    }
    assert(near_scored(m, g2, gv[cur], cur, d + 1)) by {
        assert(near_scored(m, g, gv[cur], cur, d));
        assert forall|e: int| 0 <= e < d + 1 && walkable_at(m, #[trigger] cur.plus(spec_direction(e))) implies g2.contains_key(
            cur.plus(spec_direction(e)),
        ) && g2[cur.plus(spec_direction(e))] <= gv[cur] + 1 by {
            if e < d {
                assert(g.contains_key(cur.plus(spec_direction(e))));
            }
        }
    }
    assert forall|n: Hex| #[trigger] g2.contains_key(n) && !vis.contains(n) implies keyed(o2, n, g2[n] + n.dist(to)) by {
        if n == nb {
            assert(o2[open.len() as int] == (nb, f));
            assert(o2[open.len() as int].0 == n && o2[open.len() as int].1 == g2[n] + n.dist(to));
        } else {
            let k = choose|k: int| 0 <= k < open.len() && #[trigger] open[k].0 == n && open[k].1 == g[n] + n.dist(to);
            assert(o2[k] == open[k]);
            assert(o2[k].0 == n && o2[k].1 == g2[n] + n.dist(to));
        }
    }
    assert forall|k: int| 0 <= k < o2.len() implies g2.contains_key(#[trigger] o2[k].0) && o2[k].1 >= g2[o2[k].0]
        + o2[k].0.dist(to) by {
        if k < open.len() {
            assert(o2[k] == open[k]);
        } else {
            assert(o2[k] == (nb, f));
        }
    }
}

/// A neighbor left alone is already scored within one step, or cannot be entered.
proof fn lemma_best_no_relax<T: Tile>(
    m: Map<Hex, T>,
    from: Hex,
    to: Hex,
    g: Map<Hex, i32>,
    gv: Map<Hex, int>,
    vis: Set<Hex>,
    open: Seq<(Hex, i32)>,
    cur: Hex,
    d: int,
)
    requires
        best_inv(m, from, to, g, gv, vis, open, cur, d),
        0 <= d < 6,
        vis.contains(cur),
        walkable_at(m, cur.plus(spec_direction(d))) ==> g.contains_key(cur.plus(spec_direction(d))) && g.contains_key(cur)
            && g[cur.plus(spec_direction(d))] <= g[cur] + 1,
    ensures
        best_inv(m, from, to, g, gv, vis, open, cur, d + 1),
{
    reveal(best_inv);
    assert(g[cur] <= gv[cur]);
    assert(near_scored(m, g, gv[cur], cur, d));
}

/// Once all six directions are handled, the expanded hex is no longer special.
proof fn lemma_best_done<T: Tile>(
    m: Map<Hex, T>,
    from: Hex,
    to: Hex,
    g: Map<Hex, i32>,
    gv: Map<Hex, int>,
    vis: Set<Hex>,
    open: Seq<(Hex, i32)>,
    cur: Hex,
)
    requires
        best_inv(m, from, to, g, gv, vis, open, cur, 6),
    ensures
        best_inv(m, from, to, g, gv, vis, open, from, 6),
{
    reveal(best_inv);
    assert forall|v: Hex| #[trigger] vis.contains(v) && v != from implies near_scored(m, g, gv[v], v, 6) by {
        if v == cur {
        }
    }
}

/// A predecessor chain with falling nonnegative scores has no more steps
/// than the score of its last hex.
proof fn lemma_chain_len(came: Map<Hex, Hex>, g: Map<Hex, i32>, p: Seq<Hex>, i: int)
    requires
        linked_back(came, p),
        0 <= i < p.len(),
        forall|n: Hex| #[trigger]
            came.contains_key(n) ==> g.contains_key(n) && g.contains_key(came[n]) && g[came[n]] < g[n],
        forall|n: Hex| #[trigger] g.contains_key(n) ==> g[n] >= 0,
        g.contains_key(p[p.len() - 1]),
    ensures
        g.contains_key(p[i]),
        g[p[i]] >= i,
    decreases i,
{
    assert(g.contains_key(p[0])) by {
        if p.len() > 1 {
            assert(pred_is(came, p[1], p[0]));
        }
    }
    if i > 0 {
        lemma_chain_len(came, g, p, i - 1);
        assert(pred_is(came, p[i], p[i - 1]));
    }
}

} // verus!
