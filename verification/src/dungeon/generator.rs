//! Procedural dungeon generation: a field of walls, rooms carved into it, an
//! optional boss room, corridors between the rooms and stairs in the last one.

use rand::rngs::StdRng;
use vstd::prelude::*;

use crate::hex::algorithms::{in_disk, lists_disk, Tile};
use crate::hex::coord::{line_seq, spec_direction};
use crate::hex::{range, Hex, HexGrid};
use crate::random::{random_below, random_between, random_ratio};

verus! {

/// Tile types for the dungeon.
#[derive(Debug, Clone, Copy, PartialEq, Eq, Structural)]
pub enum DungeonTile {
    Floor,
    Wall,
    Stairs,
    /// Special floor for the boss room.
    BossFloor,
}

impl Tile for DungeonTile {
    open spec fn walkable(&self) -> bool {
        *self != DungeonTile::Wall
    }

    open spec fn transparent(&self) -> bool {
        *self != DungeonTile::Wall
    }

    fn is_walkable(&self) -> (b: bool) {
        !matches!(self, DungeonTile::Wall)
    }

    fn is_transparent(&self) -> (b: bool) {
        !matches!(self, DungeonTile::Wall)
    }
}

/// Configuration for dungeon generation.
#[derive(Debug, Clone)]
pub struct DungeonConfig {
    pub width: i32,
    pub height: i32,
    pub num_rooms: usize,
    pub floor_number: i32,
    /// Whether to generate a boss room at the end.
    pub has_boss: bool,
}

impl Default for DungeonConfig {
    fn default() -> (c: Self)
        ensures
            c.width == 40,
            c.height == 30,
            c.num_rooms == 6,
            c.floor_number == 1,
            c.has_boss,
    {
        DungeonConfig { width: 40, height: 30, num_rooms: 6, floor_number: 1, has_boss: true }
    }
}

/// Result of dungeon generation.
#[derive(Debug)]
pub struct DungeonResult {
    pub grid: HexGrid<DungeonTile>,
    pub player_start: Hex,
    pub boss_spawn: Option<Hex>,
}

/// The hex with axial coordinates `x`, `y` (and `z = -x - y`).
pub fn try_create_hex(x: i32, y: i32) -> (h: Option<Hex>)
    requires
        x > i32::MIN,
        i32::MIN <= -x - y <= i32::MAX,
        i32::MIN <= x + y <= i32::MAX,
    ensures
        h == Some(Hex { x, y, z: (-x - y) as i32 }),
{
    let z = -x - y;
    Some(Hex::new(x, y, z))
}

/// Every coordinate lies within `b` of zero.
pub open spec fn within(h: Hex, b: int) -> bool {
    -b <= h.x <= b && -b <= h.y <= b && -b <= h.z <= b
}

/// Every valid hex within `radius` of `center` holds `tile` in `m`.
pub open spec fn disk_holds(m: Map<Hex, DungeonTile>, center: Hex, radius: int, tile: DungeonTile) -> bool {
    forall|h: Hex| h.is_valid() && h.dist(center) <= radius ==> #[trigger] m.contains_key(h) && m[h] == tile
}

/// Off the disk of `radius` around `center`, `new` agrees with `old`.
pub open spec fn same_off_disk(
    old: Map<Hex, DungeonTile>,
    new: Map<Hex, DungeonTile>,
    center: Hex,
    radius: int,
) -> bool {
    forall|h: Hex|
        !(h.is_valid() && h.dist(center) <= radius) ==> (#[trigger] new.contains_key(h)
            == old.contains_key(h) && (old.contains_key(h) ==> new[h] == old[h]))
}

/// `new` is `old` with every hex of the disk of `radius` around `center` set
/// to `tile`, and nothing else changed.
pub open spec fn carved(
    old: Map<Hex, DungeonTile>,
    new: Map<Hex, DungeonTile>,
    center: Hex,
    radius: int,
    tile: DungeonTile,
) -> bool {
    &&& disk_holds(new, center, radius, tile)
    &&& same_off_disk(old, new, center, radius)
}

/// Every listed hex holds `tile` in `m`.
pub open spec fn listed_hold(m: Map<Hex, DungeonTile>, hexes: Seq<Hex>, tile: DungeonTile) -> bool {
    forall|j: int| 0 <= j < hexes.len() ==> #[trigger] m.contains_key(hexes[j]) && m[hexes[j]] == tile
}

/// Off the list, `new` agrees with `old`.
pub open spec fn same_off_list(old: Map<Hex, DungeonTile>, new: Map<Hex, DungeonTile>, hexes: Seq<Hex>) -> bool {
    forall|h: Hex|
        !hexes.contains(h) ==> (#[trigger] new.contains_key(h) == old.contains_key(h) && (
        old.contains_key(h) ==> new[h] == old[h]))
}

/// Set every hex within `radius` of `center` to `tile`.
fn carve(grid: &mut HexGrid<DungeonTile>, center: Hex, radius: i32, tile: DungeonTile)
    requires
        old(grid).wf(),
        center.is_valid(),
        within(center, 0x400_0000),
        0 <= radius <= 8,
    ensures
        final(grid).wf(),
        carved(old(grid)@, final(grid)@, center, radius as int, tile),
{
    let hexes = range(center, radius);
    let ghost start = grid@;
    let mut i: usize = 0;
    while i < hexes.len()
        invariant
            grid.wf(),
            i <= hexes@.len(),
            lists_disk(center, radius as int, hexes@),
            listed_hold(grid@, hexes@.take(i as int), tile),
            same_off_list(start, grid@, hexes@.take(i as int)),
        decreases hexes@.len() - i,
    {
        let h = hexes[i];
        let ghost before = grid@;
        grid.set(h, tile);
        proof {
            lemma_set_next(start, before, grid@, hexes@, i as int, tile);
        }
        i = i + 1;
    }
    proof {
        assert(hexes@.take(i as int) =~= hexes@);
        lemma_disk_carved(start, grid@, hexes@, center, radius as int, tile);
    }
}

/// Setting the next listed hex extends what holds of the list's prefix.
#[verifier::spinoff_prover]
proof fn lemma_set_next(
    start: Map<Hex, DungeonTile>,
    before: Map<Hex, DungeonTile>,
    after: Map<Hex, DungeonTile>,
    hexes: Seq<Hex>,
    i: int,
    tile: DungeonTile,
)
    requires
        0 <= i < hexes.len(),
        after == before.insert(hexes[i], tile),
        listed_hold(before, hexes.take(i), tile),
        same_off_list(start, before, hexes.take(i)),
    ensures
        forall|j: int| 0 <= j < hexes.take(i + 1).len() ==> #[trigger] after.contains_key(hexes.take(i + 1)[j])
            && after[hexes.take(i + 1)[j]] == tile,
        forall|h2: Hex| !hexes.take(i + 1).contains(h2) ==> (#[trigger] after.contains_key(h2)
            == start.contains_key(h2) && (start.contains_key(h2) ==> after[h2] == start[h2])),
{
    assert(hexes.take(i + 1) =~= hexes.take(i).push(hexes[i]));
    assert forall|j: int| 0 <= j < hexes.take(i + 1).len() implies #[trigger] after.contains_key(
        hexes.take(i + 1)[j],
    ) && after[hexes.take(i + 1)[j]] == tile by {
        if j < i {
            assert(hexes.take(i + 1)[j] == hexes.take(i)[j]);
            assert(before.contains_key(hexes.take(i)[j]));
        }
    }
    assert forall|h2: Hex| !hexes.take(i + 1).contains(h2) implies (#[trigger] after.contains_key(h2)
        == start.contains_key(h2) && (start.contains_key(h2) ==> after[h2] == start[h2])) by {
        if hexes.take(i).contains(h2) {
            let k = choose|k: int| 0 <= k < hexes.take(i).len() && hexes.take(i)[k] == h2;
            assert(hexes.take(i + 1)[k] == h2);
        }
        assert(hexes.take(i + 1)[i] == hexes[i]);
        assert(before.contains_key(h2) == start.contains_key(h2));
    }
}

/// A grid whose every listed hex of the disk holds `tile`, and which agrees
/// with `start` off the list, is `start` with the disk carved.
#[verifier::spinoff_prover]
proof fn lemma_disk_carved(
    start: Map<Hex, DungeonTile>,
    after: Map<Hex, DungeonTile>,
    hexes: Seq<Hex>,
    center: Hex,
    radius: int,
    tile: DungeonTile,
)
    requires
        center.is_valid(),
        within(center, 0x400_0000),
        0 <= radius <= 8,
        lists_disk(center, radius, hexes),
        listed_hold(after, hexes, tile),
        same_off_list(start, after, hexes),
    ensures
        carved(start, after, center, radius, tile),
{
    assert forall|h: Hex| h.is_valid() && h.dist(center) <= radius implies #[trigger] after.contains_key(h)
        && after[h] == tile by {
        crate::hex::algorithms::lemma_disk_is_distance(center, h, radius);
        let o = h.minus(center);
        assert(center.plus(o) == h);
        assert(hexes.contains(center.plus(o)));
        let k = choose|k: int| 0 <= k < hexes.len() && hexes[k] == h;
        assert(after.contains_key(hexes[k]));
    }
    assert forall|h: Hex| !(h.is_valid() && h.dist(center) <= radius) implies (
    #[trigger] after.contains_key(h) == start.contains_key(h) && (start.contains_key(h)
        ==> after[h] == start[h])) by {
        if hexes.contains(h) {
            let k = choose|k: int| 0 <= k < hexes.len() && hexes[k] == h;
            let o = h.minus(center);
            assert(h == center.plus(o));
            assert(in_disk(o, radius));
            assert(-8 <= o.x <= 8 && -8 <= o.y <= 8 && -8 <= o.z <= 8);
            assert(h.x == center.x + o.x && h.y == center.y + o.y && h.z == center.z + o.z);
            assert(h.is_valid());
            crate::hex::algorithms::lemma_disk_is_distance(center, h, radius);
            assert(false);
        }
    }
    assert(disk_holds(after, center, radius, tile));
    assert(same_off_disk(start, after, center, radius));
}

/// The hex with axial coordinates `x` and `y`.
pub open spec fn axial(x: int, y: int) -> Hex {
    Hex { x: x as i32, y: y as i32, z: (-x - y) as i32 }
}

/// Every hex of the grid is a valid hex within the coordinate limit.
pub open spec fn keys_in_limit(m: Map<Hex, DungeonTile>) -> bool {
    forall|h: Hex| #[trigger] m.contains_key(h) ==> h.is_valid() && h.within_limit()
}

/// No hex of the grid holds `t`.
pub open spec fn lacks(m: Map<Hex, DungeonTile>, t: DungeonTile) -> bool {
    forall|h: Hex| #[trigger] m.contains_key(h) ==> m[h] != t
}

/// Some hex of the grid holds `t`.
pub open spec fn holds(m: Map<Hex, DungeonTile>, t: DungeonTile) -> bool {
    exists|h: Hex| #[trigger] m.contains_key(h) && m[h] == t
}

/// The grid covers the rectangle of axial coordinates `|x| <= hw`, `|y| <= hh`.
pub open spec fn covers(m: Map<Hex, DungeonTile>, hw: int, hh: int) -> bool {
    forall|x: int, y: int| -hw <= x <= hw && -hh <= y <= hh ==> #[trigger] m.contains_key(axial(x, y))
}

/// Every room's center is in the grid and can be walked on.
pub open spec fn open_centers(m: Map<Hex, DungeonTile>, rooms: Seq<(Hex, i32)>) -> bool {
    forall|k: int| 0 <= k < rooms.len() ==> #[trigger] m.contains_key(rooms[k].0) && m[rooms[k].0] != DungeonTile::Wall
}

/// Rooms have valid centers near the middle and radii of at most five.
pub open spec fn rooms_ok(rooms: Seq<(Hex, i32)>) -> bool {
    forall|k: int|
        0 <= k < rooms.len() ==> #[trigger] rooms[k].0.is_valid() && within(rooms[k].0, 0x400_0000) && 0
            <= rooms[k].1 <= 5
}

/// The facts about a grid under construction that painting keeps.
pub open spec fn painted_ok(m: Map<Hex, DungeonTile>, rooms: Seq<(Hex, i32)>, hw: int, hh: int) -> bool {
    &&& keys_in_limit(m)
    &&& covers(m, hw, hh)
    &&& open_centers(m, rooms)
}

/// Painting one hex with a walkable tile keeps the grid's facts, and adds no
/// tile kind other than the one painted.
#[verifier::spinoff_prover]
proof fn lemma_paint(
    old: Map<Hex, DungeonTile>,
    new: Map<Hex, DungeonTile>,
    h: Hex,
    t: DungeonTile,
    rooms: Seq<(Hex, i32)>,
    hw: int,
    hh: int,
)
    requires
        new == old.insert(h, t),
        h.is_valid(),
        h.within_limit(),
        t != DungeonTile::Wall,
        painted_ok(old, rooms, hw, hh),
    ensures
        painted_ok(new, rooms, hw, hh),
        forall|s: DungeonTile| lacks(old, s) && s != t ==> #[trigger] lacks(new, s),
{
    assert forall|x: int, y: int| -hw <= x <= hw && -hh <= y <= hh implies #[trigger] new.contains_key(
        axial(x, y),
    ) by {
        assert(old.contains_key(axial(x, y)));
    }
    assert forall|k: int| 0 <= k < rooms.len() implies #[trigger] new.contains_key(rooms[k].0)
        && new[rooms[k].0] != DungeonTile::Wall by {
        assert(old.contains_key(rooms[k].0));
    }
    assert forall|s: DungeonTile| lacks(old, s) && s != t implies #[trigger] lacks(new, s) by {
        assert forall|g: Hex| #[trigger] new.contains_key(g) implies new[g] != s by {
            if g != h {
                assert(old.contains_key(g));
            }
        }
    }
}

/// Carving a disk with a walkable tile keeps the grid's facts, and adds no
/// tile kind other than the one carved.
#[verifier::spinoff_prover]
proof fn lemma_carve(
    old: Map<Hex, DungeonTile>,
    new: Map<Hex, DungeonTile>,
    c: Hex,
    r: int,
    t: DungeonTile,
    rooms: Seq<(Hex, i32)>,
    hw: int,
    hh: int,
)
    requires
        carved(old, new, c, r, t),
        c.is_valid(),
        within(c, 0x400_0000),
        0 <= r <= 8,
        t != DungeonTile::Wall,
        painted_ok(old, rooms, hw, hh),
    ensures
        painted_ok(new, rooms, hw, hh),
        forall|s: DungeonTile| lacks(old, s) && s != t ==> #[trigger] lacks(new, s),
        new.contains_key(c) && new[c] == t,
{
    assert(c.dist(c) == 0);
    assert forall|g: Hex| #[trigger] new.contains_key(g) implies g.is_valid() && g.within_limit() by {
        if g.is_valid() && g.dist(c) <= r {
            assert(-0x1000_0000 < g.x - c.x < 0x1000_0000) by {
                assert(crate::hex::coord::abs(g.x - c.x) <= 2 * g.dist(c) + 1);
            }
            assert(-0x1000_0000 < g.y - c.y < 0x1000_0000) by {
                assert(crate::hex::coord::abs(g.y - c.y) <= 2 * g.dist(c) + 1);
            }
            assert(-0x1000_0000 < g.z - c.z < 0x1000_0000) by {
                assert(crate::hex::coord::abs(g.z - c.z) <= 2 * g.dist(c) + 1);
            }
            crate::hex::algorithms::lemma_disk_is_distance(c, g, r);
        } else {
            assert(old.contains_key(g));
        }
    }
    assert forall|x: int, y: int| -hw <= x <= hw && -hh <= y <= hh implies #[trigger] new.contains_key(
        axial(x, y),
    ) by {
        assert(old.contains_key(axial(x, y)));
    }
    assert forall|k: int| 0 <= k < rooms.len() implies #[trigger] new.contains_key(rooms[k].0)
        && new[rooms[k].0] != DungeonTile::Wall by {
        let g = rooms[k].0;
        assert(old.contains_key(g));
        if g.is_valid() && g.dist(c) <= r {
            assert(new.contains_key(g));
        }
    }
    assert forall|s: DungeonTile| lacks(old, s) && s != t implies #[trigger] lacks(new, s) by {
        assert forall|g: Hex| #[trigger] new.contains_key(g) implies new[g] != s by {
            if !(g.is_valid() && g.dist(c) <= r) {
                assert(old.contains_key(g));
            }
        }
    }
    assert(c.is_valid() && c.dist(c) <= r);
    assert(new.contains_key(c));
    assert(keys_in_limit(new));
    assert(covers(new, hw, hh));
    assert(open_centers(new, rooms));
}

/// Adding a room whose center is open keeps the grid's facts about rooms.
#[verifier::spinoff_prover]
proof fn lemma_add_room(
    m: Map<Hex, DungeonTile>,
    old_rooms: Seq<(Hex, i32)>,
    rooms: Seq<(Hex, i32)>,
    room: (Hex, i32),
    hw: int,
    hh: int,
)
    requires
        painted_ok(m, old_rooms, hw, hh),
        rooms_ok(old_rooms),
        rooms == old_rooms.push(room),
        room.0.is_valid(),
        within(room.0, 0x400_0000),
        0 <= room.1 <= 5,
        m.contains_key(room.0),
        m[room.0] != DungeonTile::Wall,
    ensures
        painted_ok(m, rooms, hw, hh),
        rooms_ok(rooms),
{
    assert forall|k: int| 0 <= k < rooms.len() implies #[trigger] m.contains_key(rooms[k].0)
        && m[rooms[k].0] != DungeonTile::Wall by {
        if k < old_rooms.len() {
            assert(rooms[k] == old_rooms[k]);
            assert(m.contains_key(old_rooms[k].0));
        }
    }
    assert forall|k: int| 0 <= k < rooms.len() implies #[trigger] rooms[k].0.is_valid()
        && within(rooms[k].0, 0x400_0000) && 0 <= rooms[k].1 <= 5 by {
        if k < old_rooms.len() {
            assert(rooms[k] == old_rooms[k]);
            assert(old_rooms[k].0.is_valid());
        }
    }
}

/// A unit can stand on `h`: the grid holds it, and not as a wall.
pub open spec fn open_tile(m: Map<Hex, DungeonTile>, h: Hex) -> bool {
    m.contains_key(h) && m[h] != DungeonTile::Wall
}

/// Rooms have radii two to five and keep clear of each other: the centers
/// of two rooms lie at least their radii plus two apart.
pub open spec fn rooms_apart(rooms: Seq<(Hex, i32)>) -> bool {
    &&& forall|k: int| 0 <= k < rooms.len() ==> 2 <= #[trigger] rooms[k].1 <= 5
    &&& forall|a: int, b: int|
        0 <= a < b < rooms.len() ==> rooms[b].0.dist(#[trigger] rooms[a].0) >= rooms[a].1 + #[trigger] rooms[b].1
            + 2
}

/// Every hex of every room's disk can be walked on.
pub open spec fn rooms_open(m: Map<Hex, DungeonTile>, rooms: Seq<(Hex, i32)>) -> bool {
    forall|k: int, h: Hex|
        #![trigger rooms[k], open_tile(m, h)]
        0 <= k < rooms.len() && h.is_valid() && h.dist(rooms[k].0) <= rooms[k].1 ==> open_tile(m, h)
}

/// The hex line from the center of room `i` to that of the next room.
pub open spec fn corridor(rooms: Seq<(Hex, i32)>, i: int) -> Seq<Hex> {
    line_seq(rooms[i].0, rooms[i + 1].0)
}

/// Every hex of the corridors between the first `upto` pairs of
/// consecutive rooms can be walked on.
pub open spec fn corridors_open(m: Map<Hex, DungeonTile>, rooms: Seq<(Hex, i32)>, upto: int) -> bool {
    forall|i: int, j: int|
        0 <= i < upto && 0 <= j < corridor(rooms, i).len() ==> open_tile(m, #[trigger] corridor(rooms, i)[j])
}

/// The stairs lie at `c` and nowhere else.
pub open spec fn stairs_only_at(m: Map<Hex, DungeonTile>, c: Hex) -> bool {
    forall|h: Hex| #[trigger] m.contains_key(h) ==> (m[h] == DungeonTile::Stairs <==> h == c)
}

/// Boss floor lies only within five of the boss room's center, and only if
/// there is a boss room.
pub open spec fn boss_floor_within(m: Map<Hex, DungeonTile>, boss: Option<Hex>) -> bool {
    forall|h: Hex|
        #[trigger] m.contains_key(h) && m[h] == DungeonTile::BossFloor ==> (boss matches Some(c) && h.is_valid()
            && h.dist(c) <= 5)
}

/// Some room's disk holds `h`.
pub open spec fn in_rooms(rooms: Seq<(Hex, i32)>, h: Hex) -> bool {
    exists|k: int| 0 <= k < rooms.len() && h.is_valid() && h.dist(#[trigger] rooms[k].0) <= rooms[k].1
}

/// `p` itself when `d` is negative, else its neighbour in direction `d`.
pub open spec fn step_of(p: Hex, d: int) -> Hex {
    if d < 0 {
        p
    } else {
        p.plus(spec_direction(d))
    }
}

/// `h` lies on, or next to, one of the corridors between the first `upto`
/// pairs of consecutive rooms.
pub open spec fn near_corridors(rooms: Seq<(Hex, i32)>, upto: int, h: Hex) -> bool {
    exists|i: int, j: int, d: int|
        0 <= i < upto && 0 <= j < corridor(rooms, i).len() && -1 <= d < 6 && h == #[trigger] step_of(
            corridor(rooms, i)[j],
            d,
        )
}

/// Every hex of the grid outside the rooms' disks, and neither on nor next
/// to the corridors between the first `upto` pairs of rooms, is a wall.
pub closed spec fn walled_elsewhere(m: Map<Hex, DungeonTile>, rooms: Seq<(Hex, i32)>, upto: int) -> bool {
    forall|h: Hex|
        #[trigger] m.contains_key(h) && !in_rooms(rooms, h) && !near_corridors(rooms, upto, h) ==> m[h]
            == DungeonTile::Wall
}

/// Every hex within five of the boss room's center `c` is boss floor, but
/// for `c` itself and the hexes on or next to the corridors between the
/// first `upto` pairs of rooms.
pub closed spec fn boss_room_floor(m: Map<Hex, DungeonTile>, c: Hex, rooms: Seq<(Hex, i32)>, upto: int) -> bool {
    forall|h: Hex|
        h.is_valid() && h.dist(c) <= 5 && h != c && !near_corridors(rooms, upto, h) ==> #[trigger] m.contains_key(h)
            && m[h] == DungeonTile::BossFloor
}

/// The rooms other than the boss room number at most the ordinary rooms
/// wanted, have radii two to four and centers in the middle box of a third
/// of the width and height to each side; the boss room, wanted only when
/// configured, has its center in the box of a quarter to each side.
pub open spec fn rooms_drawn(config: DungeonConfig, rooms: Seq<(Hex, i32)>, boss: Option<Hex>) -> bool {
    let regular = if boss is Some { rooms.len() - 1 } else { rooms.len() as int };
    &&& regular <= regular_room_count(config)
    &&& forall|k: int|
        0 <= k < regular ==> {
            &&& 2 <= #[trigger] rooms[k].1 <= 4
            &&& -(config.width / 3) <= rooms[k].0.x < config.width / 3
            &&& -(config.height / 3) <= rooms[k].0.y < config.height / 3
        }
    &&& boss matches Some(c) ==> {
        &&& config.has_boss
        &&& -(config.width / 4) <= c.x < config.width / 4
        &&& -(config.height / 4) <= c.y < config.height / 4
    }
}

/// The rooms that a generated dungeon is laid out with: rooms near the
/// middle that keep clear of each other, at least one when ordinary rooms
/// are wanted, each a disk that can be walked on, joined in order by
/// corridors that can be walked on; the player starts at the first room's
/// center and the stairs lie at the last room's center alone (with no
/// rooms, the start is the origin and there are no stairs); a boss room is
/// the last room, of radius five, and boss floor lies only inside it and
/// fills it but for the stairs and the corridors. Every other hex of the
/// grid, off the rooms and off and away from the corridors, is a wall. The
/// ordinary rooms are drawn as `rooms_drawn` says, and there are no more
/// rooms than configured (a boss room alone is still placed when none are).
pub open spec fn rooms_placed(
    m: Map<Hex, DungeonTile>,
    config: DungeonConfig,
    rooms: Seq<(Hex, i32)>,
    start: Hex,
    boss: Option<Hex>,
) -> bool {
    &&& rooms_ok(rooms)
    &&& rooms_apart(rooms)
    &&& regular_room_count(config) > 0 ==> rooms.len() > 0
    &&& rooms_open(m, rooms)
    &&& corridors_open(m, rooms, rooms.len() - 1)
    &&& if rooms.len() > 0 {
        start == rooms[0].0 && stairs_only_at(m, rooms.last().0)
    } else {
        start == (Hex { x: 0, y: 0, z: 0 }) && lacks(m, DungeonTile::Stairs)
    }
    &&& boss matches Some(c) ==> rooms.len() > 0 && rooms.last() == (c, 5i32)
    &&& boss_floor_within(m, boss)
    &&& walled_elsewhere(m, rooms, rooms.len() - 1)
    &&& boss matches Some(c) ==> boss_room_floor(m, c, rooms, rooms.len() - 1)
    &&& rooms_drawn(config, rooms, boss)
    &&& config.num_rooms > 0 || !config.has_boss ==> rooms.len() <= config.num_rooms
}

/// Painting a hex with a walkable tile keeps every walkable hex walkable,
/// and every hex holding another tile held it before.
proof fn lemma_paint_keeps(old: Map<Hex, DungeonTile>, new: Map<Hex, DungeonTile>, h: Hex, t: DungeonTile)
    requires
        new == old.insert(h, t),
        t != DungeonTile::Wall,
    ensures
        forall|g: Hex| #[trigger] open_tile(old, g) ==> open_tile(new, g),
        open_tile(new, h),
        forall|g: Hex| #[trigger] new.contains_key(g) && new[g] != t ==> old.contains_key(g) && old[g] == new[g],
{
}

/// Carving a disk with a walkable tile makes the disk walkable, keeps every
/// walkable hex walkable, and every hex holding another tile held it before.
proof fn lemma_carve_keeps(old: Map<Hex, DungeonTile>, new: Map<Hex, DungeonTile>, c: Hex, r: int, t: DungeonTile)
    requires
        carved(old, new, c, r, t),
        t != DungeonTile::Wall,
    ensures
        forall|g: Hex| #[trigger] open_tile(old, g) ==> open_tile(new, g),
        forall|g: Hex| g.is_valid() && g.dist(c) <= r ==> #[trigger] open_tile(new, g),
        forall|g: Hex| #[trigger] new.contains_key(g) && new[g] != t ==> old.contains_key(g) && old[g] == new[g],
{
    assert forall|g: Hex| #[trigger] open_tile(old, g) implies open_tile(new, g) by {
        assert(new.contains_key(g));
    }
    assert forall|g: Hex| g.is_valid() && g.dist(c) <= r implies #[trigger] open_tile(new, g) by {
        assert(new.contains_key(g));
    }
    assert forall|g: Hex| #[trigger] new.contains_key(g) && new[g] != t implies old.contains_key(g) && old[g]
        == new[g] by {
        assert(new.contains_key(g));
    }
}

/// What can be walked on stays so: the rooms and corridors stay open.
proof fn lemma_open_grows(
    old: Map<Hex, DungeonTile>,
    new: Map<Hex, DungeonTile>,
    rooms: Seq<(Hex, i32)>,
    upto: int,
)
    requires
        forall|g: Hex| #[trigger] open_tile(old, g) ==> open_tile(new, g),
    ensures
        rooms_open(old, rooms) ==> rooms_open(new, rooms),
        corridors_open(old, rooms, upto) ==> corridors_open(new, rooms, upto),
{
    if rooms_open(old, rooms) {
        assert forall|k: int, h: Hex|
            #![trigger rooms[k], open_tile(new, h)]
            0 <= k < rooms.len() && h.is_valid() && h.dist(rooms[k].0) <= rooms[k].1 implies open_tile(new, h) by {
            assert(open_tile(old, h));
        }
    }
    if corridors_open(old, rooms, upto) {
        assert forall|i: int, j: int|
            0 <= i < upto && 0 <= j < corridor(rooms, i).len() implies open_tile(
            new,
            #[trigger] corridor(rooms, i)[j],
        ) by {
            assert(open_tile(old, corridor(rooms, i)[j]));
        }
    }
}

/// A new room whose disk is walkable keeps the rooms open.
proof fn lemma_room_open_push(m: Map<Hex, DungeonTile>, rooms: Seq<(Hex, i32)>, room: (Hex, i32))
    requires
        rooms_open(m, rooms),
        forall|g: Hex| g.is_valid() && g.dist(room.0) <= room.1 ==> #[trigger] open_tile(m, g),
    ensures
        rooms_open(m, rooms.push(room)),
{
    let r2 = rooms.push(room);
    assert forall|k: int, h: Hex|
        #![trigger r2[k], open_tile(m, h)]
        0 <= k < r2.len() && h.is_valid() && h.dist(r2[k].0) <= r2[k].1 implies open_tile(m, h) by {
        if k < rooms.len() {
            assert(r2[k] == rooms[k]);
        }
    }
}

/// A new room that keeps clear of the rooms, by a gap of two or more, keeps
/// them apart.
proof fn lemma_apart_push(rooms: Seq<(Hex, i32)>, room: (Hex, i32), gap: int)
    requires
        rooms_apart(rooms),
        2 <= room.1 <= 5,
        gap >= 2,
        !crowded(rooms, room.0, room.1 as int, gap),
    ensures
        rooms_apart(rooms.push(room)),
{
    let r2 = rooms.push(room);
    assert forall|k: int| 0 <= k < r2.len() implies 2 <= #[trigger] r2[k].1 <= 5 by {
        if k < rooms.len() {
            assert(r2[k] == rooms[k]);
        }
    }
    assert forall|a: int, b: int| 0 <= a < b < r2.len() implies r2[b].0.dist(#[trigger] r2[a].0) >= r2[a].1
        + #[trigger] r2[b].1 + 2 by {
        assert(r2[a] == rooms[a]);
        if b < rooms.len() {
            assert(r2[b] == rooms[b]);
        } else {
            assert(r2[b] == room);
            assert(!(room.0.dist(rooms[a].0) < room.1 + rooms[a].1 + gap));
        }
    }
}

/// Painting with a tile other than boss floor leaves boss floor where it was.
proof fn lemma_boss_floor_kept(
    old: Map<Hex, DungeonTile>,
    new: Map<Hex, DungeonTile>,
    t: DungeonTile,
    boss: Option<Hex>,
)
    requires
        forall|g: Hex| #[trigger] new.contains_key(g) && new[g] != t ==> old.contains_key(g) && old[g] == new[g],
        t != DungeonTile::BossFloor,
        boss_floor_within(old, boss),
    ensures
        boss_floor_within(new, boss),
{
    assert forall|h: Hex| #[trigger] new.contains_key(h) && new[h] == DungeonTile::BossFloor implies (boss matches Some(
        c,
    ) && h.is_valid() && h.dist(c) <= 5) by {
        assert(old.contains_key(h));
    }
}

/// Carving the boss room into a grid without boss floor puts boss floor
/// only within five of its center.
proof fn lemma_boss_floor_carved(old: Map<Hex, DungeonTile>, new: Map<Hex, DungeonTile>, c: Hex)
    requires
        carved(old, new, c, 5, DungeonTile::BossFloor),
        lacks(old, DungeonTile::BossFloor),
    ensures
        boss_floor_within(new, Some(c)),
{
    assert forall|h: Hex| #[trigger] new.contains_key(h) && new[h] == DungeonTile::BossFloor implies (Some(
        c,
    ) matches Some(b) && h.is_valid() && h.dist(b) <= 5) by {
        if !(h.is_valid() && h.dist(c) <= 5) {
            assert(old.contains_key(h));
        }
    }
}

/// A hex near the corridors between the first `upto` pairs of rooms is near
/// those between the first `upto + 1` pairs.
proof fn lemma_near_grows(rooms: Seq<(Hex, i32)>, upto: int, h: Hex)
    requires
        near_corridors(rooms, upto, h),
    ensures
        near_corridors(rooms, upto + 1, h),
{
    let (i, j, d) = choose|i: int, j: int, d: int|
        0 <= i < upto && 0 <= j < corridor(rooms, i).len() && -1 <= d < 6 && h == #[trigger] step_of(
            corridor(rooms, i)[j],
            d,
        );
    assert(h == step_of(corridor(rooms, i)[j], d));
}

/// Counting one more corridor keeps the walls and the boss floor stated.
proof fn lemma_walls_grow(m: Map<Hex, DungeonTile>, rooms: Seq<(Hex, i32)>, boss: Option<Hex>, upto: int)
    requires
        walled_elsewhere(m, rooms, upto),
        boss matches Some(c) ==> boss_room_floor(m, c, rooms, upto),
    ensures
        walled_elsewhere(m, rooms, upto + 1),
        boss matches Some(c) ==> boss_room_floor(m, c, rooms, upto + 1),
{
    assert forall|h: Hex|
        #[trigger] m.contains_key(h) && !in_rooms(rooms, h) && !near_corridors(rooms, upto + 1, h) implies m[h]
        == DungeonTile::Wall by {
        if near_corridors(rooms, upto, h) {
            lemma_near_grows(rooms, upto, h);
        }
    }
    if let Some(c) = boss {
        assert forall|h: Hex|
            h.is_valid() && h.dist(c) <= 5 && h != c && !near_corridors(rooms, upto + 1, h) implies #[trigger] m.contains_key(
            h,
        ) && m[h] == DungeonTile::BossFloor by {
            if near_corridors(rooms, upto, h) {
                lemma_near_grows(rooms, upto, h);
            }
        }
    }
}

/// Carving a new room into a grid walled off the rooms keeps it walled off
/// the rooms, the new one counted.
proof fn lemma_walls_carved(
    old: Map<Hex, DungeonTile>,
    new: Map<Hex, DungeonTile>,
    rooms: Seq<(Hex, i32)>,
    room: (Hex, i32),
    t: DungeonTile,
)
    requires
        carved(old, new, room.0, room.1 as int, t),
        walled_elsewhere(old, rooms, 0),
    ensures
        walled_elsewhere(new, rooms.push(room), 0),
{
    let r2 = rooms.push(room);
    assert forall|h: Hex|
        #[trigger] new.contains_key(h) && !in_rooms(r2, h) && !near_corridors(r2, 0, h) implies new[h]
        == DungeonTile::Wall by {
        assert(r2[rooms.len() as int] == room);
        assert(!(h.is_valid() && h.dist(room.0) <= room.1));
        assert(old.contains_key(h));
        if in_rooms(rooms, h) {
            let k = choose|k: int| 0 <= k < rooms.len() && h.is_valid() && h.dist(#[trigger] rooms[k].0) <= rooms[k].1;
            assert(r2[k] == rooms[k]);
        }
        assert(!near_corridors(rooms, 0, h));
    }
}

/// Carving the boss room makes its whole disk boss floor.
proof fn lemma_boss_room_carved(
    old: Map<Hex, DungeonTile>,
    new: Map<Hex, DungeonTile>,
    rooms: Seq<(Hex, i32)>,
    c: Hex,
)
    requires
        carved(old, new, c, 5, DungeonTile::BossFloor),
    ensures
        boss_room_floor(new, c, rooms, 0),
{
    assert forall|h: Hex|
        h.is_valid() && h.dist(c) <= 5 && h != c && !near_corridors(rooms, 0, h) implies #[trigger] new.contains_key(
        h,
    ) && new[h] == DungeonTile::BossFloor by {
        assert(disk_holds(new, c, 5, DungeonTile::BossFloor));
        assert(h.is_valid() && h.dist(c) <= 5);
        assert(new.contains_key(h));
        assert(new[h] == DungeonTile::BossFloor);
    }
}

/// Painting a hex of a room, or one on or next to a corridor counted, keeps
/// the walls stated.
proof fn lemma_walls_painted(
    before: Map<Hex, DungeonTile>,
    after: Map<Hex, DungeonTile>,
    h: Hex,
    t: DungeonTile,
    rooms: Seq<(Hex, i32)>,
    upto: int,
)
    requires
        after == before.insert(h, t),
        in_rooms(rooms, h) || near_corridors(rooms, upto, h),
        walled_elsewhere(before, rooms, upto),
    ensures
        walled_elsewhere(after, rooms, upto),
{
    assert forall|g: Hex|
        #[trigger] after.contains_key(g) && !in_rooms(rooms, g) && !near_corridors(rooms, upto, g) implies after[g]
        == DungeonTile::Wall by {
        assert(g != h);
        assert(before.contains_key(g));
    }
}

/// Painting the boss room's center, or a hex on or next to a corridor
/// counted, keeps the boss floor stated.
proof fn lemma_boss_floor_painted(
    before: Map<Hex, DungeonTile>,
    after: Map<Hex, DungeonTile>,
    h: Hex,
    t: DungeonTile,
    rooms: Seq<(Hex, i32)>,
    c: Hex,
    upto: int,
)
    requires
        after == before.insert(h, t),
        h == c || near_corridors(rooms, upto, h),
        boss_room_floor(before, c, rooms, upto),
    ensures
        boss_room_floor(after, c, rooms, upto),
{
    assert forall|g: Hex|
        g.is_valid() && g.dist(c) <= 5 && g != c && !near_corridors(rooms, upto, g) implies #[trigger] after.contains_key(
        g,
    ) && after[g] == DungeonTile::BossFloor by {
        assert(before.contains_key(g));
    }
}

/// Some room lies closer to `center` than `radius` plus its own radius plus `gap`.
pub open spec fn crowded(rooms: Seq<(Hex, i32)>, center: Hex, radius: int, gap: int) -> bool {
    exists|k: int| 0 <= k < rooms.len() && center.dist(#[trigger] rooms[k].0) < radius + rooms[k].1 + gap
}

/// Whether a new room at `center` would come too close to an existing one.
fn overlaps_any(rooms: &Vec<(Hex, i32)>, center: Hex, radius: i32, gap: i32) -> (b: bool)
    requires
        rooms_ok(rooms@),
        center.is_valid(),
        within(center, 0x400_0000),
        0 <= radius <= 5,
        0 <= gap <= 3,
    ensures
        b == crowded(rooms@, center, radius as int, gap as int),
{
    let mut k: usize = 0;
    while k < rooms.len()
        invariant
            k <= rooms@.len(),
            rooms_ok(rooms@),
            center.is_valid(),
            within(center, 0x400_0000),
            0 <= radius <= 5,
            0 <= gap <= 3,
            forall|j: int| 0 <= j < k ==> center.dist(#[trigger] rooms@[j].0) >= radius + rooms@[j].1 + gap,
        decreases rooms@.len() - k,
    {
        let (rc, rr) = rooms[k];
        assert(rooms_ok(rooms@) ==> rooms@[k as int].0.is_valid());
        if center.distance(rc) < radius + rr + gap {
            return true;
        }
        k = k + 1;
    }
    false
}

/// Every center that a boss room may be tried at keeps clear of the rooms:
/// a hex whose axial coordinates lie in the middle box, a quarter of the
/// width and height to each side.
pub open spec fn boss_box_clear(rooms: Seq<(Hex, i32)>, config: DungeonConfig) -> bool {
    forall|x: int, y: int|
        -(config.width / 4) <= x < config.width / 4 && -(config.height / 4) <= y < config.height / 4
            ==> !#[trigger] crowded(rooms, axial(x, y), 5, 3)
}

/// Place the boss room: up to fifty tries at a center near the middle that
/// keeps clear of every room, carving a disk of radius five in boss floor.
/// Where every center that can be drawn keeps clear, the first try succeeds.
fn generate_boss_room(
    grid: &mut HexGrid<DungeonTile>,
    existing_rooms: &Vec<(Hex, i32)>,
    config: &DungeonConfig,
    rng: &mut StdRng,
) -> (r: Option<(Hex, i32)>)
    requires
        old(grid).wf(),
        rooms_ok(existing_rooms@),
        4 <= config.width <= 0x400_0000,
        4 <= config.height <= 0x400_0000,
    ensures
        final(grid).wf(),
        match r {
            Some((center, radius)) => {
                &&& radius == 5
                &&& center.is_valid()
                &&& -(config.width / 4) <= center.x < config.width / 4
                &&& -(config.height / 4) <= center.y < config.height / 4
                &&& !crowded(existing_rooms@, center, 5, 3)
                &&& carved(old(grid)@, final(grid)@, center, 5, DungeonTile::BossFloor)
            },
            None => final(grid)@ == old(grid)@,
        },
        boss_box_clear(existing_rooms@, *config) ==> r is Some,
{
    let boss_radius: i32 = 5;
    let mut attempt: u32 = 0;
    while attempt < 50
        invariant
            grid.wf(),
            grid@ == old(grid)@,
            boss_radius == 5,
            rooms_ok(existing_rooms@),
            4 <= config.width <= 0x400_0000,
            4 <= config.height <= 0x400_0000,
            boss_box_clear(existing_rooms@, *config) ==> attempt == 0,
        decreases 50 - attempt,
    {
        let x = random_below(rng, -(config.width / 4), config.width / 4);
        let y = random_below(rng, -(config.height / 4), config.height / 4);
        let created = try_create_hex(x, y);
        if let Some(center) = created {
            assert(center == axial(x as int, y as int));
            if !overlaps_any(existing_rooms, center, boss_radius, 3) {
                carve(grid, center, boss_radius, DungeonTile::BossFloor);
                return Some((center, boss_radius));
            }
            assert(!boss_box_clear(existing_rooms@, *config)) by {
                assert(crowded(existing_rooms@, axial(x as int, y as int), 5, 3));
            }
        }
        attempt = attempt + 1;
    }
    None
}

/// The number of ordinary rooms: one fewer when a boss room is wanted.
pub open spec fn regular_room_count(config: DungeonConfig) -> int {
    if config.has_boss {
        if config.num_rooms > 0 {
            config.num_rooms - 1
        } else {
            0
        }
    } else {
        config.num_rooms as int
    }
}

/// Generate a dungeon.
///
/// The grid is first filled with walls over the rectangle of the configured
/// size. Up to a hundred tries place the ordinary rooms (radius two to four,
/// clear of each other), then the boss room if one is wanted. Corridors join
/// consecutive rooms along hex lines, randomly widened, and the stairs go in
/// the center of the last room; the player starts in the first.
#[verifier::spinoff_prover]
pub fn generate(config: &DungeonConfig, rng: &mut StdRng) -> (result: DungeonResult)
    requires
        config.width <= 0x400_0000,
        config.height <= 0x400_0000,
        regular_room_count(*config) > 0 ==> config.width >= 3 && config.height >= 3,
        config.has_boss ==> config.width >= 4 && config.height >= 4,
    ensures
        result.grid.wf(),
        keys_in_limit(result.grid@),
        config.width >= 0 && config.height >= 0 ==> covers(
            result.grid@,
            config.width / 2,
            config.height / 2,
        ),
        !config.has_boss ==> result.boss_spawn is None && lacks(result.grid@, DungeonTile::BossFloor),
        result.boss_spawn matches Some(c) ==> result.grid@.contains_key(c) && result.grid@[c]
            == DungeonTile::Stairs,
        holds(result.grid@, DungeonTile::Stairs) ==> result.grid@.contains_key(result.player_start)
            && result.grid@[result.player_start] != DungeonTile::Wall,
        !holds(result.grid@, DungeonTile::Stairs) ==> result.player_start == (Hex { x: 0, y: 0, z: 0 }),
        exists|rooms: Seq<(Hex, i32)>|
            #[trigger] rooms_placed(result.grid@, *config, rooms, result.player_start, result.boss_spawn),
{
    let mut grid: HexGrid<DungeonTile> = HexGrid::new();
    let ghost no_rooms = Seq::<(Hex, i32)>::empty();

    // Fill with walls first.
    let hw: i32 = if config.width >= 0 { config.width / 2 } else { -1 };
    let hh: i32 = if config.height >= 0 { config.height / 2 } else { -1 };
    if hw >= 0 && hh >= 0 {
        let mut x: i32 = -hw;
        while x <= hw
            invariant
                0 <= hw <= 0x200_0000,
                0 <= hh <= 0x200_0000,
                -hw <= x <= hw + 1,
                grid.wf(),
                keys_in_limit(grid@),
                lacks(grid@, DungeonTile::Stairs),
                lacks(grid@, DungeonTile::BossFloor),
                forall|g: Hex| #[trigger] grid@.contains_key(g) ==> grid@[g] == DungeonTile::Wall,
                forall|xx: int, yy: int|
                    -hw <= xx < x && -hh <= yy <= hh ==> #[trigger] grid@.contains_key(axial(xx, yy)),
            decreases hw + 1 - x,
        {
            let mut y: i32 = -hh;
            while y <= hh
                invariant
                    0 <= hw <= 0x200_0000,
                    0 <= hh <= 0x200_0000,
                    -hw <= x <= hw,
                    -hh <= y <= hh + 1,
                    grid.wf(),
                    keys_in_limit(grid@),
                    lacks(grid@, DungeonTile::Stairs),
                    lacks(grid@, DungeonTile::BossFloor),
                    forall|g: Hex| #[trigger] grid@.contains_key(g) ==> grid@[g] == DungeonTile::Wall,
                    forall|xx: int, yy: int|
                        (-hw <= xx < x && -hh <= yy <= hh) || (xx == x && -hh <= yy < y)
                            ==> #[trigger] grid@.contains_key(axial(xx, yy)),
                decreases hh + 1 - y,
            {
                let created = try_create_hex(x, y);
                if let Some(hex) = created {
                    let ghost before = grid@;
                    grid.set(hex, DungeonTile::Wall);
                    proof {
                        assert(hex == axial(x as int, y as int));
                        assert forall|xx: int, yy: int|
                            (-hw <= xx < x && -hh <= yy <= hh) || (xx == x && -hh <= yy < y + 1)
                                implies #[trigger] grid@.contains_key(axial(xx, yy)) by {
                            if !(xx == x && yy == y) {
                                assert(before.contains_key(axial(xx, yy)));
                            }
                        }
                        assert forall|g: Hex| #[trigger] grid@.contains_key(g) implies g.is_valid()
                            && g.within_limit() by {
                            if g != hex {
                                assert(before.contains_key(g));
                            }
                        }
                        assert forall|g: Hex| #[trigger] grid@.contains_key(g) implies grid@[g]
                            == DungeonTile::Wall by {
                            if g != hex {
                                assert(before.contains_key(g));
                            }
                        }
                    }
                }
                y = y + 1;
            }
            x = x + 1;
        }
    }
    let ghost cw: int = if config.width >= 0 && config.height >= 0 { hw as int } else { -1 };
    let ghost ch: int = if config.width >= 0 && config.height >= 0 { hh as int } else { -1 };
    assert(covers(grid@, cw, ch));
    assert(painted_ok(grid@, no_rooms, cw, ch));
    assert(walled_elsewhere(grid@, no_rooms, 0)) by {
    }

    // Generate rooms (one fewer if a boss room is needed).
    let regular_rooms: usize = if config.has_boss {
        config.num_rooms.saturating_sub(1)
    } else {
        config.num_rooms
    };
    let mut rooms: Vec<(Hex, i32)> = Vec::new();
    let mut attempts: u32 = 0;
    while rooms.len() < regular_rooms && attempts < 100
        invariant
            regular_rooms == regular_room_count(*config),
            config.width <= 0x400_0000,
            config.height <= 0x400_0000,
            regular_room_count(*config) > 0 ==> config.width >= 3 && config.height >= 3,
            grid.wf(),
            painted_ok(grid@, rooms@, cw, ch),
            lacks(grid@, DungeonTile::Stairs),
            lacks(grid@, DungeonTile::BossFloor),
            rooms_ok(rooms@),
            rooms_apart(rooms@),
            rooms_open(grid@, rooms@),
            regular_rooms > 0 && attempts > 0 ==> rooms@.len() > 0,
            walled_elsewhere(grid@, rooms@, 0),
            rooms@.len() <= regular_rooms,
            rooms_drawn(*config, rooms@, None),
        decreases 100 - attempts,
    {
        let x = random_below(rng, -(config.width / 3), config.width / 3);
        let y = random_below(rng, -(config.height / 3), config.height / 3);
        let radius = random_between(rng, 2, 4);
        let created = try_create_hex(x, y);
        if let Some(center) = created {
            assert(rooms@.len() == 0 ==> !crowded(rooms@, center, radius as int, 2));
            if !overlaps_any(&rooms, center, radius, 2) {
                let ghost before = grid@;
                let ghost old_rooms = rooms@;
                carve(&mut grid, center, radius, DungeonTile::Floor);
                proof {
                    lemma_carve(before, grid@, center, radius as int, DungeonTile::Floor, rooms@, cw, ch);
                    lemma_carve_keeps(before, grid@, center, radius as int, DungeonTile::Floor);
                    lemma_open_grows(before, grid@, old_rooms, 0);
                }
                rooms.push((center, radius));
                proof {
                    assert(within(center, 0x400_0000) && 2 <= radius <= 4);
                    lemma_add_room(grid@, old_rooms, rooms@, (center, radius), cw, ch);
                    lemma_room_open_push(grid@, old_rooms, (center, radius));
                    lemma_apart_push(old_rooms, (center, radius), 2);
                    lemma_walls_carved(before, grid@, old_rooms, (center, radius), DungeonTile::Floor);
                    assert(center == axial(x as int, y as int));
                    assert forall|k: int| 0 <= k < rooms@.len() implies {
                        &&& 2 <= #[trigger] rooms@[k].1 <= 4
                        &&& -(config.width / 3) <= rooms@[k].0.x < config.width / 3
                        &&& -(config.height / 3) <= rooms@[k].0.y < config.height / 3
                    } by {
                        if k < old_rooms.len() {
                            assert(rooms@[k] == old_rooms[k]);
                        }
                    }
                }
            }
        }
        attempts = attempts + 1;
    }

    // Generate the boss room if needed (larger than regular rooms).
    let ghost before_boss = rooms@;
    assert(boss_floor_within(grid@, None));
    let boss_spawn = if config.has_boss {
        let ghost before = grid@;
        let boss_room = generate_boss_room(&mut grid, &rooms, config, rng);
        match boss_room {
            Some((center, radius)) => {
                let ghost old_rooms = rooms@;
                proof {
                    lemma_carve(before, grid@, center, 5, DungeonTile::BossFloor, rooms@, cw, ch);
                    lemma_carve_keeps(before, grid@, center, 5, DungeonTile::BossFloor);
                    lemma_open_grows(before, grid@, old_rooms, 0);
                    lemma_boss_floor_carved(before, grid@, center);
                }
                rooms.push((center, radius));
                proof {
                    assert(center.is_valid() && within(center, 0x400_0000) && radius == 5);
                    lemma_add_room(grid@, old_rooms, rooms@, (center, radius), cw, ch);
                    lemma_room_open_push(grid@, old_rooms, (center, radius));
                    lemma_apart_push(old_rooms, (center, radius), 3);
                    lemma_walls_carved(before, grid@, old_rooms, (center, radius), DungeonTile::BossFloor);
                    lemma_boss_room_carved(before, grid@, rooms@, center);
                    assert forall|k: int| 0 <= k < rooms@.len() - 1 implies {
                        &&& 2 <= #[trigger] rooms@[k].1 <= 4
                        &&& -(config.width / 3) <= rooms@[k].0.x < config.width / 3
                        &&& -(config.height / 3) <= rooms@[k].0.y < config.height / 3
                    } by {
                        assert(rooms@[k] == old_rooms[k]);
                    }
                }
                Some(center)
            },
            None => None,
        }
    } else {
        None
    };
    assert(boss_spawn matches Some(c) ==> rooms@.len() > 0 && c == rooms@.last().0);
    assert(boss_spawn matches Some(c) ==> rooms@.last() == (c, 5i32));
    assert(boss_floor_within(grid@, boss_spawn));
    assert(walled_elsewhere(grid@, rooms@, 0));
    assert(boss_spawn matches Some(c) ==> boss_room_floor(grid@, c, rooms@, 0));
    assert(rooms_drawn(*config, rooms@, boss_spawn));

    // Connect consecutive rooms with corridors.
    let n = rooms.len();
    let pairs: usize = if n > 0 { n - 1 } else { 0 };
    let mut i: usize = 0;
    while i < pairs
        invariant
            n == rooms@.len(),
            pairs == if n > 0 { n - 1 } else { 0 },
            i <= pairs,
            grid.wf(),
            painted_ok(grid@, rooms@, cw, ch),
            lacks(grid@, DungeonTile::Stairs),
            !config.has_boss ==> lacks(grid@, DungeonTile::BossFloor),
            rooms_ok(rooms@),
            rooms_apart(rooms@),
            rooms_open(grid@, rooms@),
            corridors_open(grid@, rooms@, i as int),
            boss_floor_within(grid@, boss_spawn),
            boss_spawn matches Some(c) ==> rooms@.len() > 0 && rooms@.last() == (c, 5i32),
            regular_room_count(*config) > 0 ==> rooms@.len() > 0,
            walled_elsewhere(grid@, rooms@, i as int),
            boss_spawn matches Some(c) ==> boss_room_floor(grid@, c, rooms@, i as int),
            rooms_drawn(*config, rooms@, boss_spawn),
        decreases pairs - i,
    {
        let (from, _) = rooms[i];
        let (to, _) = rooms[i + 1];
        assert(rooms_ok(rooms@) ==> rooms@[i as int].0.is_valid() && rooms@[i + 1].0.is_valid());
        let line = from.line_to(to);
        assert(line@ == corridor(rooms@, i as int));
        proof {
            lemma_walls_grow(grid@, rooms@, boss_spawn, i as int);
        }
        let mut j: usize = 0;
        while j < line.len()
            invariant
                line@ == line_seq(from, to),
                from.is_valid(),
                within(from, 0x400_0000),
                within(to, 0x400_0000),
                j <= line@.len(),
                grid.wf(),
                painted_ok(grid@, rooms@, cw, ch),
                lacks(grid@, DungeonTile::Stairs),
                !config.has_boss ==> lacks(grid@, DungeonTile::BossFloor),
                line@ == corridor(rooms@, i as int),
                rooms_open(grid@, rooms@),
                corridors_open(grid@, rooms@, i as int),
                boss_floor_within(grid@, boss_spawn),
                forall|jj: int| 0 <= jj < j ==> #[trigger] open_tile(grid@, line@[jj]),
                walled_elsewhere(grid@, rooms@, i + 1),
                boss_spawn matches Some(c) ==> boss_room_floor(grid@, c, rooms@, i + 1),
            decreases line@.len() - j,
        {
            let hex = line[j];
            proof {
                crate::hex::coord::lemma_line_bounded(from, to, 0x400_0000, j as int);
            }
            let ghost before = grid@;
            grid.set(hex, DungeonTile::Floor);
            proof {
                lemma_paint(before, grid@, hex, DungeonTile::Floor, rooms@, cw, ch);
                lemma_paint_keeps(before, grid@, hex, DungeonTile::Floor);
                lemma_open_grows(before, grid@, rooms@, i as int);
                lemma_boss_floor_kept(before, grid@, DungeonTile::Floor, boss_spawn);
                assert(hex == step_of(corridor(rooms@, i as int)[j as int], -1));
                lemma_walls_painted(before, grid@, hex, DungeonTile::Floor, rooms@, i + 1);
                if let Some(c) = boss_spawn {
                    lemma_boss_floor_painted(before, grid@, hex, DungeonTile::Floor, rooms@, c, i + 1);
                }
                assert forall|jj: int| 0 <= jj < j + 1 implies #[trigger] open_tile(grid@, line@[jj]) by {
                    if jj < j {
                        assert(open_tile(before, line@[jj]));
                    }
                }
            }
            // Widen the corridor slightly.
            let neighbors = hex.neighbors();
            let mut d: usize = 0;
            while d < 6
                invariant
                    d <= 6,
                    hex.is_valid(),
                    within(hex, 0x800_0000),
                    forall|e: int| 0 <= e < 6 ==> #[trigger] neighbors@[e] == hex.plus(spec_direction(e)),
                    grid.wf(),
                    painted_ok(grid@, rooms@, cw, ch),
                    lacks(grid@, DungeonTile::Stairs),
                    !config.has_boss ==> lacks(grid@, DungeonTile::BossFloor),
                    rooms_open(grid@, rooms@),
                    corridors_open(grid@, rooms@, i as int),
                    boss_floor_within(grid@, boss_spawn),
                    forall|jj: int| 0 <= jj < j + 1 ==> #[trigger] open_tile(grid@, line@[jj]),
                    j < line@.len(),
                    hex == line@[j as int],
                    line@ == corridor(rooms@, i as int),
                    walled_elsewhere(grid@, rooms@, i + 1),
                    boss_spawn matches Some(c) ==> boss_room_floor(grid@, c, rooms@, i + 1),
                decreases 6 - d,
            {
                if random_ratio(rng, 3, 10) {
                    let next = neighbors[d];
                    proof {
                        assert(next == hex.plus(spec_direction(d as int)));
                        assert(spec_direction(d as int).is_valid());
                    }
                    let ghost before = grid@;
                    grid.set(next, DungeonTile::Floor);
                    proof {
                        lemma_paint(before, grid@, next, DungeonTile::Floor, rooms@, cw, ch);
                        lemma_paint_keeps(before, grid@, next, DungeonTile::Floor);
                        lemma_open_grows(before, grid@, rooms@, i as int);
                        lemma_boss_floor_kept(before, grid@, DungeonTile::Floor, boss_spawn);
                        assert(next == step_of(corridor(rooms@, i as int)[j as int], d as int));
                        lemma_walls_painted(before, grid@, next, DungeonTile::Floor, rooms@, i + 1);
                        if let Some(c) = boss_spawn {
                            lemma_boss_floor_painted(before, grid@, next, DungeonTile::Floor, rooms@, c, i + 1);
                        }
                        assert forall|jj: int| 0 <= jj < j + 1 implies #[trigger] open_tile(grid@, line@[jj]) by {
                            assert(open_tile(before, line@[jj]));
                        }
                    }
                }
                d = d + 1;
            }
            j = j + 1;
        }
        proof {
            assert forall|a: int, b: int|
                0 <= a < i + 1 && 0 <= b < corridor(rooms@, a).len() implies open_tile(
                grid@,
                #[trigger] corridor(rooms@, a)[b],
            ) by {
                if a == i {
                    assert(open_tile(grid@, line@[b]));
                }
            }
        }
        i = i + 1;
    }

    // Place the stairs in the last room (the boss room when there is one).
    if n > 0 {
        let (last_room, _) = rooms[n - 1];
        let ghost before = grid@;
        grid.set(last_room, DungeonTile::Stairs);
        proof {
            assert(rooms_ok(rooms@) ==> rooms@[n - 1].0.is_valid());
            lemma_paint(before, grid@, last_room, DungeonTile::Stairs, rooms@, cw, ch);
            assert(grid@.contains_key(last_room));
            lemma_paint_keeps(before, grid@, last_room, DungeonTile::Stairs);
            lemma_open_grows(before, grid@, rooms@, pairs as int);
            lemma_boss_floor_kept(before, grid@, DungeonTile::Stairs, boss_spawn);
            assert forall|h: Hex| #[trigger] grid@.contains_key(h) implies (grid@[h] == DungeonTile::Stairs
                <==> h == last_room) by {
                if h != last_room {
                    assert(before.contains_key(h));
                }
            }
            assert(last_room == rooms@.last().0);
            assert(last_room.dist(rooms@[n - 1].0) == 0);
            assert(in_rooms(rooms@, last_room));
            lemma_walls_painted(before, grid@, last_room, DungeonTile::Stairs, rooms@, pairs as int);
            if let Some(c) = boss_spawn {
                lemma_boss_floor_painted(before, grid@, last_room, DungeonTile::Stairs, rooms@, c, pairs as int);
            }
        }
    }

    // The player starts in the first room.
    let player_start = if n > 0 {
        rooms[0].0
    } else {
        Hex::origin()
    };
    proof {
        if n > 0 {
            assert(grid@.contains_key(rooms@[0].0));
            assert(grid@.contains_key(rooms@[n - 1].0));
        }
        if config.width >= 0 && config.height >= 0 {
            assert(cw == config.width / 2 && ch == config.height / 2);
        }
        if n == 0 {
            assert forall|h: Hex| !near_corridors(rooms@, -1, h) && !near_corridors(rooms@, 0, h) by {}
            assert(walled_elsewhere(grid@, rooms@, rooms@.len() - 1)) by {
            }

        }
        assert(rooms_placed(grid@, *config, rooms@, player_start, boss_spawn));
    }
    DungeonResult { grid, player_start, boss_spawn }
}

} // verus!
