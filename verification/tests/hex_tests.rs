use hexcaster::hex::direction;
use hexcaster::hex::{cone, line_of_sight, pathfind, range, ring, Hex, HexGrid, Tile};

#[derive(Debug, Clone, PartialEq)]
enum GridTile {
    Floor,
    Wall,
}

#[derive(Clone)]
struct TestTile {
    walkable: bool,
    transparent: bool,
}

impl Tile for TestTile {
    fn walkable(&self) -> bool {
        self.walkable
    }
    fn transparent(&self) -> bool {
        self.transparent
    }
    fn is_walkable(&self) -> bool {
        self.walkable
    }
    fn is_transparent(&self) -> bool {
        self.transparent
    }
}

fn floor() -> TestTile {
    TestTile { walkable: true, transparent: true }
}

fn wall() -> TestTile {
    TestTile { walkable: false, transparent: false }
}

#[test]
fn test_new_valid() {
    let h = Hex::new(1, -1, 0);
    assert_eq!(h.x, 1);
    assert_eq!(h.y, -1);
    assert_eq!(h.z, 0);
}

#[test]
fn test_from_axial() {
    let h = Hex::from_axial(2, 3);
    assert_eq!(h.x + h.y + h.z, 0);
    assert_eq!(h.x, 2);
    assert_eq!(h.y, 3);
    assert_eq!(h.z, -5);
}

#[test]
fn test_origin() {
    let o = Hex::origin();
    assert_eq!(o.x, 0);
    assert_eq!(o.y, 0);
    assert_eq!(o.z, 0);
}

#[test]
fn test_neighbor() {
    let o = Hex::origin();
    let n = o.neighbor(0);
    assert_eq!(n, Hex::new(1, -1, 0));
}

#[test]
fn test_neighbors_count() {
    let o = Hex::origin();
    let neighbors = o.neighbors();
    assert_eq!(neighbors.len(), 6);
}

#[test]
fn test_distance_same() {
    let h = Hex::new(1, -1, 0);
    assert_eq!(h.distance(h), 0);
}

#[test]
fn test_distance_neighbor() {
    let o = Hex::origin();
    let n = o.neighbor(0);
    assert_eq!(o.distance(n), 1);
}

#[test]
fn test_distance_two_away() {
    let a = Hex::origin();
    let b = Hex::new(2, -2, 0);
    assert_eq!(a.distance(b), 2);
}

#[test]
fn test_add() {
    let a = Hex::new(1, -1, 0);
    let b = Hex::new(0, 1, -1);
    let c = a + b;
    assert_eq!(c, Hex::new(1, 0, -1));
}

#[test]
fn test_sub() {
    let a = Hex::new(1, -1, 0);
    let b = Hex::new(0, 1, -1);
    let c = a - b;
    assert_eq!(c, Hex::new(1, -2, 1));
}

#[test]
fn test_line_to_same() {
    let h = Hex::origin();
    let line = h.line_to(h);
    assert_eq!(line, vec![h]);
}

#[test]
fn test_line_to_neighbor() {
    let a = Hex::origin();
    let b = a.neighbor(0);
    let line = a.line_to(b);
    assert_eq!(line.len(), 2);
    assert_eq!(line[0], a);
    assert_eq!(line[1], b);
}

#[test]
fn test_line_to_multiple() {
    let a = Hex::origin();
    let b = Hex::new(3, -3, 0);
    let line = a.line_to(b);
    assert_eq!(line.len(), 4);
}

#[test]
fn test_new_grid() {
    let grid: HexGrid<GridTile> = HexGrid::new();
    assert!(grid.is_empty());
}

#[test]
fn test_set_and_get() {
    let mut grid = HexGrid::new();
    let pos = Hex::origin();
    grid.set(pos, GridTile::Floor);
    assert_eq!(grid.get(pos), Some(&GridTile::Floor));
}

#[test]
fn test_get_nonexistent() {
    let grid: HexGrid<GridTile> = HexGrid::new();
    assert_eq!(grid.get(Hex::origin()), None);
}

#[test]
fn test_contains() {
    let mut grid = HexGrid::new();
    let pos = Hex::origin();
    assert!(!grid.contains(pos));
    grid.set(pos, GridTile::Wall);
    assert!(grid.contains(pos));
}

#[test]
fn test_remove() {
    let mut grid = HexGrid::new();
    let pos = Hex::origin();
    grid.set(pos, GridTile::Floor);
    let removed = grid.remove(pos);
    assert_eq!(removed, Some(GridTile::Floor));
    assert!(!grid.contains(pos));
}

#[test]
fn test_len() {
    let mut grid = HexGrid::new();
    assert_eq!(grid.len(), 0);
    grid.set(Hex::origin(), GridTile::Floor);
    assert_eq!(grid.len(), 1);
    grid.set(Hex::new(1, -1, 0), GridTile::Wall);
    assert_eq!(grid.len(), 2);
}

#[test]
fn test_iter() {
    let mut grid = HexGrid::new();
    grid.set(Hex::origin(), GridTile::Floor);
    grid.set(Hex::new(1, -1, 0), GridTile::Wall);
    let items: Vec<_> = grid.iter();
    assert_eq!(items.len(), 2);
}

#[test]
fn test_neighbors() {
    let mut grid = HexGrid::new();
    let center = Hex::origin();
    grid.set(center, GridTile::Floor);
    grid.set(center.neighbor(0), GridTile::Wall);
    grid.set(center.neighbor(2), GridTile::Floor);

    let neighbors = grid.neighbors(center);
    assert_eq!(neighbors.len(), 2);
}

#[test]
fn test_fill() {
    let mut grid = HexGrid::new();
    let hexes = vec![Hex::origin(), Hex::new(1, -1, 0), Hex::new(0, 1, -1)];
    grid.fill(hexes, GridTile::Floor);
    assert_eq!(grid.len(), 3);
    assert_eq!(grid.get(Hex::origin()), Some(&GridTile::Floor));
}

#[test]
fn test_range_zero() {
    let hexes = range(Hex::origin(), 0);
    assert_eq!(hexes.len(), 1);
    assert_eq!(hexes[0], Hex::origin());
}

#[test]
fn test_range_one() {
    let hexes = range(Hex::origin(), 1);
    assert_eq!(hexes.len(), 7);
}

#[test]
fn test_range_two() {
    let hexes = range(Hex::origin(), 2);
    assert_eq!(hexes.len(), 19);
}

#[test]
fn test_ring_zero() {
    let hexes = ring(Hex::origin(), 0);
    assert_eq!(hexes.len(), 1);
}

#[test]
fn test_ring_one() {
    let hexes = ring(Hex::origin(), 1);
    assert_eq!(hexes.len(), 6);
}

#[test]
fn test_ring_two() {
    let hexes = ring(Hex::origin(), 2);
    assert_eq!(hexes.len(), 12);
}

#[test]
fn test_cone() {
    let hexes = cone(Hex::origin(), 0, 3);
    assert!(!hexes.is_empty());
}

#[test]
fn test_line_of_sight_clear() {
    let mut grid = HexGrid::new();
    for hex in range(Hex::origin(), 5) {
        grid.set(hex, floor());
    }
    let from = Hex::origin();
    let to = Hex::new(3, -3, 0);
    assert!(line_of_sight(&grid, from, to));
}

#[test]
fn test_line_of_sight_blocked() {
    let mut grid = HexGrid::new();
    for hex in range(Hex::origin(), 5) {
        grid.set(hex, floor());
    }
    grid.set(Hex::new(1, -1, 0), wall());
    let from = Hex::origin();
    let to = Hex::new(3, -3, 0);
    assert!(!line_of_sight(&grid, from, to));
}

#[test]
fn test_pathfind_same_hex() {
    let mut grid = HexGrid::new();
    grid.set(Hex::origin(), floor());
    let path = pathfind(&grid, Hex::origin(), Hex::origin());
    assert!(path.is_some());
    assert_eq!(path.unwrap().len(), 1);
}

#[test]
fn test_pathfind_neighbor() {
    let mut grid = HexGrid::new();
    let from = Hex::origin();
    let to = from.neighbor(0);
    grid.set(from, floor());
    grid.set(to, floor());
    let path = pathfind(&grid, from, to);
    assert!(path.is_some());
    assert_eq!(path.unwrap().len(), 2);
}

#[test]
fn test_pathfind_around_wall() {
    let mut grid = HexGrid::new();
    for hex in range(Hex::origin(), 3) {
        grid.set(hex, floor());
    }
    grid.set(Hex::new(1, -1, 0), wall());
    let from = Hex::origin();
    let to = Hex::new(2, -2, 0);
    let path = pathfind(&grid, from, to);
    assert!(path.is_some());
    let path = path.unwrap();
    assert!(path.len() > 3);
}

#[test]
fn test_pathfind_no_path() {
    let mut grid = HexGrid::new();
    grid.set(Hex::origin(), floor());
    grid.set(Hex::new(2, -2, 0), wall());
    let path = pathfind(&grid, Hex::origin(), Hex::new(2, -2, 0));
    assert!(path.is_none());
}

// ---- further checks of the hex library ----

#[test]
fn ring_hexes_are_all_at_the_radius() {
    let center = Hex::new(2, -1, -1);
    for r in 1..5 {
        let hexes = ring(center, r);
        assert_eq!(hexes.len(), (6 * r) as usize);
        for h in &hexes {
            assert_eq!(center.distance(*h), r);
        }
        for i in 0..hexes.len() {
            for j in (i + 1)..hexes.len() {
                assert_ne!(hexes[i], hexes[j]);
            }
        }
    }
}

#[test]
fn range_is_the_disk() {
    let center = Hex::new(-3, 1, 2);
    let hexes = range(center, 3);
    assert_eq!(hexes.len(), 37);
    for h in &hexes {
        assert!(center.distance(*h) <= 3);
    }
    for x in -6..=0 {
        for y in -2..=4 {
            let h = Hex::new(x, y, -x - y);
            if center.distance(h) <= 3 {
                assert!(hexes.contains(&h));
            }
        }
    }
}

#[test]
fn range_negative_is_empty() {
    assert!(range(Hex::origin(), -1).is_empty());
}

#[test]
fn line_ends_are_the_endpoints() {
    let a = Hex::new(-2, 5, -3);
    let b = Hex::new(4, -1, -3);
    let line = a.line_to(b);
    assert_eq!(line.len() as i32, a.distance(b) + 1);
    assert_eq!(line[0], a);
    assert_eq!(*line.last().unwrap(), b);
    for w in line.windows(2) {
        assert_eq!(w[0].distance(w[1]), 1);
    }
}

#[test]
fn cone_exact_cells() {
    let hexes = cone(Hex::origin(), 0, 2);
    assert_eq!(
        hexes,
        vec![Hex::new(1, -1, 0), Hex::new(2, -2, 0), Hex::new(3, -2, -1), Hex::new(2, -3, 1)]
    );
}

#[test]
fn pathfind_path_is_a_walk() {
    let mut grid = HexGrid::new();
    for hex in range(Hex::origin(), 3) {
        grid.set(hex, floor());
    }
    grid.set(Hex::new(1, -1, 0), wall());
    grid.set(Hex::new(1, 0, -1), wall());
    let to = Hex::new(3, -2, -1);
    let path = pathfind(&grid, Hex::origin(), to).unwrap();
    assert_eq!(path[0], Hex::origin());
    assert_eq!(*path.last().unwrap(), to);
    for w in path.windows(2) {
        assert_eq!(w[0].distance(w[1]), 1);
        assert!(grid.get(w[1]).unwrap().is_walkable());
    }
}

#[test]
fn pathfind_unreachable_target() {
    let mut grid = HexGrid::new();
    grid.set(Hex::origin(), floor());
    grid.set(Hex::new(3, -3, 0), floor());
    assert!(pathfind(&grid, Hex::origin(), Hex::new(3, -3, 0)).is_none());
}

#[test]
fn grid_get_mut_changes_the_tile() {
    let mut grid = HexGrid::new();
    grid.set(Hex::origin(), GridTile::Floor);
    if let Some(t) = grid.get_mut(Hex::origin()) {
        *t = GridTile::Wall;
    }
    assert_eq!(grid.get(Hex::origin()), Some(&GridTile::Wall));
    assert!(grid.get_mut(Hex::new(1, -1, 0)).is_none());
}

#[test]
fn grid_set_twice_keeps_one_entry() {
    let mut grid = HexGrid::new();
    grid.set(Hex::origin(), GridTile::Floor);
    grid.set(Hex::origin(), GridTile::Wall);
    assert_eq!(grid.len(), 1);
    assert_eq!(grid.get(Hex::origin()), Some(&GridTile::Wall));
    grid.clear();
    assert!(grid.is_empty());
}

#[test]
fn direction_table() {
    assert_eq!(direction(0), Hex::new(1, -1, 0));
    assert_eq!(direction(3), Hex::new(-1, 1, 0));
    assert_eq!(direction(5), Hex::new(0, -1, 1));
}

#[test]
fn hex_text_form() {
    assert_eq!(Hex::new(1, -2, 1).to_string(), "(1, -2, 1)");
    assert_eq!(Hex::origin().to_string(), "(0, 0, 0)");
}

#[test]
fn distance_is_a_metric_on_examples() {
    let a = Hex::new(2, -1, -1);
    let b = Hex::new(-1, 3, -2);
    let c = Hex::new(0, 0, 0);
    assert_eq!(a.distance(a), 0);
    assert_eq!(a.distance(b), b.distance(a));
    assert!(a.distance(b) <= a.distance(c) + c.distance(b));
    assert_eq!(a.distance(b), 4);
}

#[test]
fn grid_reads_back_writes() {
    let mut grid = HexGrid::new();
    let p = Hex::new(1, 0, -1);
    let q = Hex::new(0, 1, -1);
    grid.set(q, GridTile::Floor);
    grid.set(p, GridTile::Wall);
    assert_eq!(grid.get(p), Some(&GridTile::Wall));
    assert_eq!(grid.get(q), Some(&GridTile::Floor));
    assert_eq!(grid.remove(p), Some(GridTile::Wall));
    assert_eq!(grid.get(p), None);
    assert_eq!(grid.get(q), Some(&GridTile::Floor));
}

#[test]
fn pathfind_takes_shortest_walks() {
    let mut grid = HexGrid::new();
    for hex in range(Hex::origin(), 4) {
        grid.set(hex, floor());
    }
    let from = Hex::new(-3, 3, 0);
    let to = Hex::new(3, -1, -2);
    let path = pathfind(&grid, from, to).unwrap();
    assert_eq!(path.len() as i32, from.distance(to) + 1);

    // Around a wall the detour is one step longer than the straight line.
    grid.set(Hex::new(1, -1, 0), wall());
    let path = pathfind(&grid, Hex::origin(), Hex::new(2, -2, 0)).unwrap();
    assert_eq!(path.len(), 4);
}

#[test]
fn grid_neighbors_come_in_direction_order() {
    let mut grid = HexGrid::new();
    let origin = Hex::origin();
    grid.set(origin.neighbor(4), GridTile::Wall);
    grid.set(origin.neighbor(0), GridTile::Floor);
    grid.set(origin.neighbor(2), GridTile::Floor);
    let ns = grid.neighbors(origin);
    let hexes: Vec<Hex> = ns.iter().map(|(h, _)| *h).collect();
    assert_eq!(hexes, vec![origin.neighbor(0), origin.neighbor(2), origin.neighbor(4)]);
}

#[test]
fn grid_update_all_in_place() {
    let mut grid: HexGrid<i32> = HexGrid::new();
    grid.set(Hex::origin(), 1);
    grid.set(Hex::new(1, -1, 0), 5);
    grid.update_all(|h: Hex, t: &i32| *t * 10 + h.x);
    assert_eq!(grid.len(), 2);
    assert_eq!(grid.get(Hex::origin()), Some(&10));
    assert_eq!(grid.get(Hex::new(1, -1, 0)), Some(&51));
}

#[test]
fn line_breaks_ties_exactly() {
    let line = Hex::new(-4, -4, 8).line_to(Hex::new(7, 7, -14));
    assert_eq!(line.len(), 23);
    assert_eq!(line[15], Hex::new(4, 3, -7));
}

#[test]
fn ring_walk_is_every_hex_at_the_distance_once() {
    let center = Hex::new(2, -5, 3);
    for r in 1..5 {
        let hexes = ring(center, r);
        assert_eq!(hexes.len(), 6 * r as usize);
        let mut at_distance = 0;
        for x in -10..=10 {
            for y in -10..=10 {
                let h = Hex::new(center.x + x, center.y + y, center.z - x - y);
                if h.distance(center) == r {
                    at_distance += 1;
                    assert_eq!(hexes.iter().filter(|g| **g == h).count(), 1);
                }
            }
        }
        assert_eq!(at_distance, 6 * r as usize);
    }
}

#[test]
fn line_steps_are_neighbours() {
    let a = Hex::new(-4, -4, 8);
    let b = Hex::new(7, 7, -14);
    let line = a.line_to(b);
    assert_eq!(line.len(), 23);
    for i in 0..line.len() - 1 {
        assert_eq!(line[i].distance(line[i + 1]), 1);
    }
}

#[test]
fn range_counts_the_disk() {
    assert_eq!(range(Hex::origin(), 0).len(), 1);
    assert_eq!(range(Hex::origin(), 1).len(), 7);
    assert_eq!(range(Hex::new(3, -1, -2), 3).len(), 37);
}
