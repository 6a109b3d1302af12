//! Sparse hex grid storage.

use vstd::prelude::*;

use super::coord::{lemma_step_dist, spec_direction, Hex};

verus! {

/// Whether no hex occurs twice as a key in a list of entries.
pub open spec fn distinct_keys<T>(s: Seq<(Hex, T)>) -> bool {
    forall|i: int, j: int| 0 <= i < s.len() && 0 <= j < s.len() && i != j ==> s[i].0 != s[j].0
}

/// Whether a hex occurs as a key in a list of entries.
pub open spec fn has_key<T>(s: Seq<(Hex, T)>, h: Hex) -> bool {
    exists|i: int| 0 <= i < s.len() && #[trigger] s[i].0 == h
}

/// The position of a key in a list of entries.
pub open spec fn key_index<T>(s: Seq<(Hex, T)>, h: Hex) -> int {
    choose|i: int| 0 <= i < s.len() && #[trigger] s[i].0 == h
}

/// The map that a list of entries with distinct keys stands for.
pub open spec fn map_of<T>(s: Seq<(Hex, T)>) -> Map<Hex, T> {
    Map::new(|h: Hex| has_key(s, h), |h: Hex| s[key_index(s, h)].1)
}

/// An entry of a list with distinct keys is what the map holds at its key.
pub proof fn lemma_entry_in_map<T>(s: Seq<(Hex, T)>, i: int)
    requires
        distinct_keys(s),
        0 <= i < s.len(),
    ensures
        key_index(s, s[i].0) == i,
        map_of(s).contains_key(s[i].0),
        map_of(s)[s[i].0] == s[i].1,
{
    assert(has_key(s, s[i].0));
}

/// The map of a list with distinct keys has as many keys as the list has entries.
pub proof fn lemma_map_of_len<T>(s: Seq<(Hex, T)>)
    requires
        distinct_keys(s),
    ensures
        map_of(s).dom().finite(),
        map_of(s).dom().len() == s.len(),
{
    let ks = s.map_values(|p: (Hex, T)| p.0);
    assert(ks.no_duplicates()) by {
        assert forall|i: int, j: int| 0 <= i < ks.len() && 0 <= j < ks.len() && i != j implies ks[i]
            != ks[j] by {
            assert(ks[i] == s[i].0);
            assert(ks[j] == s[j].0);
        }
    }
    assert(map_of(s).dom() =~= ks.to_set()) by {
        assert forall|h: Hex| map_of(s).dom().contains(h) implies ks.to_set().contains(h) by {
            let i = choose|i: int| 0 <= i < s.len() && #[trigger] s[i].0 == h;
            assert(ks[i] == h);
        }
        assert forall|h: Hex| ks.to_set().contains(h) implies map_of(s).dom().contains(h) by {
            let i = choose|i: int| 0 <= i < ks.len() && ks[i] == h;
            assert(s[i].0 == h);
        }
    }
    ks.unique_seq_to_set();
}

/// A sparse hex grid storing tiles of type T.
#[derive(Debug, Clone)]
pub struct HexGrid<T> {
    tiles: Vec<(Hex, T)>,
}

impl<T> View for HexGrid<T> {
    type V = Map<Hex, T>;

    /// The tile at each occupied hex.
    closed spec fn view(&self) -> Map<Hex, T> {
        map_of(self.tiles@)
    }
}

/// The neighbors of `pos` that a grid holds, in direction order, among the
/// first `d` directions.
pub open spec fn present_neighbors<T>(m: Map<Hex, T>, pos: Hex, d: int) -> Seq<Hex>
    decreases d,
{
    if d <= 0 {
        Seq::empty()
    } else if m.contains_key(pos.plus(spec_direction(d - 1))) {
        present_neighbors(m, pos, d - 1).push(pos.plus(spec_direction(d - 1)))
    } else {
        present_neighbors(m, pos, d - 1)
    }
}

impl<T> HexGrid<T> {
    /// No hex is stored twice.
    pub closed spec fn wf(&self) -> bool {
        distinct_keys(self.tiles@)
    }

    /// The set of occupied hexes is finite.
    pub proof fn lemma_finite(&self)
        ensures
            self@.dom().finite(),
    {
        let s = self.tiles@;
        let ks = s.map_values(|p: (Hex, T)| p.0);
        assert(self@.dom().subset_of(ks.to_set())) by {
            assert forall|h: Hex| self@.dom().contains(h) implies ks.to_set().contains(h) by {
                let i = choose|i: int| 0 <= i < s.len() && #[trigger] s[i].0 == h;
                assert(ks[i] == h);
            }
        }
        vstd::set_lib::lemma_set_subset_finite(ks.to_set(), self@.dom());
    }

    /// Position of `pos` in the storage, if present.
    fn find(&self, pos: Hex) -> (r: Option<usize>)
        ensures
            match r {
                Some(i) => i < self.tiles@.len() && self.tiles@[i as int].0 == pos,
                None => !has_key(self.tiles@, pos),
            },
    {
        let mut i: usize = 0;
        while i < self.tiles.len()
            invariant
                i <= self.tiles@.len(),
                forall|k: int| 0 <= k < i ==> self.tiles@[k].0 != pos,
            decreases self.tiles@.len() - i,
        {
            if self.tiles[i].0 == pos {
                return Some(i);
            }
            i = i + 1;
        }
        None
    }

    /// Create an empty grid.
    pub fn new() -> (g: Self)
        ensures
            g.wf(),
            g@ == Map::<Hex, T>::empty(),
    {
        let g = HexGrid { tiles: Vec::new() };
        assert(map_of(g.tiles@) =~= Map::<Hex, T>::empty());
        g
    }

    /// Get a tile at a position.
    pub fn get(&self, pos: Hex) -> (r: Option<&T>)
        requires
            self.wf(),
        ensures
            match r {
                Some(t) => self@.contains_key(pos) && *t == self@[pos],
                None => !self@.contains_key(pos),
            },
    {
        match self.find(pos) {
            Some(i) => {
                proof {
                    lemma_entry_in_map(self.tiles@, i as int);
                }
                Some(&self.tiles[i].1)
            },
            None => None,
        }
    }

    /// Set a tile at a position.
    pub fn set(&mut self, pos: Hex, tile: T)
        requires
            old(self).wf(),
        ensures
            final(self).wf(),
            final(self)@ == old(self)@.insert(pos, tile),
    {
        let ghost old_tiles = self.tiles@;
        match self.find(pos) {
            Some(i) => {
                self.tiles.set(i, (pos, tile));
                proof {
                    let s = self.tiles@;
                    assert(s == old_tiles.update(i as int, (pos, tile)));
                    assert(distinct_keys(s)) by {
                        assert forall|a: int, b: int|
                            0 <= a < s.len() && 0 <= b < s.len() && a != b implies s[a].0
                            != s[b].0 by {
                            assert(s[a].0 == old_tiles[a].0);
                            assert(s[b].0 == old_tiles[b].0);
                        }
                    }
                    lemma_map_update(old_tiles, i as int, pos, tile);
                }
                            },
            None => {
                self.tiles.push((pos, tile));
                proof {
                    lemma_map_push(old_tiles, pos, tile);
                }
                            },
        }
    }

    /// Remove a tile at a position, returning it.
    pub fn remove(&mut self, pos: Hex) -> (r: Option<T>)
        requires
            old(self).wf(),
        ensures
            final(self).wf(),
            final(self)@ == old(self)@.remove(pos),
            match r {
                Some(t) => old(self)@.contains_key(pos) && t == old(self)@[pos],
                None => !old(self)@.contains_key(pos),
            },
    {
        let ghost old_tiles = self.tiles@;
        match self.find(pos) {
            Some(i) => {
                let (_, t) = self.tiles.remove(i);
                proof {
                    lemma_entry_in_map(old_tiles, i as int);
                    lemma_map_remove(old_tiles, i as int);
                }
                                Some(t)
            },
            None => {
                assert(map_of(old_tiles).remove(pos) =~= map_of(old_tiles));
                None
            },
        }
    }

    /// Get a mutable reference to a tile.
    pub fn get_mut(&mut self, pos: Hex) -> (r: Option<&mut T>)
        requires
            old(self).wf(),
        ensures
            final(self).wf(),
            match r {
                Some(t) => {
                    &&& old(self)@.contains_key(pos)
                    &&& *t == old(self)@[pos]
                    &&& final(self)@ == old(self)@.insert(pos, *final(t))
                },
                None => !old(self)@.contains_key(pos) && final(self)@ == old(self)@,
            },
    {
        match self.find(pos) {
            Some(i) => {
                let ghost old_tiles = self.tiles@;
                proof {
                    lemma_entry_in_map(old_tiles, i as int);
                }
                let r = &mut self.tiles[i].1;
                proof {
                    lemma_map_update(old_tiles, i as int, pos, *final(r));
                }
                Some(r)
            },
            None => None,
        }
    }

    /// Check if a position has a tile.
    pub fn contains(&self, pos: Hex) -> (b: bool)
        ensures
            b == self@.contains_key(pos),
    {
        self.find(pos).is_some()
    }

    /// Number of tiles in the grid.
    pub fn len(&self) -> (n: usize)
        requires
            self.wf(),
        ensures
            n == self@.dom().len(),
    {
        proof {
            lemma_map_of_len(self.tiles@);
        }
        self.tiles.len()
    }

    /// Check if grid is empty.
    pub fn is_empty(&self) -> (b: bool)
        requires
            self.wf(),
        ensures
            b == (self@.dom().len() == 0),
    {
        proof {
            lemma_map_of_len(self.tiles@);
        }
        self.tiles.len() == 0
    }

    /// All tiles with their positions, in storage order.
    pub fn iter(&self) -> (items: Vec<(Hex, &T)>)
        requires
            self.wf(),
        ensures
            items@.len() == self@.dom().len(),
            forall|k: int|
                0 <= k < items@.len() ==> self@.contains_key(#[trigger] items@[k].0) && *items@[k].1
                    == self@[items@[k].0],
            forall|h: Hex| #[trigger]
                self@.contains_key(h) ==> exists|k: int| 0 <= k < items@.len() && items@[k].0 == h,
            forall|a: int, b: int|
                0 <= a < items@.len() && 0 <= b < items@.len() && a != b ==> items@[a].0
                    != items@[b].0,
    {
        proof {
            lemma_map_of_len(self.tiles@);
        }
        let mut items: Vec<(Hex, &T)> = Vec::new();
        let mut i: usize = 0;
        while i < self.tiles.len()
            invariant
                i <= self.tiles@.len(),
                distinct_keys(self.tiles@),
                items@.len() == i,
                forall|k: int|
                    0 <= k < i ==> items@[k].0 == self.tiles@[k].0 && *items@[k].1
                        == self.tiles@[k].1,
            decreases self.tiles@.len() - i,
        {
            items.push((self.tiles[i].0, &self.tiles[i].1));
            i = i + 1;
        }
        proof {
            assert forall|k: int|
                0 <= k < items@.len() implies self@.contains_key(#[trigger] items@[k].0)
                && *items@[k].1 == self@[items@[k].0] by {
                lemma_entry_in_map(self.tiles@, k);
            }
            assert forall|h: Hex| #[trigger]
                self@.contains_key(h) implies exists|k: int|
                0 <= k < items@.len() && items@[k].0 == h by {
                let k = choose|k: int| 0 <= k < self.tiles@.len() && #[trigger] self.tiles@[k].0 == h;
                assert(items@[k].0 == h);
            }
        }
        items
    }

    /// Get all neighboring tiles that exist, in direction order.
    pub fn neighbors(&self, pos: Hex) -> (ns: Vec<(Hex, &T)>)
        requires
            self.wf(),
            forall|d: int| 0 <= d < 6 ==> #[trigger] pos.sum_fits(spec_direction(d)),
        ensures
            ns@.len() <= 6,
            forall|k: int|
                0 <= k < ns@.len() ==> pos.dist(#[trigger] ns@[k].0) == 1 && self@.contains_key(
                    ns@[k].0,
                ) && *ns@[k].1 == self@[ns@[k].0],
            forall|d: int|
                0 <= d < 6 && #[trigger] self@.contains_key(pos.plus(spec_direction(d)))
                    ==> exists|k: int| 0 <= k < ns@.len() && ns@[k].0 == pos.plus(spec_direction(d)),
            ns@.map_values(|p: (Hex, &T)| p.0) == present_neighbors(self@, pos, 6),
    {
        let all = pos.neighbors();
        let mut ns: Vec<(Hex, &T)> = Vec::new();
        let mut d: usize = 0;
        while d < 6
            invariant
                d <= 6,
                ns@.len() <= d,
                self.wf(),
                forall|e: int| 0 <= e < 6 ==> #[trigger] all@[e] == pos.plus(spec_direction(e)),
                forall|e: int| 0 <= e < 6 ==> #[trigger] pos.sum_fits(spec_direction(e)),
                forall|k: int|
                    0 <= k < ns@.len() ==> pos.dist(#[trigger] ns@[k].0) == 1
                        && self@.contains_key(ns@[k].0) && *ns@[k].1 == self@[ns@[k].0],
                forall|e: int|
                    0 <= e < d && #[trigger] self@.contains_key(pos.plus(spec_direction(e)))
                        ==> exists|k: int|
                        0 <= k < ns@.len() && ns@[k].0 == pos.plus(spec_direction(e)),
                ns@.map_values(|p: (Hex, &T)| p.0) == present_neighbors(self@, pos, d as int),
            decreases 6 - d,
        {
            let n = all[d];
            assert(n == pos.plus(spec_direction(d as int)));
            proof {
                lemma_step_dist(pos, d as int);
            }
            let ghost prev = ns@;
            match self.get(n) {
                Some(t) => {
                    ns.push((n, t));
                    assert(ns@[ns@.len() - 1].0 == n);
                },
                None => {},
            }
            proof {
                assert(ns@.map_values(|p: (Hex, &T)| p.0) =~= present_neighbors(self@, pos, d + 1));
                assert forall|e: int|
                    0 <= e < d + 1 && #[trigger] self@.contains_key(pos.plus(spec_direction(e)))
                        implies exists|k: int|
                        0 <= k < ns@.len() && ns@[k].0 == pos.plus(spec_direction(e)) by {
                    if e < d {
                        let k = choose|k: int|
                            0 <= k < prev.len() && prev[k].0 == pos.plus(spec_direction(e));
                        assert(ns@[k] == prev[k]);
                    } else {
                        assert(ns@[ns@.len() - 1].0 == n);
                    }
                }
            }
            d = d + 1;
        }
        ns
    }

    /// Update every tile in place: each becomes what `f` makes of its
    /// position and its old tile. No position is added or removed.
    pub fn update_all<F: Fn(Hex, &T) -> T>(&mut self, f: F)
        requires
            old(self).wf(),
            forall|h: Hex, t: T| #[trigger] f.requires((h, &t)),
        ensures
            final(self).wf(),
            final(self)@.dom() == old(self)@.dom(),
            forall|h: Hex| #[trigger] final(self)@.contains_key(h) ==> f.ensures(
                (h, &old(self)@[h]),
                final(self)@[h],
            ),
    {
        let ghost s = self.tiles@;
        let mut i: usize = 0;
        while i < self.tiles.len()
            invariant
                i <= self.tiles@.len(),
                self.tiles@.len() == s.len(),
                distinct_keys(s),
                forall|h: Hex, t: T| #[trigger] f.requires((h, &t)),
                forall|j: int| 0 <= j < s.len() ==> #[trigger] self.tiles@[j].0 == s[j].0,
                forall|j: int| 0 <= j < i ==> f.ensures((s[j].0, &s[j].1), #[trigger] self.tiles@[j].1),
                forall|j: int| i <= j < s.len() ==> #[trigger] self.tiles@[j] == s[j],
            decreases s.len() - i,
        {
            let k = self.tiles[i].0;
            let v = f(k, &self.tiles[i].1);
            self.tiles.set(i, (k, v));
            i = i + 1;
        }
        proof {
            let s2 = self.tiles@;
            assert(distinct_keys(s2)) by {
                assert forall|a: int, b: int| 0 <= a < s2.len() && 0 <= b < s2.len() && a != b implies s2[a].0
                    != s2[b].0 by {
                    assert(s2[a].0 == s[a].0);
                    assert(s2[b].0 == s[b].0);
                }
            }
            assert forall|h: Hex| map_of(s2).dom().contains(h) <==> map_of(s).dom().contains(h) by {
                if has_key(s2, h) {
                    let j = choose|j: int| 0 <= j < s2.len() && #[trigger] s2[j].0 == h;
                    assert(s[j].0 == h);
                }
                if has_key(s, h) {
                    let j = choose|j: int| 0 <= j < s.len() && #[trigger] s[j].0 == h;
                    assert(s2[j].0 == h);
                }
            }
            assert(map_of(s2).dom() =~= map_of(s).dom());
            assert forall|h: Hex| #[trigger] map_of(s2).contains_key(h) implies f.ensures(
                (h, &map_of(s)[h]),
                map_of(s2)[h],
            ) by {
                let j = choose|j: int| 0 <= j < s2.len() && #[trigger] s2[j].0 == h;
                assert(s[j].0 == h);
                lemma_entry_in_map(s, j);
                lemma_entry_in_map(s2, j);
            }
        }
    }

    /// Clear all tiles.
    pub fn clear(&mut self)
        ensures
            final(self).wf(),
            final(self)@ == Map::<Hex, T>::empty(),
    {
        self.tiles = Vec::new();
        assert(map_of(self.tiles@) =~= Map::<Hex, T>::empty());
    }
}

impl<T: Clone> HexGrid<T> {
    /// Fill a region with a tile: every listed hex gets a clone of it.
    pub fn fill(&mut self, hexes: Vec<Hex>, tile: T)
        requires
            old(self).wf(),
        ensures
            final(self).wf(),
            final(self)@.dom() == old(self)@.dom().union(hexes@.to_set()),
            forall|h: Hex|
                #[trigger] final(self)@.contains_key(h) && !hexes@.contains(h) ==> final(self)@[h]
                    == old(self)@[h],
            forall|h: Hex| #[trigger] hexes@.contains(h) ==> cloned(tile, final(self)@[h]),
    {
        let mut i: usize = 0;
        let ghost start = self@;
        while i < hexes.len()
            invariant
                i <= hexes@.len(),
                self.wf(),
                self@.dom() == start.dom().union(hexes@.subrange(0, i as int).to_set()),
                forall|h: Hex|
                    #[trigger] self@.contains_key(h) && !hexes@.subrange(0, i as int).contains(h)
                        ==> self@[h] == start[h],
                forall|h: Hex|
                    #[trigger] hexes@.subrange(0, i as int).contains(h) ==> cloned(tile, self@[h]),
            decreases hexes@.len() - i,
        {
            let c = tile.clone();
            let h = hexes[i];
            self.set(h, c);
            proof {
                let prev = hexes@.subrange(0, i as int);
                let next = hexes@.subrange(0, i + 1);
                assert(next =~= prev.push(h));
                assert(next.to_set() =~= prev.to_set().insert(h)) by {
                    assert forall|x: Hex| next.to_set().contains(x) implies prev.to_set().insert(
                        x,
                    ).contains(x) by {
                        let k = choose|k: int| 0 <= k < next.len() && next[k] == x;
                        if k < prev.len() {
                            assert(prev[k] == x);
                        }
                    }
                    assert forall|x: Hex| prev.to_set().insert(h).contains(x) implies next.to_set().contains(
                        x,
                    ) by {
                        if x == h {
                            assert(next[i as int] == h);
                        } else {
                            let k = choose|k: int| 0 <= k < prev.len() && prev[k] == x;
                            assert(next[k] == x);
                        }
                    }
                }
                assert forall|x: Hex| #[trigger] next.contains(x) implies cloned(tile, self@[x]) by {
                    if x != h {
                        let k = choose|k: int| 0 <= k < next.len() && next[k] == x;
                        assert(prev[k] == x);
                    }
                }
                assert forall|x: Hex|
                    #[trigger] self@.contains_key(x) && !next.contains(x) implies self@[x]
                    == start[x] by {
                    if x == h {
                        assert(next[i as int] == h);
                    } else {
                        assert forall|k: int| 0 <= k < prev.len() implies prev[k] != x by {
                            assert(next[k] == prev[k]);
                        }
                    }
                }
            }
            i = i + 1;
        }
        assert(hexes@.subrange(0, hexes@.len() as int) =~= hexes@);
    }
}

/// What a grid reads back after a write: after setting a position it holds
/// the tile set there, after removing it it holds nothing, and either write
/// leaves every other position as it was.
pub proof fn lemma_read_after_write<T>(before: Map<Hex, T>, pos: Hex, tile: T, other: Hex)
    ensures
        before.insert(pos, tile).contains_key(pos),
        before.insert(pos, tile)[pos] == tile,
        !before.remove(pos).contains_key(pos),
        other != pos ==> {
            &&& before.insert(pos, tile).contains_key(other) == before.contains_key(other)
            &&& before.remove(pos).contains_key(other) == before.contains_key(other)
            &&& before.contains_key(other) ==> before.insert(pos, tile)[other] == before[other]
                && before.remove(pos)[other] == before[other]
        },
{
}

impl<T> Default for HexGrid<T> {
    fn default() -> (g: Self)
        ensures
            g.wf(),
            g@ == Map::<Hex, T>::empty(),
    {
        Self::new()
    }
}

/// Replacing the entry at `i` by one with the same key updates the map there.
proof fn lemma_map_update<T>(s: Seq<(Hex, T)>, i: int, pos: Hex, tile: T)
    requires
        distinct_keys(s),
        0 <= i < s.len(),
        s[i].0 == pos,
    ensures
        distinct_keys(s.update(i, (pos, tile))),
        map_of(s.update(i, (pos, tile))) == map_of(s).insert(pos, tile),
{
    let t = s.update(i, (pos, tile));
    assert(distinct_keys(t)) by {
        assert forall|a: int, b: int| 0 <= a < t.len() && 0 <= b < t.len() && a != b implies t[a].0
            != t[b].0 by {
            assert(t[a].0 == s[a].0);
            assert(t[b].0 == s[b].0);
        }
    }
    assert(map_of(t) =~= map_of(s).insert(pos, tile)) by {
        assert forall|h: Hex| map_of(t).contains_key(h) <==> map_of(s).insert(
            pos,
            tile,
        ).contains_key(h) by {
            if has_key(t, h) {
                let k = choose|k: int| 0 <= k < t.len() && #[trigger] t[k].0 == h;
                assert(s[k].0 == h);
            }
            if has_key(s, h) {
                let k = choose|k: int| 0 <= k < s.len() && #[trigger] s[k].0 == h;
                assert(t[k].0 == h);
            }
            if h == pos {
                assert(t[i].0 == h);
            }
        }
        assert forall|h: Hex| #[trigger] map_of(t).contains_key(h) implies map_of(t)[h] == map_of(
            s,
        ).insert(pos, tile)[h] by {
            let k = choose|k: int| 0 <= k < t.len() && #[trigger] t[k].0 == h;
            lemma_entry_in_map(t, k);
            if k != i {
                assert(s[k].0 == h);
                lemma_entry_in_map(s, k);
            }
        }
    }
}

/// Appending an entry with a new key inserts it into the map.
proof fn lemma_map_push<T>(s: Seq<(Hex, T)>, pos: Hex, tile: T)
    requires
        distinct_keys(s),
        !has_key(s, pos),
    ensures
        distinct_keys(s.push((pos, tile))),
        map_of(s.push((pos, tile))) == map_of(s).insert(pos, tile),
{
    let t = s.push((pos, tile));
    assert(distinct_keys(t)) by {
        assert forall|a: int, b: int| 0 <= a < t.len() && 0 <= b < t.len() && a != b implies t[a].0
            != t[b].0 by {
            if a < s.len() && b < s.len() {
                assert(t[a] == s[a]);
                assert(t[b] == s[b]);
            } else if a < s.len() {
                assert(t[a] == s[a]);
                assert(s[a].0 != pos);
            } else {
                assert(t[b] == s[b]);
                assert(s[b].0 != pos);
            }
        }
    }
    assert(map_of(t) =~= map_of(s).insert(pos, tile)) by {
        assert forall|h: Hex| map_of(t).contains_key(h) <==> map_of(s).insert(
            pos,
            tile,
        ).contains_key(h) by {
            if has_key(t, h) {
                let k = choose|k: int| 0 <= k < t.len() && #[trigger] t[k].0 == h;
                if k < s.len() {
                    assert(s[k].0 == h);
                }
            }
            if has_key(s, h) {
                let k = choose|k: int| 0 <= k < s.len() && #[trigger] s[k].0 == h;
                assert(t[k].0 == h);
            }
            if h == pos {
                assert(t[s.len() as int].0 == h);
            }
        }
        assert forall|h: Hex| #[trigger] map_of(t).contains_key(h) implies map_of(t)[h] == map_of(
            s,
        ).insert(pos, tile)[h] by {
            let k = choose|k: int| 0 <= k < t.len() && #[trigger] t[k].0 == h;
            lemma_entry_in_map(t, k);
            if k < s.len() {
                assert(t[k] == s[k]);
                lemma_entry_in_map(s, k);
            }
        }
    }
}

/// Removing the entry at `i` removes its key from the map.
proof fn lemma_map_remove<T>(s: Seq<(Hex, T)>, i: int)
    requires
        distinct_keys(s),
        0 <= i < s.len(),
    ensures
        distinct_keys(s.remove(i)),
        map_of(s.remove(i)) == map_of(s).remove(s[i].0),
{
    let t = s.remove(i);
    let pos = s[i].0;
    assert forall|k: int| 0 <= k < t.len() implies #[trigger] t[k] == if k < i {
        s[k]
    } else {
        s[k + 1]
    } by {}
    assert(distinct_keys(t)) by {
        assert forall|a: int, b: int| 0 <= a < t.len() && 0 <= b < t.len() && a != b implies t[a].0
            != t[b].0 by {
            let a2 = if a < i { a } else { a + 1 };
            let b2 = if b < i { b } else { b + 1 };
            assert(t[a] == s[a2]);
            assert(t[b] == s[b2]);
        }
    }
    assert(map_of(t) =~= map_of(s).remove(pos)) by {
        assert forall|h: Hex| map_of(t).contains_key(h) <==> map_of(s).remove(pos).contains_key(
            h,
        ) by {
            if has_key(t, h) {
                let k = choose|k: int| 0 <= k < t.len() && #[trigger] t[k].0 == h;
                let k2 = if k < i { k } else { k + 1 };
                assert(t[k] == s[k2]);
                assert(s[k2].0 == h);
                assert(k2 != i);
            }
            if has_key(s, h) && h != pos {
                let k = choose|k: int| 0 <= k < s.len() && #[trigger] s[k].0 == h;
                assert(k != i);
                let k2 = if k < i { k } else { k - 1 };
                assert(t[k2] == s[k]);
                assert(t[k2].0 == h);
            }
        }
        assert forall|h: Hex| #[trigger] map_of(t).contains_key(h) implies map_of(t)[h] == map_of(
            s,
        ).remove(pos)[h] by {
            let k = choose|k: int| 0 <= k < t.len() && #[trigger] t[k].0 == h;
            lemma_entry_in_map(t, k);
            let k2 = if k < i { k } else { k + 1 };
            assert(t[k] == s[k2]);
            lemma_entry_in_map(s, k2);
        }
    }
}

} // verus!
