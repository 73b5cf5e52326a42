//! Where an army may go: passability, reachable tiles and legal targets.

use vstd::prelude::*;
use std::collections::HashSet;
use vstd::std_specs::iter::IteratorSpec;
use crate::cubic::{Cube, key_of, fits, spec_direction, directions, cube_at};
use super::{World, Tile, TileCategory, LocalityCategory, MAX_TRAVEL_DISTANCE, has_airport};
use super::morale::same_owner;

verus! {

broadcast use vstd::std_specs::hash::group_hash_axioms;

/// The tile holds a port city.
pub open spec fn has_port(t: Tile) -> bool {
    t.locality matches Some(l) && l.category == LocalityCategory::PortCity
}

/// The neighbour of `c` in direction `i`.
pub open spec fn step(c: Cube<i32>, i: int) -> Cube<i32> {
    cube_at(c.0 + spec_direction(i).0, c.1 + spec_direction(i).1)
}

/// An army at `ok` may pass through the tile at `tk`: it exists; it is land,
/// or the army starts from water or a port; any army on it is of the same
/// owner; and any locality on it belongs to the origin's owner.
pub open spec fn passable(m: Map<u64, Tile>, ok: u64, tk: u64) -> bool {
    &&& m.contains_key(tk)
    &&& (m[tk].category == TileCategory::Water ==> has_port(m[ok]) || m[ok].category == TileCategory::Water)
    &&& (m[tk].army matches Some(a) ==> a.owner_index == m[ok].army->0.owner_index)
    &&& (m[tk].locality is Some ==> m[tk].owner_index == m[ok].owner_index)
}

/// An army at `ok` may target the tile at `tk`: it exists, and if it is
/// water the army starts from water or a port.
pub open spec fn targetable(m: Map<u64, Tile>, ok: u64, tk: u64) -> bool {
    &&& m.contains_key(tk)
    &&& (m[tk].category == TileCategory::Water ==> m[ok].category == TileCategory::Water || has_port(m[ok]))
}

/// The keys of the tiles seen after `d` rounds of the search from `s`:
/// `s` itself, then every existing neighbour of the previous round's fringe.
pub open spec fn visited_after(m: Map<u64, Tile>, s: Cube<i32>, d: nat) -> Set<u64>
    decreases d, 0nat,
{
    if d == 0 {
        set![key_of(s)]
    } else {
        let prev = visited_after(m, s, (d - 1) as nat);
        let fringe = fringe_after(m, s, (d - 1) as nat);
        prev.union(Set::new(|k: u64| m.contains_key(k) && exists|c: Cube<i32>, i: int|
            fringe.contains(c) && 0 <= i < 6 && k == key_of(#[trigger] step(c, i))))
    }
}

/// The cubes the search from `s` goes on from after `d` rounds: `s` itself,
/// then every neighbour of the previous fringe that was not yet seen and
/// that the army at `s` may pass.
pub open spec fn fringe_after(m: Map<u64, Tile>, s: Cube<i32>, d: nat) -> Set<Cube<i32>>
    decreases d, 1nat,
{
    if d == 0 {
        set![s]
    } else {
        let prev = visited_after(m, s, (d - 1) as nat);
        let fringe = fringe_after(m, s, (d - 1) as nat);
        Set::new(|n: Cube<i32>| exists|c: Cube<i32>, i: int|
            fringe.contains(c) && 0 <= i < 6 && n == #[trigger] step(c, i)
            && !prev.contains(key_of(n)) && passable(m, key_of(s), key_of(n)))
    }
}

/// The tiles an army at `s` can reach: those seen within
/// `MAX_TRAVEL_DISTANCE` rounds of the search, other than `s`. Impassable
/// tiles are reached but not gone through.
pub open spec fn reachable(m: Map<u64, Tile>, s: Cube<i32>) -> Set<u64> {
    visited_after(m, s, MAX_TRAVEL_DISTANCE as nat).remove(key_of(s))
}

/// The tiles next to `s`, and those next to a neighbour of `s` that an
/// army at `s` may pass, other than `s` itself.
pub open spec fn within_two_steps(m: Map<u64, Tile>, s: Cube<i32>) -> Set<u64> {
    Set::new(|k: u64| k != key_of(s) && m.contains_key(k) && (
        (exists|i: int| 0 <= i < 6 && k == key_of(#[trigger] step(s, i)))
        || (exists|i: int, j: int| 0 <= i < 6 && 0 <= j < 6 && passable(m, key_of(s), key_of(step(s, i)))
            && k == key_of(#[trigger] step(step(s, i), j)))))
}

/// The tiles an army can reach are its existing neighbours, passable or
/// not, and the existing neighbours of the neighbours it may pass.
pub proof fn law_reachable_closed_form(m: Map<u64, Tile>, s: Cube<i32>)
    requires
        fits(s, 1),
    ensures
        reachable(m, s) == within_two_steps(m, s),
{
    let ks = key_of(s);
    let v0 = visited_after(m, s, 0);
    let f0 = fringe_after(m, s, 0);
    let v1 = visited_after(m, s, 1);
    let f1 = fringe_after(m, s, 1);
    let v2 = visited_after(m, s, 2);
    assert(v0 == set![ks]);
    assert(f0 == set![s]);
    assert forall|i: int| 0 <= i < 6 implies key_of(#[trigger] step(s, i)) != ks by {
        crate::cubic::lemma_key_injective(step(s, i), s);
    }
    assert forall|k: u64| #[trigger] reachable(m, s).contains(k) implies within_two_steps(m, s).contains(k) by {
        assert(k != ks);
        if v1.contains(k) {
            let (c, i) = choose|c: Cube<i32>, i: int| f0.contains(c) && 0 <= i < 6 && k == key_of(#[trigger] step(c, i));
            assert(c == s);
        } else {
            let (c, j) = choose|c: Cube<i32>, j: int| f1.contains(c) && 0 <= j < 6 && k == key_of(#[trigger] step(c, j));
            let (c0, i) = choose|c0: Cube<i32>, i: int| f0.contains(c0) && 0 <= i < 6 && c == #[trigger] step(c0, i)
                && !v0.contains(key_of(c)) && passable(m, ks, key_of(c));
            assert(c0 == s);
            assert(k == key_of(step(step(s, i), j)));
        }
    }
    assert forall|k: u64| #[trigger] within_two_steps(m, s).contains(k) implies reachable(m, s).contains(k) by {
        if exists|i: int| 0 <= i < 6 && k == key_of(#[trigger] step(s, i)) {
            let i = choose|i: int| 0 <= i < 6 && k == key_of(#[trigger] step(s, i));
            assert(f0.contains(s));
            assert(v1.contains(k));
        } else {
            let (i, j) = choose|i: int, j: int| 0 <= i < 6 && 0 <= j < 6 && passable(m, ks, key_of(step(s, i)))
                && k == key_of(#[trigger] step(step(s, i), j));
            let c = step(s, i);
            assert(f0.contains(s));
            assert(!v0.contains(key_of(c)));
            assert(f1.contains(c));
            assert(v2.contains(k));
        }
    }
    assert(reachable(m, s) =~= within_two_steps(m, s));
}

impl World {
    /// May an army at `origin` pass through the tile at `target`?
    pub fn is_cube_passable(&self, origin: &Cube<i32>, target: &Cube<i32>) -> (b: bool)
        requires
            self.has(*origin),
            self.has(*target) && self.at(*target).army is Some ==> self.at(*origin).army is Some,
        ensures
            b == passable(self.world@, key_of(*origin), key_of(*target)),
    {
        let origin_t = self.get(origin).unwrap();
        match self.get(target) {
            Some(tile) => {
                let cat_cond = match tile.category {
                    TileCategory::Water => {
                        is_port_tile(origin_t) || origin_t.category == TileCategory::Water
                    },
                    _ => true,
                };
                let arm_cond = match &tile.army {
                    Some(army) => same_owner(army.owner_index, origin_t.army.as_ref().unwrap().owner_index),
                    None => true,
                };
                let loc_cond = match &tile.locality {
                    Some(_) => same_owner(tile.owner_index, origin_t.owner_index),
                    None => true,
                };
                cat_cond && arm_cond && loc_cond
            },
            None => false,
        }
    }

    /// May an army at `origin` target the tile at `target`?
    pub fn is_cube_targetable(&self, origin: &Cube<i32>, target: &Cube<i32>) -> (b: bool)
        requires
            self.has(*origin),
        ensures
            b == targetable(self.world@, key_of(*origin), key_of(*target)),
    {
        let origin_t = self.get(origin).unwrap();
        match self.get(target) {
            Some(tile) => match tile.category {
                TileCategory::Water => origin_t.category == TileCategory::Water || is_port_tile(origin_t),
                _ => true,
            },
            None => false,
        }
    }
}

/// Does the tile hold a port city?
pub fn is_port_tile(t: &Tile) -> (b: bool)
    ensures
        b == has_port(*t),
{
    match &t.locality {
        Some(l) => l.category == LocalityCategory::PortCity,
        None => false,
    }
}

/// Does the tile hold an airport?
pub fn is_airport_tile(t: &Tile) -> (b: bool)
    ensures
        b == has_airport(*t),
{
    match &t.locality {
        Some(l) => l.category == LocalityCategory::Airport,
        None => false,
    }
}

/// The step in direction `j` from `c` has been looked at once the search
/// has handled the first `f` fringe cubes of `fr` and `i` directions of the next one.
pub open spec fn processed(fr: Seq<Cube<i32>>, f: int, i: int, c: Cube<i32>, j: int) -> bool {
    &&& 0 <= j < 6
    &&& (fr.take(f).contains(c) || (0 <= f < fr.len() && c == fr[f] && j < i))
}

/// The existing tiles among the steps looked at so far.
pub open spec fn seen_part(m: Map<u64, Tile>, fr: Seq<Cube<i32>>, f: int, i: int) -> Set<u64> {
    Set::new(|k: u64| m.contains_key(k) && exists|c: Cube<i32>, j: int|
        processed(fr, f, i, c, j) && k == key_of(#[trigger] step(c, j)))
}

/// The passable, newly seen cubes among the steps looked at so far.
pub open spec fn fringe_part(m: Map<u64, Tile>, s: Cube<i32>, prev: Set<u64>, fr: Seq<Cube<i32>>, f: int, i: int) -> Set<Cube<i32>> {
    Set::new(|n: Cube<i32>| exists|c: Cube<i32>, j: int|
        processed(fr, f, i, c, j) && n == #[trigger] step(c, j)
        && !prev.contains(key_of(n)) && passable(m, key_of(s), key_of(n)))
}

/// Any army that the search from `s` meets can be compared with the army
/// at `s`: `s` has an army, or no tile the search sees other than `s` has one.
pub open spec fn search_defined(m: Map<u64, Tile>, s: Cube<i32>) -> bool {
    m[key_of(s)].army is Some || forall|k: u64| #[trigger] visited_after(m, s, MAX_TRAVEL_DISTANCE as nat).contains(k)
        && k != key_of(s) ==> m[k].army is None
}

/// `c` lies within `d` of `s` on both stored axes.
pub open spec fn near(s: Cube<i32>, c: Cube<i32>, d: int) -> bool {
    -d <= c.0 - s.0 <= d && -d <= c.1 - s.1 <= d
}

/// Every key the search sees, other than the start, is a tile of the world.
pub proof fn lemma_visited_in_world(m: Map<u64, Tile>, s: Cube<i32>, d: nat)
    ensures
        forall|k: u64| #[trigger] visited_after(m, s, d).contains(k) ==> k == key_of(s) || m.contains_key(k),
    decreases d,
{
    if d > 0 {
        lemma_visited_in_world(m, s, (d - 1) as nat);
    }
    assert forall|k: u64| #[trigger] visited_after(m, s, d).contains(k) implies k == key_of(s) || m.contains_key(k) by {
        if d > 0 {
            assert(visited_after(m, s, (d - 1) as nat).contains(k) || m.contains_key(k));
        }
    }
}

/// The cubes visited within `d` steps are among those visited within `d + 1`.
pub proof fn lemma_visited_grows(m: Map<u64, Tile>, s: Cube<i32>, d: nat)
    ensures
        visited_after(m, s, d).subset_of(visited_after(m, s, d + 1)),
{
}

impl World {
    /// The keys of the tiles an army at `start_cube` can reach (see `reachable`).
    pub fn get_reachable_cubes(&self, start_cube: &Cube<i32>) -> (r: HashSet<u64>)
        requires
            self.has(*start_cube),
            fits(*start_cube, MAX_TRAVEL_DISTANCE as int),
            search_defined(self.world@, *start_cube),
        ensures
            r@ == reachable(self.world@, *start_cube),
    {
        let ghost m = self.world@;
        let ghost s = *start_cube;
        let dirs = directions();
        let mut visited: HashSet<u64> = HashSet::new();
        visited.insert(start_cube.key());
        let mut fringes: Vec<Cube<i32>> = Vec::new();
        fringes.push(*start_cube);
        assert(visited@ =~= visited_after(m, s, 0));
        assert(fringes@.to_set() =~= fringe_after(m, s, 0)) by {
            assert(fringes@[0] == s);
        }
        let max_travel: usize = MAX_TRAVEL_DISTANCE as usize;
        let mut d: usize = 0;
        while d < max_travel
            invariant
                m == self.world@,
                s == *start_cube,
                self.has(s),
                fits(s, MAX_TRAVEL_DISTANCE as int),
                search_defined(m, s),
                max_travel == MAX_TRAVEL_DISTANCE,
                forall|t: int| 0 <= t < 6 ==> #[trigger] dirs@[t] == spec_direction(t),
                0 <= d <= max_travel,
                visited@ == visited_after(m, s, d as nat),
                fringes@.to_set() == fringe_after(m, s, d as nat),
                forall|c: Cube<i32>| #[trigger] fringes@.contains(c) ==> near(s, c, d as int),
            decreases max_travel - d,
        {
            let ghost prev = visited@;
            let ghost fr = fringes@;
            let mut next: Vec<Cube<i32>> = Vec::new();
            proof {
                lemma_visited_grows(m, s, d as nat);
                if d + 1 < 2 {
                    lemma_visited_grows(m, s, (d + 1) as nat);
                }
                assert(seen_part(m, fr, 0, 0) =~= Set::empty()) by {
                    assert forall|c: Cube<i32>, j: int| !processed(fr, 0, 0, c, j) by {
                        assert(fr.take(0) =~= Seq::empty());
                    }
                }
                assert(fringe_part(m, s, prev, fr, 0, 0) =~= Set::empty()) by {
                    assert forall|c: Cube<i32>, j: int| !processed(fr, 0, 0, c, j) by {
                        assert(fr.take(0) =~= Seq::empty());
                    }
                }
                assert(next@.to_set() =~= Set::empty());
            }
            let mut f: usize = 0;
            while f < fringes.len()
                invariant
                    m == self.world@,
                    s == *start_cube,
                    self.has(s),
                    fits(s, MAX_TRAVEL_DISTANCE as int),
                    search_defined(m, s),
                    forall|t: int| 0 <= t < 6 ==> #[trigger] dirs@[t] == spec_direction(t),
                    0 <= d < max_travel,
                    max_travel == MAX_TRAVEL_DISTANCE,
                    prev == visited_after(m, s, d as nat),
                    fr == fringes@,
                    fr.to_set() == fringe_after(m, s, d as nat),
                    forall|c: Cube<i32>| #[trigger] fr.contains(c) ==> near(s, c, d as int),
                    visited_after(m, s, (d + 1) as nat).subset_of(visited_after(m, s, MAX_TRAVEL_DISTANCE as nat)),
                    0 <= f <= fr.len(),
                    visited@ == prev.union(seen_part(m, fr, f as int, 0)),
                    next@.to_set() == fringe_part(m, s, prev, fr, f as int, 0),
                    forall|c: Cube<i32>| #[trigger] next@.contains(c) ==> near(s, c, d + 1),
                decreases fr.len() - f,
            {
                let cube = fringes[f];
                assert(fr.contains(cube));
                let mut i: usize = 0;
                while i < 6
                    invariant
                        m == self.world@,
                        s == *start_cube,
                        self.has(s),
                        fits(s, MAX_TRAVEL_DISTANCE as int),
                        search_defined(m, s),
                        forall|t: int| 0 <= t < 6 ==> #[trigger] dirs@[t] == spec_direction(t),
                        0 <= d < max_travel,
                        max_travel == MAX_TRAVEL_DISTANCE,
                        prev == visited_after(m, s, d as nat),
                        fr == fringes@,
                        fr.to_set() == fringe_after(m, s, d as nat),
                        visited_after(m, s, (d + 1) as nat).subset_of(visited_after(m, s, MAX_TRAVEL_DISTANCE as nat)),
                        0 <= f < fr.len(),
                        cube == fr[f as int],
                        near(s, cube, d as int),
                        0 <= i <= 6,
                        visited@ == prev.union(seen_part(m, fr, f as int, i as int)),
                        next@.to_set() == fringe_part(m, s, prev, fr, f as int, i as int),
                        forall|c: Cube<i32>| #[trigger] next@.contains(c) ==> near(s, c, d + 1),
                    decreases 6 - i,
                {
                    let dir = dirs[i];
                    assert(-1 <= dir.0 <= 1 && -1 <= dir.1 <= 1);
                    let neighbour = Cube(cube.0 + dir.0, cube.1 + dir.1);
                    assert(near(s, neighbour, d + 1));
                    let ghost ii = i as int;
                    assert(neighbour == step(cube, ii));
                    let k = neighbour.key();
                    let ghost old_next = next@;
                    let ghost old_visited = visited@;
                    assert forall|c: Cube<i32>, j: int| #[trigger] processed(fr, f as int, ii + 1, c, j)
                        <==> (processed(fr, f as int, ii, c, j) || (c == cube && j == ii)) by {}
                    if !visited.contains(&k) {
                        if self.get(&neighbour).is_some() {
                            visited.insert(k);
                        }
                        proof {
                            if self.has(neighbour) && self.at(neighbour).army is Some && self.at(*start_cube).army is None {
                                assert(fr.to_set().contains(cube));
                                assert(visited_after(m, s, (d + 1) as nat).contains(k));
                                crate::cubic::lemma_key_injective(neighbour, s);
                                assert(visited_after(m, s, MAX_TRAVEL_DISTANCE as nat).contains(k));
                            }
                        }
                        if self.is_cube_passable(start_cube, &neighbour) {
                            next.push(neighbour);
                            proof {
                                old_next.lemma_push_to_set_commute(neighbour);
                                assert forall|c: Cube<i32>| #[trigger] next@.contains(c) implies near(s, c, d + 1) by {
                                    if c != neighbour {
                                        let idx = choose|idx: int| 0 <= idx < next@.len() && #[trigger] next@[idx] == c;
                                        assert(old_next[idx] == c);
                                        assert(old_next.contains(c));
                                    }
                                }
                            }
                        }
                        assert(visited@ =~= prev.union(seen_part(m, fr, f as int, ii + 1)));
                        assert(next@.to_set() =~= fringe_part(m, s, prev, fr, f as int, ii + 1)) by {
                            assert forall|n: Cube<i32>| fringe_part(m, s, prev, fr, f as int, ii + 1).contains(n)
                                implies #[trigger] next@.to_set().contains(n) by {
                                let (c, j) = choose|c: Cube<i32>, j: int| processed(fr, f as int, ii + 1, c, j)
                                    && n == #[trigger] step(c, j) && !prev.contains(key_of(n)) && passable(m, key_of(s), key_of(n));
                                if !(c == cube && j == ii) {
                                    assert(fringe_part(m, s, prev, fr, f as int, ii).contains(n));
                                } else {
                                    assert(n == neighbour);
                                }
                            }
                        }
                    } else {
                        assert(visited@ =~= prev.union(seen_part(m, fr, f as int, ii + 1)));
                        assert(next@.to_set() =~= fringe_part(m, s, prev, fr, f as int, ii + 1)) by {
                            assert forall|n: Cube<i32>| fringe_part(m, s, prev, fr, f as int, ii + 1).contains(n)
                                implies #[trigger] next@.to_set().contains(n) by {
                                let (c, j) = choose|c: Cube<i32>, j: int| processed(fr, f as int, ii + 1, c, j)
                                    && n == #[trigger] step(c, j) && !prev.contains(key_of(n)) && passable(m, key_of(s), key_of(n));
                                if !(c == cube && j == ii) {
                                    assert(fringe_part(m, s, prev, fr, f as int, ii).contains(n));
                                } else {
                                    assert(n == neighbour);
                                    assert(seen_part(m, fr, f as int, ii).contains(k));
                                    let (c2, j2) = choose|c2: Cube<i32>, j2: int| processed(fr, f as int, ii, c2, j2)
                                        && k == key_of(#[trigger] step(c2, j2));
                                    crate::cubic::lemma_key_injective(step(c2, j2), neighbour);
                                    assert(fringe_part(m, s, prev, fr, f as int, ii).contains(step(c2, j2)));
                                }
                            }
                        }
                    }
                    i = i + 1;
                }
                assert forall|c: Cube<i32>, j: int| #[trigger] processed(fr, f as int, 6, c, j)
                    == processed(fr, f + 1, 0, c, j) by {
                    if fr.take(f + 1).contains(c) {
                        let idx = choose|idx: int| 0 <= idx < f + 1 && #[trigger] fr.take(f + 1)[idx] == c;
                        if idx < f {
                            assert(fr.take(f as int)[idx] == c);
                        }
                    }
                    if fr.take(f as int).contains(c) {
                        let idx = choose|idx: int| 0 <= idx < f && #[trigger] fr.take(f as int)[idx] == c;
                        assert(fr.take(f + 1)[idx] == c);
                    }
                    if c == cube {
                        assert(fr.take(f + 1)[f as int] == c);
                    }
                }
                assert(seen_part(m, fr, f as int, 6) =~= seen_part(m, fr, f + 1, 0));
                assert(fringe_part(m, s, prev, fr, f as int, 6) =~= fringe_part(m, s, prev, fr, f + 1, 0));
                f = f + 1;
            }
            assert(fr.take(fr.len() as int) =~= fr);
            assert(visited@ =~= visited_after(m, s, (d + 1) as nat)) by {
                assert forall|k: u64| visited@.contains(k) <==> #[trigger] visited_after(m, s, (d + 1) as nat).contains(k) by {
                    if seen_part(m, fr, fr.len() as int, 0).contains(k) {
                        let (c, j) = choose|c: Cube<i32>, j: int| processed(fr, fr.len() as int, 0, c, j)
                            && k == key_of(#[trigger] step(c, j));
                        assert(fr.to_set().contains(c));
                    }
                    if visited_after(m, s, (d + 1) as nat).contains(k) && !prev.contains(k) {
                        let (c, j) = choose|c: Cube<i32>, j: int|
                            fringe_after(m, s, d as nat).contains(c) && 0 <= j < 6 && k == key_of(#[trigger] step(c, j));
                        assert(processed(fr, fr.len() as int, 0, c, j));
                    }
                }
            }
            assert(next@.to_set() =~= fringe_after(m, s, (d + 1) as nat)) by {
                assert forall|n: Cube<i32>| next@.to_set().contains(n) <==> #[trigger] fringe_after(m, s, (d + 1) as nat).contains(n) by {
                    if fringe_part(m, s, prev, fr, fr.len() as int, 0).contains(n) {
                        let (c, j) = choose|c: Cube<i32>, j: int| processed(fr, fr.len() as int, 0, c, j)
                            && n == #[trigger] step(c, j) && !prev.contains(key_of(n)) && passable(m, key_of(s), key_of(n));
                        assert(fr.to_set().contains(c));
                    }
                    if fringe_after(m, s, (d + 1) as nat).contains(n) {
                        let (c, j) = choose|c: Cube<i32>, j: int|
                            fringe_after(m, s, d as nat).contains(c) && 0 <= j < 6 && n == #[trigger] step(c, j)
                            && !prev.contains(key_of(n)) && passable(m, key_of(s), key_of(n));
                        assert(processed(fr, fr.len() as int, 0, c, j));
                    }
                }
            }
            fringes = next;
            d = d + 1;
        }
        visited.remove(&start_cube.key());
        visited
    }
}

/// Some tile an army at `c` can reach is owned by someone other than the
/// owner of `c`.
pub open spec fn capturable_within_range(m: Map<u64, Tile>, c: Cube<i32>) -> bool {
    exists|k: u64| #[trigger] reachable(m, c).contains(k) && m[k].owner_index != m[key_of(c)].owner_index
}

/// The tiles an army at `o` of player `owner` may be ordered to: the
/// reachable tiles it may target, and, from an airport, every airport of
/// `owner`; never `o` itself.
pub open spec fn legal_moves(m: Map<u64, Tile>, o: Cube<i32>, owner: usize) -> Set<u64> {
    let ko = key_of(o);
    let by_land = Set::new(|k: u64| reachable(m, o).contains(k) && targetable(m, ko, k));
    let by_air = if has_airport(m[ko]) {
        Set::new(|k: u64| m.contains_key(k) && has_airport(m[k]) && m[k].owner_index == Some(owner))
    } else {
        Set::empty()
    };
    by_land.union(by_air).remove(ko)
}

impl World {
    /// The keys of the tiles an army at `origin` of player `owner_index` may
    /// be ordered to (see `legal_moves`).
    pub fn get_all_legal_moves(&self, origin: &Cube<i32>, owner_index: &usize) -> (r: HashSet<u64>)
        requires
            self.wf(),
            self.has(*origin),
            fits(*origin, MAX_TRAVEL_DISTANCE as int),
            search_defined(self.world@, *origin),
        ensures
            r@ == legal_moves(self.world@, *origin, *owner_index),
    {
        let ghost m = self.world@;
        let ghost ko = key_of(*origin);
        let mut legal_moves: HashSet<u64> = HashSet::new();
        let reachable_cubes = self.get_reachable_cubes(origin);
        let ghost by_land = Set::new(|k: u64| reachable(m, *origin).contains(k) && targetable(m, ko, k));
        let ghost all = reachable_cubes.iter().remaining();
        for target in it: reachable_cubes.iter()
            invariant
                m == self.world@,
                ko == key_of(*origin),
                self.has(*origin),
                all == it.seq(),
                all.unref().to_set() == reachable(m, *origin),
                by_land == Set::new(|k: u64| reachable(m, *origin).contains(k) && targetable(m, ko, k)),
                legal_moves@ == Set::new(|k: u64| all.unref().take(it.index() as int).contains(k) && targetable(m, ko, k)),
        {
            let ghost i = it.index() as int;
            let cube = Cube::from_key(*target);
            if self.is_cube_targetable(origin, &cube) {
                legal_moves.insert(*target);
            }
            assert(all.unref()[i] == *target);
            assert(legal_moves@ =~= Set::new(|k: u64| all.unref().take(i + 1).contains(k) && targetable(m, ko, k))) by {
                assert forall|k: u64| all.unref().take(i + 1).contains(k) <==> (all.unref().take(i).contains(k) || k == *target) by {
                    if all.unref().take(i + 1).contains(k) {
                        let j = choose|j: int| 0 <= j < i + 1 && #[trigger] all.unref().take(i + 1)[j] == k;
                        if j < i {
                            assert(all.unref().take(i)[j] == k);
                        }
                    }
                    if all.unref().take(i).contains(k) {
                        let j = choose|j: int| 0 <= j < i && #[trigger] all.unref().take(i)[j] == k;
                        assert(all.unref().take(i + 1)[j] == k);
                    }
                    if k == *target {
                        assert(all.unref().take(i + 1)[i] == k);
                    }
                }
            }
        }
        assert(all.unref().take(all.len() as int) =~= all.unref());
        assert(legal_moves@ =~= by_land) by {
            assert forall|k: u64| all.unref().contains(k) <==> #[trigger] all.unref().to_set().contains(k) by {}
        }
        let origin_tile = self.get(origin).unwrap();
        if is_airport_tile(origin_tile) {
            let ghost before = legal_moves@;
            match self.cubes_by_ownership.get(owner_index) {
                Some(player_cubes) => {
                    let ghost airports = self.cubes_with_airport.iter().remaining();
                    for k in it: self.cubes_with_airport.iter()
                        invariant
                            airports == it.seq(),
                            airports.unref().to_set() == self.cubes_with_airport@,
                            legal_moves@ == before.union(Set::new(|x: u64| airports.unref().take(it.index() as int).contains(x) && player_cubes@.contains(x))),
                    {
                        let ghost i = it.index() as int;
                        if player_cubes.contains(k) {
                            legal_moves.insert(*k);
                        }
                        assert(airports.unref()[i] == *k);
                        assert(legal_moves@ =~= before.union(Set::new(|x: u64| airports.unref().take(i + 1).contains(x) && player_cubes@.contains(x)))) by {
                            assert forall|x: u64| airports.unref().take(i + 1).contains(x) <==> (airports.unref().take(i).contains(x) || x == *k) by {
                                if airports.unref().take(i + 1).contains(x) {
                                    let j = choose|j: int| 0 <= j < i + 1 && #[trigger] airports.unref().take(i + 1)[j] == x;
                                    if j < i {
                                        assert(airports.unref().take(i)[j] == x);
                                    }
                                }
                                if airports.unref().take(i).contains(x) {
                                    let j = choose|j: int| 0 <= j < i && #[trigger] airports.unref().take(i)[j] == x;
                                    assert(airports.unref().take(i + 1)[j] == x);
                                }
                                if x == *k {
                                    assert(airports.unref().take(i + 1)[i] == x);
                                }
                            }
                        }
                    }
                    assert(airports.unref().take(airports.len() as int) =~= airports.unref());
                    assert(legal_moves@ =~= before.union(self.airport_keys().intersect(self.owned_keys(*owner_index)))) by {
                        assert forall|x: u64| airports.unref().contains(x) <==> #[trigger] airports.unref().to_set().contains(x) by {}
                    }
                },
                None => {
                    assert(self.owned_keys(*owner_index) =~= Set::empty()) by {
                        if exists|k: u64| self.owned_keys(*owner_index).contains(k) {
                            let k = choose|k: u64| self.owned_keys(*owner_index).contains(k);
                            assert(self.world@.contains_key(k) && self.world@[k].owner_index is Some);
                        }
                    }
                    assert(legal_moves@ =~= before.union(self.airport_keys().intersect(self.owned_keys(*owner_index))));
                },
            }
        } else {
            assert(legal_moves@ =~= by_land.union(Set::empty()));
        }
        legal_moves.remove(&origin.key());
        legal_moves
    }

    /// Is there, among the tiles an army at `cube` can reach, one owned by
    /// someone other than the owner of `cube`?
    pub fn is_there_capturable_tile_within_range(&self, cube: &Cube<i32>) -> (b: bool)
        requires
            self.has(*cube),
            fits(*cube, MAX_TRAVEL_DISTANCE as int),
            search_defined(self.world@, *cube),
        ensures
            b == capturable_within_range(self.world@, *cube),
    {
        let valid_targets = self.get_reachable_cubes(cube);
        let ghost all = valid_targets.iter().remaining();
        let origin = self.get(cube).unwrap();
        proof {
            lemma_visited_in_world(self.world@, *cube, MAX_TRAVEL_DISTANCE as nat);
        }
        for target in it: valid_targets.iter()
            invariant
                all == it.seq(),
                all.unref().to_set() == reachable(self.world@, *cube),
                forall|k: u64| #[trigger] reachable(self.world@, *cube).contains(k) ==> self.world@.contains_key(k),
                origin == self.at(*cube),
                forall|j: int| 0 <= j < it.index() ==> self.world@[#[trigger] all.unref()[j]].owner_index == origin.owner_index,
        {
            let ghost i = it.index() as int;
            assert(all.unref()[i] == *target);
            assert(all.unref().to_set().contains(*target));
            let target_tile = self.world.get(target).unwrap();
            if !same_owner(origin.owner_index, target_tile.owner_index) {
                return true;
            }
        }
        assert forall|k: u64| #[trigger] reachable(self.world@, *cube).contains(k)
            implies self.world@[k].owner_index == self.at(*cube).owner_index by {
            assert(all.unref().to_set().contains(k));
            let j = choose|j: int| 0 <= j < all.len() && #[trigger] all.unref()[j] == k;
        }
        false
    }
}

} // verus!
