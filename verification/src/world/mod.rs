//! The game world: tiles keyed by their cube, the armies standing on them,
//! and an index of which player owns which tiles.

use vstd::prelude::*;
use std::collections::HashMap;
use std::collections::HashSet;
use crate::cubic::{Cube, key_of, fits};
use crate::ai::AI;
use vstd::std_specs::iter::IteratorSpec;
use vstd::set::fold::is_fun_commutative;

pub mod army;
pub mod morale;
pub mod orders;
pub mod movement;
pub mod turn;
pub mod growth;
pub mod gen;

verus! {

broadcast use vstd::std_specs::hash::group_hash_axioms;

pub const ACTIONS_PER_TURN: i32 = 5;
pub const MAX_TRAVEL_DISTANCE: i32 = 2;
pub const EXTEND_BORDERS_DISTANCE: usize = 1;
pub const MAX_STACK_SIZE: i32 = 99;
pub const MORALE_BONUS_ANNEX_RURAL: i32 = 1;
pub const MORALE_BONUS_ANNEX_CITY_ORIGIN: i32 = 20;
pub const MORALE_BONUS_ANNEX_CITY_ALL: i32 = 10;
pub const MORALE_BONUS_ANNEX_SOVEREIGN_CAPITAL_ORIGIN: i32 = 80;
pub const MORALE_BONUS_ANNEX_SOVEREIGN_CAPITAL_ALL: i32 = 50;
pub const MORALE_PENALTY_LOSING_CITY: i32 = 10;
pub const MORALE_PENALTY_IDLE_ARMY: i32 = 1;
/// Most tiles a world may hold, so that the manpower of all its armies fits in an `i32`.
pub const MAX_TILES: usize = 20_000_000;
pub const BASE_GROWTH_CITY: i32 = 5;
pub const BASE_GROWTH_CAPITAL: i32 = 10;
pub const BONUS_GROWTH_PER_TILE: i32 = 1;
pub const BASE_GROWTH_SATELLITE_CAPITAL: i32 = 7;
pub const MORALE_BONUS_ANNEX_SATELLITE_CAPITAL_ORIGIN: i32 = 40;
pub const MORALE_BONUS_ANNEX_SATELLITE_CAPITAL_ALL: i32 = 25;

/// A participant of the game.
pub struct Player {
    pub name: String,
    pub actions: i32,
    pub ai: Option<AI>,
    pub selection: Option<Cube<i32>>,
    pub capital_pos: Option<Cube<i32>>,
}

impl Player {
    /// A player with a full set of actions, nothing selected and no capital yet.
    pub fn new(name: &str, ai: Option<AI>) -> (p: Self)
        ensures
            p.name@ == name@,
            p.actions == ACTIONS_PER_TURN,
            p.ai == ai,
            p.selection is None,
            p.capital_pos is None,
    {
        Player { name: name.to_string(), actions: ACTIONS_PER_TURN, ai, selection: None, capital_pos: None }
    }

    /// Gives up the rest of this turn's actions.
    pub fn skip_turn(&mut self)
        ensures
            final(self).actions == 0,
            final(self).name == old(self).name,
            final(self).ai == old(self).ai,
            final(self).selection == old(self).selection,
            final(self).capital_pos == old(self).capital_pos,
    {
        self.actions = 0;
    }
}

/// What kind of settlement stands on a tile.
#[derive(Clone, Copy, PartialEq, Eq, Debug, Structural)]
pub enum LocalityCategory {
    City,
    PortCity,
    Capital,
    SatelliteCapital,
    Airport,
}

/// A named settlement.
pub struct Locality {
    pub name: String,
    pub category: LocalityCategory,
    pub starting_owner_index: Option<usize>,
}

impl Locality {
    /// A locality of the given name and kind, with no starting owner yet.
    pub fn new(name: &str, category: LocalityCategory) -> (l: Self)
        ensures
            l.name@ == name@,
            l.category == category,
            l.starting_owner_index is None,
    {
        Locality { name: name.to_string(), category, starting_owner_index: None }
    }
}

/// The terrain of a tile.
#[derive(Clone, Copy, PartialEq, Eq, Debug, Structural)]
pub enum TileCategory {
    Farmland,
    Water,
}

/// Armies are the pieces players move across tiles.
#[derive(Debug)]
pub struct Army {
    pub manpower: i32,
    pub morale: i32,
    pub owner_index: Option<usize>,
    pub can_move: bool,
}

/// One hexagon of the map.
pub struct Tile {
    pub owner_index: Option<usize>,
    pub category: TileCategory,
    pub locality: Option<Locality>,
    pub army: Option<Army>,
}

/// Every army in `m` belongs to some player.
pub open spec fn armies_owned(m: Map<u64, Tile>) -> bool {
    forall|k: u64| #[trigger] m.contains_key(k) && m[k].army is Some ==> m[k].army->0.owner_index is Some
}

/// The tile has an airport.
pub open spec fn has_airport(t: Tile) -> bool {
    t.locality matches Some(l) && l.category == LocalityCategory::Airport
}

/// An army within the stack limits: at least one man, at most
/// `MAX_STACK_SIZE` men and morale between 0 and `MAX_STACK_SIZE`.
pub open spec fn army_ok(a: Army) -> bool {
    &&& 1 <= a.manpower <= MAX_STACK_SIZE
    &&& 0 <= a.morale <= MAX_STACK_SIZE
}

/// Every army on the tile (if any) is within the stack limits.
pub open spec fn tile_ok(t: Tile) -> bool {
    t.army matches Some(a) ==> army_ok(a)
}

impl Tile {
    /// An unowned, empty tile of the given terrain.
    pub fn new(category: TileCategory) -> (t: Self)
        ensures
            t.owner_index is None,
            t.category == category,
            t.locality is None,
            t.army is None,
    {
        Tile { owner_index: None, category, locality: None, army: None }
    }

    /// Only land can be captured.
    pub fn is_capturable(&self) -> (b: bool)
        ensures
            b == (self.category == TileCategory::Farmland),
    {
        match self.category {
            TileCategory::Water => false,
            TileCategory::Farmland => true,
        }
    }
}

/// The tiles of the map, keyed by `key_of` of their cube, with indexes of
/// the tiles each player owns and of the tiles holding an airport.
pub struct World {
    pub world: HashMap<u64, Tile>,
    pub cubes_by_ownership: HashMap<usize, HashSet<u64>>,
    pub cubes_with_airport: HashSet<u64>,
}

impl World {
    /// The keys of the tiles owned by `player`.
    pub open spec fn owned_keys(&self, player: usize) -> Set<u64> {
        Set::new(|k: u64| self.world@.contains_key(k) && self.world@[k].owner_index == Some(player))
    }

    /// The keys of the tiles with an airport.
    pub open spec fn airport_keys(&self) -> Set<u64> {
        Set::new(|k: u64| self.world@.contains_key(k) && has_airport(self.world@[k]))
    }

    /// The indexes agree with the tiles, and every army is within the stack limits.
    pub open spec fn wf(&self) -> bool {
        &&& forall|k: u64| #[trigger] self.world@.contains_key(k) ==> tile_ok(self.world@[k])
        &&& forall|i: usize| #[trigger]
            self.cubes_by_ownership@.contains_key(i) ==> self.cubes_by_ownership@[i]@
                == self.owned_keys(i)
        &&& forall|k: u64| #[trigger]
            self.world@.contains_key(k) && self.world@[k].owner_index is Some
                ==> self.cubes_by_ownership@.contains_key(self.world@[k].owner_index->0)
        &&& self.cubes_with_airport@ == self.airport_keys()
        &&& self.world@.len() <= MAX_TILES
    }

    /// The world holds a tile at `c`.
    pub open spec fn has(&self, c: Cube<i32>) -> bool {
        self.world@.contains_key(key_of(c))
    }

    /// The tile at `c`.
    pub open spec fn at(&self, c: Cube<i32>) -> Tile {
        self.world@[key_of(c)]
    }

    /// Every tile lies at least `MAX_TRAVEL_DISTANCE` steps inside the range
    /// of `i32` coordinates, so that the cubes an army can reach from it can
    /// be computed.
    pub open spec fn within_bounds(&self) -> bool {
        forall|c: Cube<i32>| #[trigger] self.has(c) ==> fits(c, MAX_TRAVEL_DISTANCE as int)
    }

    /// Every tile lies at least one step inside the range of `i32`
    /// coordinates, so that its neighbours can be computed.
    pub open spec fn within_one_step(&self) -> bool {
        forall|c: Cube<i32>| #[trigger] self.has(c) ==> fits(c, 1)
    }

    /// An empty world.
    pub fn new() -> (w: Self)
        ensures
            w.wf(),
            w.world@ == Map::<u64, Tile>::empty(),
            w.cubes_by_ownership@ == Map::<usize, HashSet<u64>>::empty(),
            w.cubes_with_airport@ == Set::<u64>::empty(),
    {
        let w = World { world: HashMap::new(), cubes_by_ownership: HashMap::new(), cubes_with_airport: HashSet::new() };
        assert(w.airport_keys() =~= Set::empty());
        w
    }
}

impl World {
    /// The tile at `c`, if any.
    pub fn get(&self, c: &Cube<i32>) -> (r: Option<&Tile>)
        ensures
            r == (if self.has(*c) { Some(&self.at(*c)) } else { None }),
    {
        self.world.get(&c.key())
    }

    /// Number of tiles.
    pub fn len(&self) -> (n: usize)
        ensures
            n == self.world@.len(),
    {
        self.world.len()
    }

    /// Takes the tile at `c` out of the world, keeping the indexes in step.
    pub fn remove(&mut self, c: &Cube<i32>) -> (r: Option<Tile>)
        requires
            old(self).wf(),
        ensures
            final(self).wf(),
            final(self).world@ == old(self).world@.remove(key_of(*c)),
            r == (if old(self).has(*c) { Some(old(self).at(*c)) } else { None }),
            final(self).cubes_by_ownership@.dom() == old(self).cubes_by_ownership@.dom(),
            !old(self).has(*c) ==> final(self).cubes_with_airport@ == old(self).cubes_with_airport@,
    {
        let key = c.key();
        let value = self.world.remove(&key);
        match &value {
            Some(tile) => {
                if let Some(index) = tile.owner_index {
                    let mut set = self.cubes_by_ownership.remove(&index).unwrap();
                    set.remove(&key);
                    self.cubes_by_ownership.insert(index, set);
                    assert(self.cubes_by_ownership@[index]@ =~= self.owned_keys(index));
                }
                if let Some(locality) = &tile.locality {
                    if locality.category == LocalityCategory::Airport {
                        self.cubes_with_airport.remove(&key);
                    }
                }
            },
            None => {},
        }
        assert(self.cubes_with_airport@ =~= self.airport_keys());
        assert forall|i: usize| #[trigger]
            self.cubes_by_ownership@.contains_key(i) implies self.cubes_by_ownership@[i]@
                == self.owned_keys(i) by {
            assert(self.cubes_by_ownership@[i]@ =~= self.owned_keys(i));
        }
        value
    }

    /// Puts `value` at `c`, replacing any tile there, keeping the indexes in step.
    pub fn insert(&mut self, c: Cube<i32>, value: Tile)
        requires
            old(self).wf(),
            tile_ok(value),
            old(self).has(c) || old(self).world@.len() < MAX_TILES,
        ensures
            final(self).wf(),
            final(self).world@ == old(self).world@.insert(key_of(c), value),
            final(self).cubes_by_ownership@.dom() == match value.owner_index {
                Some(i) => old(self).cubes_by_ownership@.dom().insert(i),
                None => old(self).cubes_by_ownership@.dom(),
            },
    {
        self.remove(&c);
        let key = c.key();
        let ghost before = *self;
        if let Some(index) = value.owner_index {
            let mut set = match self.cubes_by_ownership.remove(&index) {
                Some(set) => set,
                None => HashSet::new(),
            };
            set.insert(key);
            self.cubes_by_ownership.insert(index, set);
        }
        if let Some(locality) = &value.locality {
            if locality.category == LocalityCategory::Airport {
                self.cubes_with_airport.insert(key);
            }
        }
        self.world.insert(key, value);
        assert(self.cubes_with_airport@ =~= self.airport_keys());
        assert forall|i: usize| #[trigger]
            self.cubes_by_ownership@.contains_key(i) implies self.cubes_by_ownership@[i]@
                == self.owned_keys(i) by {
            if before.cubes_by_ownership@.contains_key(i) {
                assert(before.cubes_by_ownership@[i]@ == before.owned_keys(i));
            } else {
                assert(before.owned_keys(i) =~= Set::empty()) by {
                    if exists|k: u64| before.owned_keys(i).contains(k) {
                        let k = choose|k: u64| before.owned_keys(i).contains(k);
                        assert(before.world@.contains_key(k) && before.world@[k].owner_index is Some);
                    }
                }
            }
            assert(self.cubes_by_ownership@[i]@ =~= self.owned_keys(i));
        }
    }
}

impl World {
    /// How many tiles `player` owns.
    pub fn owned_tile_count(&self, player: usize) -> (n: usize)
        requires
            self.wf(),
        ensures
            n == self.owned_keys(player).len(),
    {
        broadcast use vstd::std_specs::hash::group_hash_axioms;
        match self.cubes_by_ownership.get(&player) {
            None => {
                assert(self.owned_keys(player) =~= Set::empty()) by {
                    if exists|k: u64| self.owned_keys(player).contains(k) {
                        let k = choose|k: u64| self.owned_keys(player).contains(k);
                        assert(self.world@.contains_key(k) && self.world@[k].owner_index is Some);
                    }
                }
                0
            },
            Some(cubes) => cubes.len(),
        }
    }
}

impl World {
    /// The keys of all tiles, each once, in the map's iteration order.
    pub fn keys_vec(&self) -> (v: Vec<u64>)
        ensures
            v@.to_set() == self.world@.dom(),
            v@.no_duplicates(),
            v@.len() == self.world@.dom().len(),
    {
        let mut v: Vec<u64> = Vec::new();
        let ghost all = self.world.keys().remaining();
        for k in it: self.world.keys()
            invariant
                all == it.seq(),
                v@ == it.seq().take(it.index() as int).map_values(|x: &u64| *x),
        {
            v.push(*k);
            assert(v@ =~= it.seq().take(it.index() + 1).map_values(|x: &u64| *x));
        }
        assert(v@ =~= all.unref());
        assert(all == self.world.keys().remaining());
        v
    }
}

/// The men in the army on the tile, or 0.
pub open spec fn manpower_of(t: Tile) -> int {
    match t.army {
        Some(a) => a.manpower as int,
        None => 0,
    }
}

/// The keys of the tiles of `m` owned by `player`.
pub open spec fn owned_in(m: Map<u64, Tile>, player: usize) -> Set<u64> {
    Set::new(|k: u64| m.contains_key(k) && m[k].owner_index == Some(player))
}

/// Adds the manpower on the tile at `k` to `acc`.
pub open spec fn add_manpower(m: Map<u64, Tile>) -> spec_fn(int, u64) -> int {
    |acc: int, k: u64| acc + manpower_of(m[k])
}

/// The men in all armies standing on tiles that `player` owns.
pub open spec fn total_manpower(m: Map<u64, Tile>, player: usize) -> int {
    owned_in(m, player).fold(0, add_manpower(m))
}

/// Adding up manpower does not depend on the order of the tiles.
pub proof fn lemma_add_manpower_commutative(m: Map<u64, Tile>)
    ensures
        is_fun_commutative(add_manpower(m)),
{
}

impl World {
    /// The men in all armies standing on tiles that `player` owns.
    pub fn player_total_manpower(&self, player_index: usize) -> (total: i32)
        requires
            self.wf(),
        ensures
            total == total_manpower(self.world@, player_index),
            total >= 0,
    {
        broadcast use vstd::set::group_set_axioms;
        let ghost f = add_manpower(self.world@);
        proof {
            lemma_add_manpower_commutative(self.world@);
            vstd::set::fold::lemma_fold_empty(0int, f);
        }
        match self.cubes_by_ownership.get(&player_index) {
            None => {
                assert(owned_in(self.world@, player_index) =~= Set::empty()) by {
                    if exists|k: u64| owned_in(self.world@, player_index).contains(k) {
                        let k = choose|k: u64| owned_in(self.world@, player_index).contains(k);
                        assert(self.world@.contains_key(k) && self.world@[k].owner_index is Some);
                    }
                }
                0
            },
            Some(cubes) => {
                assert(cubes@ =~= owned_in(self.world@, player_index));
                let ghost all = cubes.iter().remaining();
                proof {
                    vstd::set_lib::lemma_len_subset(cubes@, self.world@.dom());
                    assert(all.unref().take(0).to_set() =~= Set::empty());
                }
                let mut total: i32 = 0;
                for k in it: cubes.iter()
                    invariant
                        self.wf(),
                        all == it.seq(),
                        all.no_duplicates(),
                        all.unref().to_set() == cubes@,
                        cubes@ == owned_in(self.world@, player_index),
                        all.len() == cubes@.len(),
                        cubes@.len() <= self.world@.dom().len(),
                        f == add_manpower(self.world@),
                        is_fun_commutative(f),
                        0 <= total <= MAX_STACK_SIZE * it.index(),
                        total == all.unref().take(it.index() as int).to_set().fold(0, f),
                {
                    let ghost i = it.index() as int;
                    assert(all.unref()[i] == *k);
                    assert(cubes@.contains(*k));
                    let tile = self.world.get(k).unwrap();
                    let m = match &tile.army {
                        Some(army) => army.manpower,
                        None => 0,
                    };
                    assert(i < self.world@.dom().len());
                    assert(MAX_STACK_SIZE * i + MAX_STACK_SIZE <= MAX_STACK_SIZE * MAX_TILES) by (nonlinear_arith)
                        requires i < MAX_TILES;
                    let ghost prefix = all.unref().take(i).to_set();
                    assert(all.unref().take(i + 1).to_set() =~= prefix.insert(*k)) by {
                        assert(all.unref().take(i + 1) =~= all.unref().take(i).push(*k));
                        all.unref().take(i).lemma_push_to_set_commute(*k);
                    }
                    assert(!prefix.contains(*k)) by {
                        if prefix.contains(*k) {
                            let j = choose|j: int| 0 <= j < i && all.unref().take(i)[j] == *k;
                            assert(all[j] == all[i]);
                        }
                    }
                    proof {
                        vstd::set::fold::lemma_fold_insert(prefix, 0int, f, *k);
                    }
                    total = total + m;
                }
                assert(all.unref().take(all.len() as int) =~= all.unref());
                total
            },
        }
    }
}

/// The tiles of a list, a later entry for a cube replacing an earlier one.
pub open spec fn tiles_map(ts: Seq<(Cube<i32>, Tile)>) -> Map<u64, Tile>
    decreases ts.len(),
{
    if ts.len() == 0 {
        Map::empty()
    } else {
        tiles_map(ts.drop_last()).insert(key_of(ts.last().0), ts.last().1)
    }
}

/// A list of tiles holds no more keys than entries.
proof fn lemma_tiles_map_len(ts: Seq<(Cube<i32>, Tile)>)
    ensures
        tiles_map(ts).dom().finite(),
        tiles_map(ts).len() <= ts.len(),
    decreases ts.len(),
{
    if ts.len() > 0 {
        lemma_tiles_map_len(ts.drop_last());
    }
}

impl World {
    /// The world of the given tiles, a later entry for a cube replacing an
    /// earlier one, with its indexes built.
    pub fn from_tiles(tiles: Vec<(Cube<i32>, Tile)>) -> (w: World)
        requires
            forall|i: int| 0 <= i < tiles@.len() ==> tile_ok(#[trigger] tiles@[i].1),
            tiles@.len() <= MAX_TILES,
        ensures
            w.wf(),
            w.world@ == tiles_map(tiles@),
    {
        let ghost ts = tiles@;
        let mut tiles = tiles;
        let mut w = World::new();
        let mut i: usize = 0;
        assert(ts.take(0) =~= Seq::<(Cube<i32>, Tile)>::empty());
        while tiles.len() > 0
            invariant
                w.wf(),
                0 <= i <= ts.len(),
                tiles@ == ts.skip(i as int),
                w.world@ == tiles_map(ts.take(i as int)),
                forall|j: int| 0 <= j < ts.len() ==> tile_ok(#[trigger] ts[j].1),
                ts.len() <= MAX_TILES,
            decreases tiles.len(),
        {
            let (c, t) = tiles.remove(0);
            assert(ts[i as int] == (c, t));
            proof {
                lemma_tiles_map_len(ts.take(i as int));
                assert(ts.take(i + 1).drop_last() =~= ts.take(i as int));
            }
            w.insert(c, t);
            assert(tiles@ =~= ts.skip(i + 1));
            i = i + 1;
        }
        assert(ts.take(i as int) =~= ts);
        w
    }
}

} // verus!
