//! World generation: the shape of the map, its localities and the players'
//! capitals.

use vstd::prelude::*;
use crate::cubic::{Cube, key_of, fits, cube_of_key, lemma_cube_of_key, cube_distance, disc_seq, lemma_disc_contents, lemma_key_injective};
use super::{World, Tile, TileCategory, Locality, LocalityCategory, Player, MAX_TILES};

verus! {

broadcast use vstd::std_specs::hash::group_hash_axioms;

/// How the players' capitals are placed.
pub enum CapitalsGen {
    Classic,
    Random,
    MaxDist,
}

/// How localities are scattered over the map.
pub enum LocalitiesGen {
    Random,
    RandomOts,
}

/// An unowned, empty tile of farmland.
pub open spec fn farmland() -> Tile {
    Tile { owner_index: None, category: TileCategory::Farmland, locality: None, army: None }
}

/// The world `m` with an empty tile of farmland at every cube of `shape`,
/// replacing whatever was there.
pub open spec fn with_farmland(m: Map<u64, Tile>, shape: spec_fn(Cube<i32>) -> bool) -> Map<u64, Tile> {
    Map::new(
        |k: u64| m.contains_key(k) || shape(cube_of_key(k)),
        |k: u64| if shape(cube_of_key(k)) { farmland() } else { m[k] },
    )
}

/// The cube lies in the map of the classic game: twenty columns of eleven
/// tiles, each column shifted up by half a tile from the previous one.
pub open spec fn in_classic_shape(c: Cube<i32>) -> bool {
    &&& 0 <= c.0 < 20
    &&& -(c.0 / 2) <= c.1 < 11 - c.0 / 2
}

/// The cube lies within `radius` steps of the origin.
pub open spec fn in_hexagon(c: Cube<i32>, radius: int) -> bool {
    &&& -radius <= c.0 <= radius
    &&& -radius <= c.1 <= radius
    &&& -radius <= -c.0 - c.1 <= radius
}

/// `after` is `before` with some of its tiles turned to water, every other
/// part of every tile kept.
pub open spec fn flooded(before: Map<u64, Tile>, after: Map<u64, Tile>) -> bool {
    &&& after.dom() == before.dom()
    &&& forall|k: u64| #[trigger] before.contains_key(k) ==> after[k] == before[k]
        || after[k] == (Tile { category: TileCategory::Water, ..before[k] })
}

/// `m` with the tile at `ks[i]` turned to water for each `i` where `rs[i]`
/// holds, every other part of every tile kept.
pub open spec fn flooded_by(m: Map<u64, Tile>, ks: Seq<u64>, rs: Seq<bool>) -> Map<u64, Tile> {
    Map::new(
        |k: u64| m.contains_key(k),
        |k: u64| if exists|i: int| 0 <= i < ks.len() && i < rs.len() && ks[i] == k && rs[i] {
            Tile { category: TileCategory::Water, ..m[k] }
        } else {
            m[k]
        },
    )
}

/// Flooding the tiles picked by any rolls is a flooding.
proof fn lemma_flooded_by(m: Map<u64, Tile>, ks: Seq<u64>, rs: Seq<bool>)
    ensures
        flooded(m, flooded_by(m, ks, rs)),
{
    assert(flooded_by(m, ks, rs).dom() =~= m.dom());
}

/// Putting farmland at `c` on top of the farmland of `before` gives the
/// farmland of `after`, when `after` holds the cubes of `before` and `c`.
proof fn lemma_with_farmland_step(m: Map<u64, Tile>, before: spec_fn(Cube<i32>) -> bool,
    after: spec_fn(Cube<i32>) -> bool, c: Cube<i32>)
    requires
        forall|x: Cube<i32>| #[trigger] after(x) == (before(x) || x == c),
    ensures
        with_farmland(m, before).insert(key_of(c), farmland()) == with_farmland(m, after),
{
    assert forall|k: u64| #[trigger] with_farmland(m, after).contains_key(k) <==>
        with_farmland(m, before).insert(key_of(c), farmland()).contains_key(k) by {
        lemma_cube_of_key(c, k);
    }
    assert forall|k: u64| with_farmland(m, after).contains_key(k) implies
        #[trigger] with_farmland(m, after)[k] == with_farmland(m, before).insert(key_of(c), farmland())[k] by {
        lemma_cube_of_key(c, k);
    }
    assert(with_farmland(m, before).insert(key_of(c), farmland()) =~= with_farmland(m, after));
}

impl World {
    /// Puts an empty tile of farmland at `c`.
    fn put_farmland(&mut self, c: Cube<i32>)
        requires
            old(self).wf(),
            old(self).has(c) || old(self).world@.len() < MAX_TILES,
        ensures
            final(self).wf(),
            final(self).world@ == old(self).world@.insert(key_of(c), farmland()),
            final(self).world@.len() <= old(self).world@.len() + 1,
    {
        let t = Tile::new(TileCategory::Farmland);
        assert(t == farmland());
        self.insert(c, t);
        proof {
            assert(self.world@.dom() =~= old(self).world@.dom().insert(key_of(c)));
        }
    }

    /// Lays out the map of the classic game (see `in_classic_shape`).
    pub fn gen_classic_shape(&mut self)
        requires
            old(self).wf(),
            old(self).world@.len() + 220 <= MAX_TILES,
        ensures
            final(self).wf(),
            final(self).world@ == with_farmland(old(self).world@, |c: Cube<i32>| in_classic_shape(c)),
    {
        let ghost m0 = self.world@;
        let width: i32 = 20;
        let height: i32 = 11;
        assert(self.world@ =~= with_farmland(m0, |c: Cube<i32>| in_classic_shape(c) && c.0 < 0));
        let mut q: i32 = 0;
        while q < width
            invariant
                self.wf(),
                width == 20,
                height == 11,
                0 <= q <= width,
                m0.len() + 220 <= MAX_TILES,
                self.world@ == with_farmland(m0, |c: Cube<i32>| in_classic_shape(c) && c.0 < q),
                self.world@.len() <= m0.len() + 11 * q,
            decreases width - q,
        {
            let q_offset = q / 2;
            let mut r: i32 = -q_offset;
            assert(self.world@ =~= with_farmland(m0, |c: Cube<i32>| in_classic_shape(c) && (c.0 < q || (c.0 == q && c.1 < r))));
            while r < height - q_offset
                invariant
                    self.wf(),
                    width == 20,
                    height == 11,
                    0 <= q < width,
                    q_offset == q / 2,
                    -q_offset <= r <= height - q_offset,
                    m0.len() + 220 <= MAX_TILES,
                    self.world@ == with_farmland(m0, |c: Cube<i32>| in_classic_shape(c) && (c.0 < q || (c.0 == q && c.1 < r))),
                    self.world@.len() <= m0.len() + 11 * q + (r + q_offset),
                decreases height - q_offset - r,
            {
                let c = Cube::new(q, r);
                self.put_farmland(c);
                proof {
                    lemma_with_farmland_step(m0,
                        |x: Cube<i32>| in_classic_shape(x) && (x.0 < q || (x.0 == q && x.1 < r)),
                        |x: Cube<i32>| in_classic_shape(x) && (x.0 < q || (x.0 == q && x.1 < r + 1)), c);
                }
                r = r + 1;
            }
            assert(self.world@ =~= with_farmland(m0, |c: Cube<i32>| in_classic_shape(c) && c.0 < q + 1)) by {
                assert((|c: Cube<i32>| in_classic_shape(c) && (c.0 < q || (c.0 == q && c.1 < r)))
                    =~= (|c: Cube<i32>| in_classic_shape(c) && c.0 < q + 1));
            }
            q = q + 1;
        }
        assert((|c: Cube<i32>| in_classic_shape(c) && c.0 < width) =~= (|c: Cube<i32>| in_classic_shape(c)));
    }

    /// Lays out a hexagonal map of the given radius around the origin.
    pub fn gen_hexagonal_shape(&mut self, radius: i32)
        requires
            old(self).wf(),
            radius >= 0 ==> old(self).world@.len() + (2 * radius + 1) * (2 * radius + 1) <= MAX_TILES,
        ensures
            final(self).wf(),
            final(self).world@ == with_farmland(old(self).world@, |c: Cube<i32>| in_hexagon(c, radius as int)),
    {
        let ghost m0 = self.world@;
        if radius < 0 {
            assert(self.world@ =~= with_farmland(m0, |c: Cube<i32>| in_hexagon(c, radius as int)));
            return;
        }
        assert(radius <= 3000) by (nonlinear_arith)
            requires
                0 <= radius,
                (2 * radius + 1) * (2 * radius + 1) <= MAX_TILES,
        ;
        let ghost w: int = 2 * radius + 1;
        let mut q: i32 = -radius;
        assert(self.world@ =~= with_farmland(m0, |c: Cube<i32>| in_hexagon(c, radius as int) && c.0 < q));
        while q < radius + 1
            invariant
                self.wf(),
                0 <= radius <= 3000,
                w == 2 * radius + 1,
                -radius <= q <= radius + 1,
                m0.len() + w * w <= MAX_TILES,
                self.world@ == with_farmland(m0, |c: Cube<i32>| in_hexagon(c, radius as int) && c.0 < q),
                self.world@.len() <= m0.len() + (q + radius) * w,
            decreases radius + 1 - q,
        {
            let r1: i32 = if -radius >= -q - radius { -radius } else { -q - radius };
            let r2: i32 = if radius <= -q + radius { radius } else { -q + radius };
            let mut r: i32 = r1;
            assert(self.world@ =~= with_farmland(m0, |c: Cube<i32>| in_hexagon(c, radius as int) && (c.0 < q || (c.0 == q && c.1 < r))));
            assert((q + radius) * w + w <= w * w) by (nonlinear_arith)
                requires
                    q + radius + 1 <= w,
                    0 <= q + radius,
                    0 < w,
            ;
            while r < r2 + 1
                invariant
                    self.wf(),
                    0 <= radius <= 3000,
                    w == 2 * radius + 1,
                    -radius <= q <= radius,
                    r1 == if -radius >= -q - radius { -radius as int } else { -q - radius },
                    r2 == if radius <= -q + radius { radius as int } else { -q + radius },
                    r1 <= r <= r2 + 1,
                    m0.len() + w * w <= MAX_TILES,
                    (q + radius) * w + w <= w * w,
                    self.world@ == with_farmland(m0, |c: Cube<i32>| in_hexagon(c, radius as int) && (c.0 < q || (c.0 == q && c.1 < r))),
                    self.world@.len() <= m0.len() + (q + radius) * w + (r - r1),
                decreases r2 + 1 - r,
            {
                let c = Cube::new(q, r);
                self.put_farmland(c);
                proof {
                    lemma_with_farmland_step(m0,
                        |x: Cube<i32>| in_hexagon(x, radius as int) && (x.0 < q || (x.0 == q && x.1 < r)),
                        |x: Cube<i32>| in_hexagon(x, radius as int) && (x.0 < q || (x.0 == q && x.1 < r + 1)), c);
                }
                r = r + 1;
            }
            assert((q + radius) * w + w == (q + 1 + radius) * w) by (nonlinear_arith);
            assert(self.world@ =~= with_farmland(m0, |c: Cube<i32>| in_hexagon(c, radius as int) && c.0 < q + 1)) by {
                assert((|c: Cube<i32>| in_hexagon(c, radius as int) && (c.0 < q || (c.0 == q && c.1 < r)))
                    =~= (|c: Cube<i32>| in_hexagon(c, radius as int) && c.0 < q + 1));
            }
            q = q + 1;
        }
        assert((|c: Cube<i32>| in_hexagon(c, radius as int) && c.0 < radius + 1) =~= (|c: Cube<i32>| in_hexagon(c, radius as int)));
    }

    /// Turns each tile to water with probability 3/10, independently.
    pub fn gen_water(&mut self)
        requires
            old(self).wf(),
        ensures
            final(self).wf(),
            flooded(old(self).world@, final(self).world@),
    {
        let keys = self.keys_vec();
        let mut rolls: Vec<bool> = Vec::new();
        let mut i: usize = 0;
        while i < keys.len()
            invariant
                0 <= i <= keys.len(),
                rolls.len() == i,
            decreases keys.len() - i,
        {
            rolls.push(crate::rng::chance(3, 10));
            i = i + 1;
        }
        let ghost m0 = self.world@;
        self.flood_where(&keys, &rolls);
        proof {
            lemma_flooded_by(m0, keys@, rolls@);
        }
    }

    /// Turns to water the tile at `keys[i]` for each `i` where `rolls[i]`
    /// holds; keys of no tile are passed over.
    pub fn flood_where(&mut self, keys: &Vec<u64>, rolls: &Vec<bool>)
        requires
            old(self).wf(),
            keys.len() == rolls.len(),
        ensures
            final(self).wf(),
            final(self).world@ == flooded_by(old(self).world@, keys@, rolls@),
    {
        let ghost m0 = self.world@;
        let mut i: usize = 0;
        assert(self.world@ =~= flooded_by(m0, keys@.take(0), rolls@.take(0)));
        while i < keys.len()
            invariant
                self.wf(),
                keys.len() == rolls.len(),
                0 <= i <= keys.len(),
                self.world@ == flooded_by(m0, keys@.take(i as int), rolls@.take(i as int)),
            decreases keys.len() - i,
        {
            let k = keys[i];
            let c = Cube::from_key(k);
            let ghost before = self.world@;
            let ghost ks1 = keys@.take(i + 1);
            let ghost rs1 = rolls@.take(i + 1);
            let ghost ks0 = keys@.take(i as int);
            let ghost rs0 = rolls@.take(i as int);
            if rolls[i] && self.get(&c).is_some() {
                let t = self.remove(&c).unwrap();
                proof {
                    vstd::set_lib::lemma_len_subset(self.world@.dom(), before.dom());
                    assert(self.world@.dom() =~= before.dom().remove(k));
                }
                self.insert(c, Tile { category: TileCategory::Water, ..t });
                assert(self.world@ =~= flooded_by(m0, ks1, rs1)) by {
                    assert(ks1[i as int] == k && rs1[i as int]);
                    assert forall|k2: u64| #[trigger] m0.contains_key(k2) implies self.world@[k2] == flooded_by(m0, ks1, rs1)[k2] by {
                        if k2 != k {
                            if exists|j: int| 0 <= j < ks1.len() && j < rs1.len() && ks1[j] == k2 && rs1[j] {
                                let j = choose|j: int| 0 <= j < ks1.len() && j < rs1.len() && ks1[j] == k2 && rs1[j];
                                assert(ks0[j] == k2 && rs0[j]);
                            }
                            if exists|j: int| 0 <= j < ks0.len() && j < rs0.len() && ks0[j] == k2 && rs0[j] {
                                let j = choose|j: int| 0 <= j < ks0.len() && j < rs0.len() && ks0[j] == k2 && rs0[j];
                                assert(ks1[j] == k2 && rs1[j]);
                            }
                        }
                    }
                }
            } else {
                assert(self.world@ =~= flooded_by(m0, ks1, rs1)) by {
                    assert forall|k2: u64| #[trigger] m0.contains_key(k2) implies self.world@[k2] == flooded_by(m0, ks1, rs1)[k2] by {
                        if exists|j: int| 0 <= j < ks1.len() && j < rs1.len() && ks1[j] == k2 && rs1[j] {
                            let j = choose|j: int| 0 <= j < ks1.len() && j < rs1.len() && ks1[j] == k2 && rs1[j];
                            if j < i {
                                assert(ks0[j] == k2 && rs0[j]);
                            } else {
                                assert(rs1[j] == rolls@[i as int]);
                                assert(ks1[j] == k);
                                assert(!m0.contains_key(k)) by {
                                    assert(before.contains_key(k) == m0.contains_key(k));
                                }
                            }
                        }
                        if exists|j: int| 0 <= j < ks0.len() && j < rs0.len() && ks0[j] == k2 && rs0[j] {
                            let j = choose|j: int| 0 <= j < ks0.len() && j < rs0.len() && ks0[j] == k2 && rs0[j];
                            assert(ks1[j] == k2 && rs1[j]);
                        }
                    }
                }
            }
            i = i + 1;
        }
        assert(keys@.take(keys.len() as int) =~= keys@);
        assert(rolls@.take(rolls.len() as int) =~= rolls@);
    }

    /// Lays out a map of the given cubes.
    pub fn gen_custom_shape(&mut self, shape: &Vec<Cube<i32>>)
        requires
            old(self).wf(),
            old(self).world@.len() + shape.len() <= MAX_TILES,
        ensures
            final(self).wf(),
            final(self).world@ == with_farmland(old(self).world@, |c: Cube<i32>| shape@.contains(c)),
    {
        let ghost m0 = self.world@;
        let mut i: usize = 0;
        assert(self.world@ =~= with_farmland(m0, |c: Cube<i32>| shape@.take(0).contains(c)));
        while i < shape.len()
            invariant
                self.wf(),
                0 <= i <= shape.len(),
                m0.len() + shape.len() <= MAX_TILES,
                self.world@ == with_farmland(m0, |c: Cube<i32>| shape@.take(i as int).contains(c)),
                self.world@.len() <= m0.len() + i,
            decreases shape.len() - i,
        {
            let c = shape[i];
            self.put_farmland(c);
            proof {
                assert forall|x: Cube<i32>| #[trigger] shape@.take(i + 1).contains(x) == (shape@.take(i as int).contains(x) || x == c) by {
                    if shape@.take(i + 1).contains(x) {
                        let j = choose|j: int| 0 <= j < i + 1 && #[trigger] shape@.take(i + 1)[j] == x;
                        if j < i {
                            assert(shape@.take(i as int)[j] == x);
                        }
                    }
                    if shape@.take(i as int).contains(x) {
                        let j = choose|j: int| 0 <= j < i && #[trigger] shape@.take(i as int)[j] == x;
                        assert(shape@.take(i + 1)[j] == x);
                    }
                    if x == c {
                        assert(shape@.take(i + 1)[i as int] == x);
                    }
                }
                lemma_with_farmland_step(m0, |x: Cube<i32>| shape@.take(i as int).contains(x),
                    |x: Cube<i32>| shape@.take(i + 1).contains(x), c);
            }
            i = i + 1;
        }
        assert(shape@.take(shape.len() as int) =~= shape@);
    }
}

/// The starting position of the `i`-th player in the classic game.
pub open spec fn classic_position(i: int) -> Cube<i32> {
    if i == 0 {
        Cube(1i32, 1i32)
    } else if i == 1 {
        Cube(1i32, 9i32)
    } else if i == 2 {
        Cube(18i32, -8i32)
    } else {
        Cube(18i32, 0i32)
    }
}

/// How many capitals the classic placement makes: one per player, per
/// name and per starting position, whichever runs out first.
pub open spec fn classic_count(players: int, names: int) -> int {
    if players <= names && players <= 4 {
        players
    } else if names <= 4 {
        names
    } else {
        4
    }
}

/// `t` is the tile `before` made the capital of player `i`, named `name`:
/// farmland owned by `i`, keeping its army.
pub open spec fn is_capital_of(t: Tile, before: Tile, i: usize, name: Seq<char>) -> bool {
    &&& t.category == TileCategory::Farmland
    &&& t.owner_index == Some(i)
    &&& t.army == before.army
    &&& t.locality matches Some(l) && l.name@ == name && l.category == LocalityCategory::Capital
        && l.starting_owner_index is None
}

/// The tile at `k` of `m0` after the first `n` classic capitals were
/// placed, `k` not being a capital: a neighbour of a capital becomes
/// farmland of its player, any other tile is unchanged.
pub open spec fn near_capitals(m0: Map<u64, Tile>, n: int, k: u64) -> Tile {
    if exists|i: int| 0 <= i < n && #[trigger] cube_distance(cube_of_key(k), classic_position(i)) == 1 {
        let i = choose|i: int| 0 <= i < n && #[trigger] cube_distance(cube_of_key(k), classic_position(i)) == 1;
        Tile { category: TileCategory::Farmland, owner_index: Some(i as usize), ..m0[k] }
    } else {
        m0[k]
    }
}

/// `m` is `m0` after the first `n` classic capitals were placed with the
/// given names.
pub open spec fn classic_capitals_placed(m0: Map<u64, Tile>, m: Map<u64, Tile>, names: Seq<&str>, n: int) -> bool {
    &&& m.dom() == m0.dom()
    &&& forall|i: int| 0 <= i < n ==> is_capital_of(m[key_of(#[trigger] classic_position(i))],
        m0[key_of(classic_position(i))], i as usize, names[i]@)
    &&& forall|k: u64| #[trigger] m.contains_key(k) && (forall|i: int| 0 <= i < n ==> k != key_of(#[trigger] classic_position(i)))
        ==> m[k] == near_capitals(m0, n, k)
}

/// The classic starting positions lie far apart: a cube next to one is not
/// next to, nor at, another.
proof fn lemma_classic_apart(i: int, j: int, c: Cube<i32>)
    requires
        0 <= i < 4,
        0 <= j < 4,
        i != j,
        cube_distance(c, classic_position(i)) <= 1,
    ensures
        cube_distance(c, classic_position(j)) > 1,
{
}

/// A tile of `players` gets its capital position.
fn set_capital_pos(players: &mut Vec<Player>, i: usize, pos: Cube<i32>)
    requires
        i < old(players).len(),
    ensures
        final(players)@ == old(players)@.update(i as int, Player { capital_pos: Some(pos), ..old(players)@[i as int] }),
{
    let player = &mut players[i];
    player.capital_pos = Some(pos);
}

/// The tile claimed for player `i` around its capital.
pub open spec fn claimed(t: Tile, i: usize) -> Tile {
    Tile { category: TileCategory::Farmland, owner_index: Some(i), ..t }
}

/// The capitals placed so far stay in place when player `index` claims
/// the tiles around its own capital.
proof fn lemma_capitals_kept(m0: Map<u64, Tile>, mc: Map<u64, Tile>, m1: Map<u64, Tile>,
    names: Seq<&str>, index: int, ns: Seq<Cube<i32>>)
    requires
        0 <= index < 4,
        forall|i: int| 0 <= i <= index ==> mc.contains_key(key_of(#[trigger] classic_position(i))),
        forall|i: int| 0 <= i <= index ==> is_capital_of(mc[key_of(#[trigger] classic_position(i))],
            m0[key_of(classic_position(i))], i as usize, names[i]@),
        forall|x: Cube<i32>| ns.contains(x) ==> cube_distance(x, classic_position(index)) == 1,
        forall|k: u64| #[trigger] mc.contains_key(k) ==> m1[k] == if ns.contains(cube_of_key(k)) {
            claimed(mc[k], index as usize)
        } else {
            mc[k]
        },
    ensures
        forall|i: int| 0 <= i <= index ==> is_capital_of(m1[key_of(#[trigger] classic_position(i))],
            m0[key_of(classic_position(i))], i as usize, names[i]@),
{
    assert forall|i: int| 0 <= i <= index implies is_capital_of(m1[key_of(#[trigger] classic_position(i))],
        m0[key_of(classic_position(i))], i as usize, names[i]@) by {
        let ki = key_of(classic_position(i));
        assert(mc.contains_key(ki));
        lemma_cube_of_key(classic_position(i), ki);
        if ns.contains(classic_position(i)) {
            if i != index {
                lemma_classic_apart(index, i, classic_position(i));
            }
        }
    }
}

/// A tile other than a capital is, once player `index` claimed the tiles
/// around its capital, as `near_capitals` says for one more capital.
proof fn lemma_near_step(m0: Map<u64, Tile>, mc: Map<u64, Tile>, m1: Map<u64, Tile>,
    index: int, ns: Seq<Cube<i32>>, k: u64)
    requires
        0 <= index < 4,
        mc.contains_key(k),
        forall|i: int| 0 <= i <= index ==> k != key_of(#[trigger] classic_position(i)),
        mc[k] == near_capitals(m0, index, k),
        forall|x: Cube<i32>| ns.contains(x) <==> cube_distance(x, classic_position(index)) == 1,
        m1[k] == if ns.contains(cube_of_key(k)) { claimed(mc[k], index as usize) } else { mc[k] },
    ensures
        m1[k] == near_capitals(m0, index + 1, k),
{
    let c = cube_of_key(k);
    if ns.contains(c) {
        assert(cube_distance(c, classic_position(index)) == 1);
        assert forall|i: int| 0 <= i < index implies #[trigger] cube_distance(c, classic_position(i)) != 1 by {
            lemma_classic_apart(index, i, c);
        }
        assert(near_capitals(m0, index, k) == m0[k]);
        let i2 = choose|i2: int| 0 <= i2 < index + 1 && #[trigger] cube_distance(cube_of_key(k), classic_position(i2)) == 1;
        if i2 != index {
            lemma_classic_apart(index, i2, c);
        }
    } else {
        if exists|i: int| 0 <= i < index + 1 && #[trigger] cube_distance(cube_of_key(k), classic_position(i)) == 1 {
            let i3 = choose|i3: int| 0 <= i3 < index + 1 && #[trigger] cube_distance(cube_of_key(k), classic_position(i3)) == 1;
            assert(i3 < index);
            assert(exists|i: int| 0 <= i < index && #[trigger] cube_distance(cube_of_key(k), classic_position(i)) == 1);
        }
    }
}

impl World {
    /// Places the capitals of the classic game: the `i`-th player's capital,
    /// named after the `i`-th name, at the `i`-th classic position, and the
    /// tiles around it made farmland of that player.
    pub fn gen_classic_capitals(&mut self, locality_names: &Vec<&str>, players: &mut Vec<Player>)
        requires
            old(self).wf(),
            forall|i: int| 0 <= i < classic_count(old(players).len() as int, locality_names.len() as int)
                ==> old(self).has(#[trigger] classic_position(i)),
        ensures
            final(self).wf(),
            classic_capitals_done(old(self).world@, final(self).world@, locality_names@, old(players)@, final(players)@),
    {
        let ghost m0 = self.world@;
        let ghost ps0 = players@;
        let positions: [Cube<i32>; 4] = [Cube::new(1, 1), Cube::new(1, 9), Cube::new(18, -8), Cube::new(18, 0)];
        let n: usize = if players.len() <= locality_names.len() && players.len() <= 4 {
            players.len()
        } else if locality_names.len() <= 4 {
            locality_names.len()
        } else {
            4
        };
        proof {
            assert forall|k: u64| #[trigger] self.world@.contains_key(k) implies self.world@[k] == near_capitals(m0, 0, k) by {}
        }
        let mut index: usize = 0;
        while index < n
            invariant
                self.wf(),
                n == classic_count(ps0.len() as int, locality_names.len() as int),
                n <= 4,
                n <= ps0.len(),
                n <= locality_names.len(),
                0 <= index <= n,
                forall|i: int| 0 <= i < 4 ==> #[trigger] positions@[i] == classic_position(i),
                forall|i: int| 0 <= i < n ==> m0.contains_key(key_of(#[trigger] classic_position(i))),
                classic_capitals_placed(m0, self.world@, locality_names@, index as int),
                players@.len() == ps0.len(),
                forall|i: int| 0 <= i < ps0.len() ==> #[trigger] players@[i] == if i < index {
                    Player { capital_pos: Some(classic_position(i)), ..ps0[i] }
                } else {
                    ps0[i]
                },
            decreases n - index,
        {
            let ghost mi = self.world@;
            let pos = positions[index];
            let ghost kp = key_of(pos);
            assert(m0.contains_key(key_of(classic_position(index as int))));
            proof {
                assert forall|i: int| 0 <= i < index implies key_of(#[trigger] classic_position(i)) != kp by {
                    lemma_key_injective(classic_position(i), pos);
                    lemma_classic_apart(index as int, i, pos);
                }
            }
            let t = self.remove(&pos).unwrap();
            let Tile { owner_index: _, category: _, locality: _, army } = t;
            let capital = Tile {
                owner_index: Some(index),
                category: TileCategory::Farmland,
                locality: Some(Locality::new(locality_names[index], LocalityCategory::Capital)),
                army,
            };
            proof {
                assert(self.world@.dom() =~= mi.dom().remove(kp));
                vstd::set_lib::lemma_len_subset(self.world@.dom(), mi.dom());
            }
            self.insert(pos, capital);
            set_capital_pos(players, index, pos);
            let ghost mc = self.world@;
            assert(mc == mi.insert(kp, capital));
            assert(mi[kp] == m0[kp]) by {
                assert(mi.contains_key(kp));
                assert(near_capitals(m0, index as int, kp) == m0[kp]) by {
                    if exists|i: int| 0 <= i < index && #[trigger] cube_distance(cube_of_key(kp), classic_position(i)) == 1 {
                        let i = choose|i: int| 0 <= i < index && #[trigger] cube_distance(cube_of_key(kp), classic_position(i)) == 1;
                        lemma_cube_of_key(pos, kp);
                        lemma_classic_apart(index as int, i, pos);
                    }
                }
            }
            let neighbours = pos.disc(1);
            proof {
                lemma_disc_contents(pos, 1);
                assert(crate::cubic::spec_triangular(1) == 1);
                assert forall|x: Cube<i32>| #[trigger] neighbours@.take(0).contains(x) == false by {}
                assert forall|k: u64| #[trigger] self.world@.contains_key(k) implies self.world@[k] == if neighbours@.take(0).contains(cube_of_key(k)) {
                    claimed(mc[k], index)
                } else {
                    mc[k]
                } by {}
            }
            let mut j: usize = 0;
            while j < 6
                invariant
                    self.wf(),
                    neighbours@ == disc_seq(pos, 1),
                    neighbours@.len() == 6,
                    0 <= j <= 6,
                    self.world@.dom() == mc.dom(),
                    forall|k: u64| #[trigger] self.world@.contains_key(k) ==> self.world@[k] == if neighbours@.take(j as int).contains(cube_of_key(k)) {
                        claimed(mc[k], index)
                    } else {
                        mc[k]
                    },
                decreases 6 - j,
            {
                let nb = neighbours[j];
                let ghost before = self.world@;
                if self.get(&nb).is_some() {
                    let t = self.remove(&nb).unwrap();
                    let t = Tile { category: TileCategory::Farmland, owner_index: Some(index), ..t };
                    proof {
                        assert(self.world@.dom() =~= before.dom().remove(key_of(nb)));
                        vstd::set_lib::lemma_len_subset(self.world@.dom(), before.dom());
                    }
                    self.insert(nb, t);
                    assert(self.world@.dom() =~= mc.dom());
                }
                proof {
                    assert forall|x: Cube<i32>| #[trigger] neighbours@.take(j + 1).contains(x) == (neighbours@.take(j as int).contains(x) || x == nb) by {
                        if neighbours@.take(j + 1).contains(x) {
                            let jj = choose|jj: int| 0 <= jj < j + 1 && #[trigger] neighbours@.take(j + 1)[jj] == x;
                            if jj < j {
                                assert(neighbours@.take(j as int)[jj] == x);
                            }
                        }
                        if neighbours@.take(j as int).contains(x) {
                            let jj = choose|jj: int| 0 <= jj < j && #[trigger] neighbours@.take(j as int)[jj] == x;
                            assert(neighbours@.take(j + 1)[jj] == x);
                        }
                        if x == nb {
                            assert(neighbours@.take(j + 1)[j as int] == x);
                        }
                    }
                    assert forall|k: u64| #[trigger] self.world@.contains_key(k) implies self.world@[k] == if neighbours@.take(j + 1).contains(cube_of_key(k)) {
                        claimed(mc[k], index)
                    } else {
                        mc[k]
                    } by {
                        lemma_cube_of_key(nb, k);
                        if k == key_of(nb) && before.contains_key(k) {
                            assert(neighbours@.take(j + 1).contains(nb));
                            if neighbours@.take(j as int).contains(nb) {
                                let jj = choose|jj: int| 0 <= jj < j && #[trigger] neighbours@.take(j as int)[jj] == nb;
                                assert(neighbours@[jj] == neighbours@[j as int]);
                            }
                        }
                    }
                }
                j = j + 1;
            }
            proof {
                let m1 = self.world@;
                assert(neighbours@.take(6) =~= neighbours@);
                assert forall|i: int| 0 <= i <= index implies mc.contains_key(key_of(#[trigger] classic_position(i))) by {}
                assert forall|i: int| 0 <= i <= index implies is_capital_of(mc[key_of(#[trigger] classic_position(i))],
                    m0[key_of(classic_position(i))], i as usize, locality_names@[i]@) by {
                    if i < index {
                        lemma_key_injective(classic_position(i), pos);
                        lemma_classic_apart(index as int, i, pos);
                    }
                }
                assert forall|x: Cube<i32>| neighbours@.contains(x) <==> cube_distance(x, classic_position(index as int)) == 1 by {}
                lemma_capitals_kept(m0, mc, m1, locality_names@, index as int, neighbours@);
                assert forall|k: u64| #[trigger] m1.contains_key(k) && (forall|i: int| 0 <= i < index + 1 ==> k != key_of(#[trigger] classic_position(i)))
                    implies m1[k] == near_capitals(m0, index + 1, k) by {
                    assert(k != kp);
                    assert(mi.contains_key(k));
                    lemma_near_step(m0, mc, m1, index as int, neighbours@, k);
                }
                assert(m1.dom() =~= m0.dom());
                assert forall|i: int| 0 <= i < ps0.len() implies #[trigger] players@[i] == if i < index + 1 {
                    Player { capital_pos: Some(classic_position(i)), ..ps0[i] }
                } else {
                    ps0[i]
                } by {}
            }
            index = index + 1;
        }
    }
}

/// The keys of the tiles of `m` holding a city.
pub open spec fn city_keys(m: Map<u64, Tile>) -> Set<u64> {
    Set::new(|k: u64| m.contains_key(k) && m[k].locality is Some && m[k].locality->0.category == LocalityCategory::City)
}

/// The city tile `t` made the capital of player `i`.
pub open spec fn made_capital(t: Tile, i: usize) -> Tile {
    Tile {
        owner_index: Some(i),
        locality: Some(Locality { category: LocalityCategory::Capital, ..t.locality->0 }),
        ..t
    }
}

/// `m` is `m0` with the city at `chosen[i]` made the capital of player `i`.
pub open spec fn capitals_at(m0: Map<u64, Tile>, m: Map<u64, Tile>, chosen: Seq<u64>) -> bool {
    &&& m.dom() == m0.dom()
    &&& forall|i: int| 0 <= i < chosen.len() ==> m[#[trigger] chosen[i]] == made_capital(m0[chosen[i]], i as usize)
    &&& forall|k: u64| #[trigger] m.contains_key(k) && !chosen.contains(k) ==> m[k] == m0[k]
}

impl World {
    /// The keys of the tiles holding a city, each once.
    fn city_key_list(&self) -> (v: Vec<u64>)
        ensures
            v@.to_set() == city_keys(self.world@),
            v@.no_duplicates(),
    {
        let keys = self.keys_vec();
        let mut cities: Vec<u64> = Vec::new();
        let mut i: usize = 0;
        while i < keys.len()
            invariant
                keys@.to_set() == self.world@.dom(),
                keys@.no_duplicates(),
                0 <= i <= keys.len(),
                cities@.to_set() == Set::new(|k: u64| keys@.take(i as int).contains(k) && city_keys(self.world@).contains(k)),
                cities@.no_duplicates(),
                forall|j: int| 0 <= j < cities@.len() ==> keys@.take(i as int).contains(#[trigger] cities@[j]),
            decreases keys.len() - i,
        {
            let k = keys[i];
            assert(keys@.to_set().contains(k));
            let tile = self.world.get(&k).unwrap();
            let is_city = match &tile.locality {
                Some(l) => l.category == LocalityCategory::City,
                None => false,
            };
            assert(!keys@.take(i as int).contains(k)) by {
                if keys@.take(i as int).contains(k) {
                    let j = choose|j: int| 0 <= j < i && keys@.take(i as int)[j] == k;
                    assert(keys@[j] == keys@[i as int]);
                }
            }
            let ghost before = cities@;
            if is_city {
                cities.push(k);
                proof {
                    before.lemma_push_to_set_commute(k);
                    assert forall|a: int, b: int| 0 <= a < b < cities@.len() implies cities@[a] != cities@[b] by {
                        if b == before.len() {
                            assert(keys@.take(i as int).contains(before[a]));
                        }
                    }
                }
            }
            assert forall|x: u64| #[trigger] keys@.take(i + 1).contains(x) == (keys@.take(i as int).contains(x) || x == k) by {
                if keys@.take(i + 1).contains(x) {
                    let j = choose|j: int| 0 <= j < i + 1 && #[trigger] keys@.take(i + 1)[j] == x;
                    if j < i {
                        assert(keys@.take(i as int)[j] == x);
                    }
                }
                if keys@.take(i as int).contains(x) {
                    let j = choose|j: int| 0 <= j < i && #[trigger] keys@.take(i as int)[j] == x;
                    assert(keys@.take(i + 1)[j] == x);
                }
                if x == k {
                    assert(keys@.take(i + 1)[i as int] == x);
                }
            }
            assert(cities@.to_set() =~= Set::new(|x: u64| keys@.take(i + 1).contains(x) && city_keys(self.world@).contains(x)));
            i = i + 1;
        }
        assert(keys@.take(keys.len() as int) =~= keys@);
        assert(cities@.to_set() =~= city_keys(self.world@)) by {
            assert forall|x: u64| keys@.contains(x) <==> self.world@.contains_key(x) by {
                assert(keys@.to_set().contains(x) == keys@.contains(x));
            }
        }
        cities
    }

    /// Makes the tile at `chosen[i]` the capital of player `i`, for each
    /// player: the player owns it, its locality becomes a capital, and the
    /// player's capital position is set to it.
    pub fn place_capitals(&mut self, players: &mut Vec<Player>, chosen: &Vec<u64>)
        requires
            old(self).wf(),
            chosen.len() == old(players).len(),
            chosen@.no_duplicates(),
            forall|i: int| 0 <= i < chosen@.len() ==> (old(self).world@.contains_key(#[trigger] chosen@[i])
                && old(self).world@[chosen@[i]].locality is Some),
        ensures
            final(self).wf(),
            capitals_at(old(self).world@, final(self).world@, chosen@),
            final(players)@.len() == old(players)@.len(),
            forall|i: int| 0 <= i < chosen@.len() ==> #[trigger] final(players)@[i]
                == (Player { capital_pos: Some(cube_of_key(chosen@[i])), ..old(players)@[i] }),
    {
        let ghost m0 = self.world@;
        let ghost ps0 = players@;
        let mut player_index: usize = 0;
        assert(chosen@.take(0) =~= Seq::<u64>::empty());
        while player_index < players.len()
            invariant
                self.wf(),
                players@.len() == ps0.len(),
                chosen@.len() == ps0.len(),
                chosen@.no_duplicates(),
                forall|i: int| 0 <= i < chosen@.len() ==> m0.contains_key(#[trigger] chosen@[i]) && m0[chosen@[i]].locality is Some,
                0 <= player_index <= ps0.len(),
                capitals_at(m0, self.world@, chosen@.take(player_index as int)),
                forall|i: int| 0 <= i < ps0.len() ==> #[trigger] players@[i] == if i < player_index {
                    Player { capital_pos: Some(cube_of_key(chosen@[i])), ..ps0[i] }
                } else {
                    ps0[i]
                },
            decreases ps0.len() - player_index,
        {
            let k = chosen[player_index];
            let cube = Cube::from_key(k);
            let ghost before = self.world@;
            assert(m0.contains_key(k));
            assert(!chosen@.take(player_index as int).contains(k)) by {
                if chosen@.take(player_index as int).contains(k) {
                    let j = choose|j: int| 0 <= j < player_index && chosen@.take(player_index as int)[j] == k;
                    assert(chosen@[j] == chosen@[player_index as int]);
                }
            }
            assert(before[k] == m0[k]);
            let t = self.remove(&cube).unwrap();
            let Tile { owner_index: _, category, locality, army } = t;
            let locality = match locality {
                Some(l) => Some(Locality { name: l.name, category: LocalityCategory::Capital, starting_owner_index: l.starting_owner_index }),
                None => None,
            };
            let capital = Tile { owner_index: Some(player_index), category, locality, army };
            proof {
                assert(self.world@.dom() =~= before.dom().remove(k));
                vstd::set_lib::lemma_len_subset(self.world@.dom(), before.dom());
            }
            self.insert(cube, capital);
            set_capital_pos(players, player_index, cube);
            proof {
                let pi = player_index as int;
                assert(chosen@.take(pi + 1) =~= chosen@.take(pi).push(k));
                assert forall|i: int| 0 <= i < chosen@.take(pi + 1).len() implies
                    self.world@[#[trigger] chosen@.take(pi + 1)[i]] == made_capital(m0[chosen@.take(pi + 1)[i]], i as usize) by {
                    if i < pi {
                        assert(chosen@.take(pi + 1)[i] == chosen@.take(pi)[i]);
                        assert(chosen@[i] != k);
                    }
                }
                assert forall|x: u64| #[trigger] self.world@.contains_key(x) && !chosen@.take(pi + 1).contains(x) implies self.world@[x] == m0[x] by {
                    assert(x != k) by {
                        assert(chosen@.take(pi + 1)[pi] == k);
                    }
                    assert(!chosen@.take(pi).contains(x)) by {
                        if chosen@.take(pi).contains(x) {
                            let j = choose|j: int| 0 <= j < pi && chosen@.take(pi)[j] == x;
                            assert(chosen@.take(pi + 1)[j] == x);
                        }
                    }
                }
                assert(self.world@.dom() =~= m0.dom());
            }
            player_index = player_index + 1;
        }
        assert(chosen@.take(chosen@.len() as int) =~= chosen@);
    }

    /// Makes a randomly chosen city, a different one for each player, the
    /// capital of that player.
    pub fn gen_random_capitals(&mut self, players: &mut Vec<Player>)
        requires
            old(self).wf(),
            old(players).len() <= city_keys(old(self).world@).len(),
        ensures
            final(self).wf(),
            random_capitals_done(old(self).world@, final(self).world@, old(players)@, final(players)@),
    {
        let ghost m0 = self.world@;
        let cities = self.city_key_list();
        proof {
            cities@.unique_seq_to_set();
        }
        let start_pos = crate::rng::sample_indices(cities.len(), players.len());
        let mut chosen: Vec<u64> = Vec::new();
        let mut i: usize = 0;
        while i < start_pos.len()
            invariant
                forall|j: int| 0 <= j < start_pos@.len() ==> start_pos@[j] < cities@.len(),
                0 <= i <= start_pos.len(),
                chosen@ == start_pos@.take(i as int).map_values(|p: usize| cities@[p as int]),
            decreases start_pos.len() - i,
        {
            chosen.push(cities[start_pos[i]]);
            assert(chosen@ =~= start_pos@.take(i + 1).map_values(|p: usize| cities@[p as int]));
            i = i + 1;
        }
        assert(start_pos@.take(start_pos@.len() as int) =~= start_pos@);
        proof {
            assert forall|a: int, b: int| 0 <= a < b < chosen@.len() implies chosen@[a] != chosen@[b] by {
                assert(start_pos@[a] != start_pos@[b]);
            }
            assert forall|j: int| 0 <= j < chosen@.len() implies city_keys(m0).contains(#[trigger] chosen@[j]) by {
                assert(cities@.to_set().contains(cities@[start_pos@[j] as int]));
            }
        }
        self.place_capitals(players, &chosen);
        assert(chosen@.len() == old(players)@.len());
    }
}

/// Some neighbour of `c` in `m` is water.
pub open spec fn has_water_neighbour(m: Map<u64, Tile>, c: Cube<i32>) -> bool {
    exists|x: Cube<i32>| #[trigger] cube_distance(x, c) == 1 && m.contains_key(key_of(x))
        && m[key_of(x)].category == TileCategory::Water
}

/// How many of the first `j` chosen tiles of `m` are not water.
pub open spec fn land_count(m: Map<u64, Tile>, chosen: Seq<u64>, j: int) -> int
    decreases j,
{
    if j <= 0 {
        0
    } else {
        land_count(m, chosen, j - 1) + if m[chosen[j - 1]].category != TileCategory::Water { 1int } else { 0int }
    }
}

/// The name of the `t`-th new locality: the names are taken from the end
/// of the list, and "city" once they run out.
pub open spec fn locality_name(names: Seq<&str>, t: int) -> Seq<char> {
    if t < names.len() {
        names[names.len() - 1 - t]@
    } else {
        "city"@
    }
}

/// The names left once `t` of them were taken from the end.
pub open spec fn names_left(names: Seq<&str>, t: int) -> Seq<&str> {
    if t <= names.len() {
        names.take(names.len() - t)
    } else {
        Seq::empty()
    }
}

/// The chosen tile `before`, as the `j`-th of the chosen ones, after it got
/// a locality of category `cat`: a tile of water is left as it was.
pub open spec fn given_locality(t: Tile, before: Tile, cat: LocalityCategory, name: Seq<char>) -> bool {
    if before.category == TileCategory::Water {
        t == before
    } else {
        &&& t.owner_index == before.owner_index
        &&& t.category == before.category
        &&& t.army == before.army
        &&& t.locality matches Some(l) && l.category == cat && l.name@ == name && l.starting_owner_index is None
    }
}

/// `m` is `m0` after the tiles `chosen` got localities of the categories
/// `cats`, named from `names`.
pub open spec fn localities_at(m0: Map<u64, Tile>, m: Map<u64, Tile>, chosen: Seq<u64>, cats: Seq<LocalityCategory>,
    names: Seq<&str>) -> bool {
    &&& m.dom() == m0.dom()
    &&& forall|j: int| 0 <= j < chosen.len() ==> given_locality(m[#[trigger] chosen[j]], m0[chosen[j]], cats[j],
        locality_name(names, land_count(m0, chosen, j)))
    &&& forall|k: u64| #[trigger] m.contains_key(k) && !chosen.contains(k) ==> m[k] == m0[k]
}

/// The category that the rolls give the chosen tile at `k`: an airport if
/// `airport` came up, else a port city if `port` came up and the tile
/// borders water, else a city.
pub open spec fn rolled_category(m: Map<u64, Tile>, k: u64, port: bool, airport: bool) -> LocalityCategory {
    if airport {
        LocalityCategory::Airport
    } else if port && has_water_neighbour(m, cube_of_key(k)) {
        LocalityCategory::PortCity
    } else {
        LocalityCategory::City
    }
}

/// The categories that the rolls give the chosen tiles, one for each.
pub open spec fn rolled_categories(m: Map<u64, Tile>, chosen: Seq<u64>, ports: Seq<bool>, airports: Seq<bool>) -> Seq<LocalityCategory> {
    Seq::new(chosen.len(), |j: int| rolled_category(m, chosen[j], ports[j], airports[j]))
}

impl World {
    /// Does a neighbour of `cube` hold water?
    pub fn borders_water(&self, cube: &Cube<i32>) -> (b: bool)
        requires
            fits(*cube, 1),
        ensures
            b == has_water_neighbour(self.world@, *cube),
    {
        let neighbours = cube.disc(1);
        proof {
            lemma_disc_contents(*cube, 1);
            assert(crate::cubic::spec_triangular(1) == 1);
        }
        let mut jn: usize = 0;
        while jn < 6
            invariant
                neighbours@ == disc_seq(*cube, 1),
                neighbours@.len() == 6,
                forall|x: Cube<i32>| disc_seq(*cube, 1).contains(x) <==> 1 <= cube_distance(x, *cube) <= 1,
                0 <= jn <= 6,
                forall|j: int| 0 <= j < jn ==> !(self.world@.contains_key(key_of(#[trigger] neighbours@[j]))
                    && self.world@[key_of(neighbours@[j])].category == TileCategory::Water),
            decreases 6 - jn,
        {
            let nb = neighbours[jn];
            if let Some(t) = self.get(&nb) {
                if t.category == TileCategory::Water {
                    proof {
                        assert(disc_seq(*cube, 1).contains(nb));
                        assert(cube_distance(nb, *cube) == 1);
                    }
                    return true;
                }
            }
            jn = jn + 1;
        }
        proof {
            if has_water_neighbour(self.world@, *cube) {
                let x = choose|x: Cube<i32>| #[trigger] cube_distance(x, *cube) == 1 && self.world@.contains_key(key_of(x))
                    && self.world@[key_of(x)].category == TileCategory::Water;
                assert(disc_seq(*cube, 1).contains(x));
                let j = choose|j: int| 0 <= j < 6 && neighbours@[j] == x;
                assert(!(self.world@.contains_key(key_of(neighbours@[j]))
                    && self.world@[key_of(neighbours@[j])].category == TileCategory::Water));
            }
        }
        false
    }

    /// Gives each chosen tile of land a locality, of the category its rolls
    /// give it (see `rolled_category`), named from the end of
    /// `locality_names` or "city" once the names run out; tiles of water
    /// are left as they are.
    #[verifier::rlimit(60)]
    pub fn place_localities(&mut self, chosen: &Vec<u64>, port_rolls: &Vec<bool>, airport_rolls: &Vec<bool>,
        locality_names: &mut Vec<&str>)
        requires
            old(self).wf(),
            old(self).within_one_step(),
            chosen@.no_duplicates(),
            forall|j: int| 0 <= j < chosen@.len() ==> old(self).world@.contains_key(#[trigger] chosen@[j]),
            port_rolls.len() == chosen.len(),
            airport_rolls.len() == chosen.len(),
        ensures
            final(self).wf(),
            localities_at(old(self).world@, final(self).world@, chosen@,
                rolled_categories(old(self).world@, chosen@, port_rolls@, airport_rolls@), old(locality_names)@),
            final(locality_names)@ == names_left(old(locality_names)@, land_count(old(self).world@, chosen@, chosen@.len() as int)),
    {
        let ghost m0 = self.world@;
        let ghost names0 = locality_names@;
        let ghost cats = rolled_categories(m0, chosen@, port_rolls@, airport_rolls@);
        proof {
            assert forall|c: Cube<i32>| #[trigger] m0.contains_key(key_of(c)) implies fits(c, 1) by {
                assert(self.has(c));
            }
            assert(chosen@.take(0) =~= Seq::<u64>::empty());
            assert(cats.take(0) =~= Seq::<LocalityCategory>::empty());
            assert(names_left(names0, 0) =~= names0);
        }
        let mut i: usize = 0;
        while i < chosen.len()
            invariant
                self.wf(),
                forall|c: Cube<i32>| #[trigger] m0.contains_key(key_of(c)) ==> fits(c, 1),
                m0.dom() == self.world@.dom(),
                forall|x: u64| #[trigger] self.world@.contains_key(x) ==> self.world@[x].category == m0[x].category,
                cats == rolled_categories(m0, chosen@, port_rolls@, airport_rolls@),
                port_rolls.len() == chosen.len(),
                airport_rolls.len() == chosen.len(),
                chosen@.no_duplicates(),
                forall|j: int| 0 <= j < chosen@.len() ==> m0.contains_key(#[trigger] chosen@[j]),
                0 <= i <= chosen.len(),
                localities_at(m0, self.world@, chosen@.take(i as int), cats.take(i as int), names0),
                locality_names@ == names_left(names0, land_count(m0, chosen@, i as int)),
            decreases chosen.len() - i,
        {
            let k = chosen[i];
            let cube = Cube::from_key(k);
            assert(m0.contains_key(key_of(cube)));
            let water_near = self.borders_water(&cube);
            proof {
                assert(water_near == has_water_neighbour(m0, cube)) by {
                    if has_water_neighbour(m0, cube) {
                        let x = choose|x: Cube<i32>| #[trigger] cube_distance(x, cube) == 1 && m0.contains_key(key_of(x))
                            && m0[key_of(x)].category == TileCategory::Water;
                        assert(self.world@.contains_key(key_of(x)));
                    }
                    if has_water_neighbour(self.world@, cube) {
                        let x = choose|x: Cube<i32>| #[trigger] cube_distance(x, cube) == 1 && self.world@.contains_key(key_of(x))
                            && self.world@[key_of(x)].category == TileCategory::Water;
                        assert(m0.contains_key(key_of(x)));
                    }
                }
            }
            let category = if airport_rolls[i] {
                LocalityCategory::Airport
            } else if port_rolls[i] && water_near {
                LocalityCategory::PortCity
            } else {
                LocalityCategory::City
            };
            let ghost pi = i as int;
            assert(category == cats[pi]);
            let ghost before = self.world@;
            assert(!chosen@.take(pi).contains(k)) by {
                if chosen@.take(pi).contains(k) {
                    let j = choose|j: int| 0 <= j < pi && chosen@.take(pi)[j] == k;
                    assert(chosen@[j] == chosen@[pi]);
                }
            }
            assert(before[k] == m0[k]);
            let is_land = self.world.get(&k).unwrap().category != TileCategory::Water;
            let ghost names_before = locality_names@;
            let ghost t_count = land_count(m0, chosen@, pi);
            proof {
                lemma_land_count_bounds(m0, chosen@, pi);
            }
            if is_land {
                let name = match locality_names.pop() {
                    Some(name) => name,
                    None => "city",
                };
                let t = self.remove(&cube).unwrap();
                let t = Tile { locality: Some(Locality::new(name, category)), ..t };
                proof {
                    assert(self.world@.dom() =~= before.dom().remove(k));
                    vstd::set_lib::lemma_len_subset(self.world@.dom(), before.dom());
                }
                self.insert(cube, t);
                proof {
                    if t_count < names0.len() {
                        assert(names_before.len() > 0);
                        assert(names_before.last() == names0[names0.len() - 1 - t_count]);
                    }
                    assert(name@ == locality_name(names0, t_count));
                }
            }
            proof {
                lemma_land_count_prefix(m0, chosen@, pi + 1, pi);
                assert(given_locality(self.world@[k], m0[k], category, locality_name(names0, t_count)));
                assert(chosen@.take(pi + 1) =~= chosen@.take(pi).push(k));
                assert(land_count(m0, chosen@, pi + 1) == land_count(m0, chosen@, pi) + if is_land { 1int } else { 0int });
                assert forall|j: int| 0 <= j < chosen@.take(pi + 1).len() implies given_locality(self.world@[#[trigger] chosen@.take(pi + 1)[j]],
                    m0[chosen@.take(pi + 1)[j]], cats.take(pi + 1)[j], locality_name(names0, land_count(m0, chosen@.take(pi + 1), j))) by {
                    assert forall|jj: int| 0 <= jj <= j implies land_count(m0, chosen@.take(pi + 1), jj) == land_count(m0, chosen@, jj) by {
                        lemma_land_count_prefix(m0, chosen@, pi + 1, jj);
                    }
                    if j < pi {
                        assert(chosen@.take(pi + 1)[j] == chosen@.take(pi)[j]);
                        assert(chosen@[j] != k);
                        assert(cats.take(pi + 1)[j] == cats.take(pi)[j]);
                        lemma_land_count_prefix(m0, chosen@, pi, j);
                    }
                }
                assert forall|x: u64| #[trigger] self.world@.contains_key(x) && !chosen@.take(pi + 1).contains(x) implies self.world@[x] == m0[x] by {
                    assert(x != k) by {
                        assert(chosen@.take(pi + 1)[pi] == k);
                    }
                    assert(!chosen@.take(pi).contains(x)) by {
                        if chosen@.take(pi).contains(x) {
                            let j = choose|j: int| 0 <= j < pi && chosen@.take(pi)[j] == x;
                            assert(chosen@.take(pi + 1)[j] == x);
                        }
                    }
                }
                assert(self.world@.dom() =~= m0.dom());
                if is_land {
                    let t = land_count(m0, chosen@, pi);
                    if t < names0.len() {
                        assert(names_left(names0, t + 1) =~= names_left(names0, t).drop_last());
                    } else {
                        assert(names_left(names0, t + 1) =~= names_left(names0, t));
                    }
                }
            }
            i = i + 1;
        }
        assert(chosen@.take(chosen@.len() as int) =~= chosen@);
        assert(cats.take(cats.len() as int) =~= cats);
    }

    /// Scatters localities over a random tenth of the tiles. Each becomes a
    /// city, or with even odds a port city if it borders water, and then
    /// with one chance in ten an airport instead; tiles of water get none.
    /// The localities take their names from the end of `locality_names`,
    /// and are called "city" once the names run out.
    pub fn gen_random_localities(&mut self, locality_names: &mut Vec<&str>)
        requires
            old(self).wf(),
            old(self).within_one_step(),
        ensures
            final(self).wf(),
            random_localities_done(old(self).world@, final(self).world@, old(locality_names)@, final(locality_names)@),
    {
        let ghost m0 = self.world@;
        let n = self.len();
        let amount = n / 10;
        let positions = crate::rng::sample_indices(n, amount);
        let keys = self.keys_vec();
        let mut chosen: Vec<u64> = Vec::new();
        let mut port_rolls: Vec<bool> = Vec::new();
        let mut airport_rolls: Vec<bool> = Vec::new();
        let mut i: usize = 0;
        while i < positions.len()
            invariant
                keys@.len() == n,
                keys@.to_set() == m0.dom(),
                forall|j: int| 0 <= j < positions@.len() ==> positions@[j] < n,
                0 <= i <= positions.len(),
                chosen@ == positions@.take(i as int).map_values(|p: usize| keys@[p as int]),
                port_rolls.len() == i,
                airport_rolls.len() == i,
            decreases positions.len() - i,
        {
            chosen.push(keys[positions[i]]);
            port_rolls.push(crate::rng::chance(1, 2));
            airport_rolls.push(crate::rng::chance(1, 10));
            assert(chosen@ =~= positions@.take(i + 1).map_values(|p: usize| keys@[p as int]));
            i = i + 1;
        }
        assert(positions@.take(positions@.len() as int) =~= positions@);
        proof {
            assert forall|a: int, b: int| 0 <= a < b < chosen@.len() implies chosen@[a] != chosen@[b] by {
                assert(positions@[a] != positions@[b]);
            }
            assert forall|j: int| 0 <= j < chosen@.len() implies m0.contains_key(#[trigger] chosen@[j]) by {
                assert(keys@.to_set().contains(keys@[positions@[j] as int]));
            }
        }
        let ghost names0 = locality_names@;
        self.place_localities(&chosen, &port_rolls, &airport_rolls, locality_names);
        proof {
            let cats = rolled_categories(m0, chosen@, port_rolls@, airport_rolls@);
            assert(cats.len() == chosen@.len());
            assert(chosen@.len() == m0.len() / 10);
            assert forall|j: int| 0 <= j < cats.len() implies (#[trigger] cats[j] == LocalityCategory::City
                || cats[j] == LocalityCategory::Airport
                || (cats[j] == LocalityCategory::PortCity && has_water_neighbour(m0, cube_of_key(chosen@[j])))) by {
            }
        }
    }
}

/// At most `j` of the first `j` chosen tiles are land.
proof fn lemma_land_count_bounds(m: Map<u64, Tile>, chosen: Seq<u64>, j: int)
    requires
        0 <= j,
    ensures
        0 <= land_count(m, chosen, j) <= j,
    decreases j,
{
    if j > 0 {
        lemma_land_count_bounds(m, chosen, j - 1);
    }
}

/// Counting land among the first `j` chosen tiles does not depend on the
/// tiles chosen after them.
proof fn lemma_land_count_prefix(m: Map<u64, Tile>, chosen: Seq<u64>, len: int, j: int)
    requires
        0 <= j <= len <= chosen.len(),
    ensures
        land_count(m, chosen.take(len), j) == land_count(m, chosen, j),
    decreases j,
{
    if j > 0 {
        lemma_land_count_prefix(m, chosen, len, j - 1);
        assert(chosen.take(len)[j - 1] == chosen[j - 1]);
    }
}

/// `m`, `ps` are `m0`, `ps0` after the classic capitals were placed with
/// the given names (see `gen_classic_capitals`).
pub open spec fn classic_capitals_done(m0: Map<u64, Tile>, m: Map<u64, Tile>, names: Seq<&str>,
    ps0: Seq<Player>, ps: Seq<Player>) -> bool {
    let n = classic_count(ps0.len() as int, names.len() as int);
    &&& classic_capitals_placed(m0, m, names, n)
    &&& ps.len() == ps0.len()
    &&& forall|i: int| 0 <= i < ps0.len() ==> #[trigger] ps[i] == if i < n {
        Player { capital_pos: Some(classic_position(i)), ..ps0[i] }
    } else {
        ps0[i]
    }
}

/// `m`, `ps` are `m0`, `ps0` after each player got a different city of
/// `m0` as its capital (see `gen_random_capitals`).
pub open spec fn random_capitals_done(m0: Map<u64, Tile>, m: Map<u64, Tile>, ps0: Seq<Player>, ps: Seq<Player>) -> bool {
    &&& ps.len() == ps0.len()
    &&& exists|chosen: Seq<u64>| {
        &&& #[trigger] chosen.len() == ps0.len()
        &&& chosen.no_duplicates()
        &&& forall|i: int| 0 <= i < chosen.len() ==> city_keys(m0).contains(#[trigger] chosen[i])
        &&& capitals_at(m0, m, chosen)
        &&& forall|i: int| 0 <= i < chosen.len() ==> #[trigger] ps[i]
            == Player { capital_pos: Some(cube_of_key(chosen[i])), ..ps0[i] }
    }
}

/// `m`, `names` are `m0`, `names0` after localities were scattered over a
/// tenth of the tiles (see `gen_random_localities`).
pub open spec fn random_localities_done(m0: Map<u64, Tile>, m: Map<u64, Tile>, names0: Seq<&str>, names: Seq<&str>) -> bool {
    exists|chosen: Seq<u64>, cats: Seq<LocalityCategory>| {
        &&& #[trigger] chosen.len() == m0.len() / 10
        &&& chosen.no_duplicates()
        &&& forall|j: int| 0 <= j < chosen.len() ==> m0.contains_key(#[trigger] chosen[j])
        &&& #[trigger] cats.len() == chosen.len()
        &&& forall|j: int| 0 <= j < cats.len() ==> (#[trigger] cats[j] == LocalityCategory::City
            || cats[j] == LocalityCategory::Airport
            || (cats[j] == LocalityCategory::PortCity && has_water_neighbour(m0, cube_of_key(chosen[j]))))
        &&& localities_at(m0, m, chosen, cats, names0)
        &&& names == names_left(names0, land_count(m0, chosen, chosen.len() as int))
    }
}

impl World {
    /// Scatters localities as `gen` says. Only random scattering exists;
    /// scattering with a tile of space between localities does not.
    pub fn choose_localities_gen(&mut self, gen: LocalitiesGen, locality_names: &mut Vec<&str>)
        requires
            old(self).wf(),
            old(self).within_one_step(),
            gen is Random,
        ensures
            final(self).wf(),
            random_localities_done(old(self).world@, final(self).world@, old(locality_names)@, final(locality_names)@),
    {
        match gen {
            LocalitiesGen::Random => self.gen_random_localities(locality_names),
            LocalitiesGen::RandomOts => {},
        }
    }

    /// Places the capitals as `gen` says: at the classic positions or in
    /// random cities. Placement at the greatest distance does not exist.
    pub fn choose_capitals_gen(&mut self, gen: CapitalsGen, players: &mut Vec<Player>, locality_names: &Vec<&str>)
        requires
            old(self).wf(),
            !(gen is MaxDist),
            gen is Classic ==> forall|i: int| 0 <= i < classic_count(old(players).len() as int, locality_names.len() as int)
                ==> old(self).has(#[trigger] classic_position(i)),
            gen is Random ==> old(players).len() <= city_keys(old(self).world@).len(),
        ensures
            final(self).wf(),
            gen is Classic ==> classic_capitals_done(old(self).world@, final(self).world@, locality_names@, old(players)@, final(players)@),
            gen is Random ==> random_capitals_done(old(self).world@, final(self).world@, old(players)@, final(players)@),
    {
        match gen {
            CapitalsGen::Classic => self.gen_classic_capitals(locality_names, players),
            CapitalsGen::Random => self.gen_random_capitals(players),
            CapitalsGen::MaxDist => {},
        }
    }
}

} // verus!
