//! The computer player: scores candidate orders and picks the promising ones.

use vstd::prelude::*;
use std::collections::HashSet;
use vstd::std_specs::iter::IteratorSpec;
use crate::cubic::{Cube, key_of, fits, disc_seq};
use crate::world::{World, Tile, Army, TileCategory, LocalityCategory, MAX_STACK_SIZE, MAX_TRAVEL_DISTANCE, army_ok};
use crate::world::orders::{extendable, strength};
use crate::world::morale::same_owner;
use crate::world::movement::{reachable, capturable_within_range, lemma_visited_in_world};

verus! {

broadcast use vstd::std_specs::hash::group_hash_axioms;

/// Largest weight, in either direction, a score may have, so that the score
/// of any order fits in an `i32`.
pub const MAX_SCORE: i32 = 10_000_000;

/// Score weights for what an order can gain.
pub struct Scores {
    pub manpower: i32,
    pub water: i32,
    pub farmland: i32,
    pub city: i32,
    pub port_city: i32,
    pub airport: i32,
    pub capital: i32,
    pub satellite_capital: i32,
}

/// A candidate order of the army at `origin` against `target`, with its score.
#[derive(Clone, Copy, Debug)]
pub struct ScoredMove {
    pub score: i32,
    pub origin: Cube<i32>,
    pub target: Cube<i32>,
}

/// A computer player, parameterised by its score weights.
pub struct AI {
    pub scores: Scores,
}

/// Every weight lies within `MAX_SCORE` of zero.
pub open spec fn scores_ok(s: Scores) -> bool {
    &&& -MAX_SCORE <= s.manpower <= MAX_SCORE
    &&& -MAX_SCORE <= s.water <= MAX_SCORE
    &&& -MAX_SCORE <= s.farmland <= MAX_SCORE
    &&& -MAX_SCORE <= s.city <= MAX_SCORE
    &&& -MAX_SCORE <= s.port_city <= MAX_SCORE
    &&& -MAX_SCORE <= s.airport <= MAX_SCORE
    &&& -MAX_SCORE <= s.capital <= MAX_SCORE
    &&& -MAX_SCORE <= s.satellite_capital <= MAX_SCORE
}

/// The weights the computer player starts with.
pub open spec fn is_default_scores(s: Scores) -> bool {
    &&& s.water == 0
    &&& s.manpower == 1
    &&& s.farmland == 1
    &&& s.port_city == 8
    &&& s.airport == 9
    &&& s.city == 10
    &&& s.satellite_capital == 15
    &&& s.capital == 100
}

/// The weights the computer player starts with.
pub fn default_scores() -> (s: Scores)
    ensures
        is_default_scores(s),
{
    Scores { water: 0, manpower: 1, farmland: 1, port_city: 8, airport: 9, city: 10, satellite_capital: 15, capital: 100 }
}

/// The value of a tile of the given terrain.
pub open spec fn tile_category_score(s: Scores, c: TileCategory) -> int {
    match c {
        TileCategory::Farmland => s.farmland as int,
        TileCategory::Water => s.water as int,
    }
}

/// The value of a locality of the given kind.
pub open spec fn locality_score(s: Scores, c: LocalityCategory) -> int {
    match c {
        LocalityCategory::City => s.city as int,
        LocalityCategory::PortCity => s.port_city as int,
        LocalityCategory::Airport => s.airport as int,
        LocalityCategory::Capital => s.capital as int,
        LocalityCategory::SatelliteCapital => s.satellite_capital as int,
    }
}

/// The value of capturing the tile: that of its locality if it has one,
/// else that of its terrain.
pub open spec fn tile_score(s: Scores, t: Tile) -> int {
    match t.locality {
        Some(l) => locality_score(s, l.category),
        None => tile_category_score(s, t.category),
    }
}

/// What extending the borders around `t` onto the neighbour `c` is worth
/// to player `own`: the value of its terrain if border extension from `t`
/// would take it and `own` does not hold it yet.
pub open spec fn border_gain(s: Scores, own: usize, m: Map<u64, Tile>, t: Cube<i32>, c: Cube<i32>) -> int {
    if extendable(m, key_of(t), key_of(c)) && m[key_of(c)].owner_index != Some(own) {
        tile_category_score(s, m[key_of(c)].category)
    } else {
        0
    }
}

/// The sum of `border_gain` over the cubes `ns`.
pub open spec fn border_score_over(s: Scores, own: usize, m: Map<u64, Tile>, t: Cube<i32>, ns: Seq<Cube<i32>>) -> int
    decreases ns.len(),
{
    if ns.len() == 0 {
        0
    } else {
        border_score_over(s, own, m, t, ns.drop_last()) + border_gain(s, own, m, t, ns.last())
    }
}

/// What extending the borders around `t` is worth to player `own`.
pub open spec fn border_score(s: Scores, own: usize, m: Map<u64, Tile>, t: Cube<i32>) -> int {
    border_score_over(s, own, m, t, disc_seq(t, 1))
}

/// `a / b` rounded towards zero, as integer division does.
pub open spec fn trunc_div(a: int, b: int) -> int {
    if a >= 0 {
        a / b
    } else {
        -((-a) / b)
    }
}

/// The combat part of the score of an attack by `o` on `t`: a tenth of the
/// difference in strength, plus a tenth of the defenders' weighted manpower
/// when the attack wins, minus a tenth of the attackers' when it fails.
pub open spec fn combat_score(s: Scores, o: Army, t: Army) -> int {
    let diff = strength(o) - strength(t);
    if diff > 0 {
        trunc_div(diff, 10) + trunc_div(t.manpower * s.manpower, 10)
    } else {
        trunc_div(diff, 10) - trunc_div(o.manpower * s.manpower, 10)
    }
}

/// The score, for player `own`, of ordering the army at `o` onto `t`. A
/// tile of another owner is worth its `tile_score` and `border_score` when
/// it is empty or the attack on it wins, plus the `combat_score` if it holds
/// an army; a tile of `own` is worth its `border_score`.
pub open spec fn move_score(s: Scores, own: usize, m: Map<u64, Tile>, o: Cube<i32>, t: Cube<i32>) -> int {
    let target = m[key_of(t)];
    if target.owner_index != Some(own) {
        match target.army {
            Some(ta) => {
                let oa = m[key_of(o)].army->0;
                combat_score(s, oa, ta) + if strength(oa) - strength(ta) > 0 {
                    tile_score(s, target) + border_score(s, own, m, t)
                } else {
                    0
                }
            },
            None => tile_score(s, target) + border_score(s, own, m, t),
        }
    } else {
        border_score(s, own, m, t)
    }
}

/// `a / 10` rounded towards zero.
fn tenth(a: i32) -> (r: i32)
    requires
        a > i32::MIN,
    ensures
        r == trunc_div(a as int, 10),
{
    if a >= 0 {
        a / 10
    } else {
        -((-a) / 10)
    }
}

impl AI {
    /// A computer player with the default weights.
    pub fn new() -> (ai: Self)
        ensures
            is_default_scores(ai.scores),
    {
        AI { scores: default_scores() }
    }

    /// The value of a tile of the given terrain.
    pub fn match_tile_category_score(&self, category: &TileCategory) -> (r: i32)
        ensures
            r == tile_category_score(self.scores, *category),
    {
        match category {
            TileCategory::Farmland => self.scores.farmland,
            TileCategory::Water => self.scores.water,
        }
    }

    /// The value of a locality of the given kind.
    pub fn match_locality_category_score(&self, category: &LocalityCategory) -> (r: i32)
        ensures
            r == locality_score(self.scores, *category),
    {
        match category {
            LocalityCategory::City => self.scores.city,
            LocalityCategory::PortCity => self.scores.port_city,
            LocalityCategory::Airport => self.scores.airport,
            LocalityCategory::Capital => self.scores.capital,
            LocalityCategory::SatelliteCapital => self.scores.satellite_capital,
        }
    }

    /// The base value of capturing the tile.
    pub fn match_tile_score(&self, tile: &Tile) -> (r: i32)
        ensures
            r == tile_score(self.scores, *tile),
    {
        match &tile.locality {
            Some(locality) => self.match_locality_category_score(&locality.category),
            None => self.match_tile_category_score(&tile.category),
        }
    }

    /// What extending the borders around `cube` is worth to `own_player_index`.
    pub fn calculate_extended_border_score(&self, own_player_index: &usize, world: &World, cube: &Cube<i32>) -> (r: i32)
        requires
            scores_ok(self.scores),
            world.has(*cube),
            fits(*cube, 1),
        ensures
            r == border_score(self.scores, *own_player_index, world.world@, *cube),
            -6 * MAX_SCORE <= r <= 6 * MAX_SCORE,
    {
        let ghost s = self.scores;
        let ghost m = world.world@;
        let neighbours = cube.disc(1);
        proof {
            assert(crate::cubic::spec_triangular(1) == 1);
        }
        let mut score: i32 = 0;
        let mut i: usize = 0;
        while i < neighbours.len()
            invariant
                s == self.scores,
                m == world.world@,
                scores_ok(s),
                world.has(*cube),
                neighbours@ == disc_seq(*cube, 1),
                neighbours@.len() == 6,
                0 <= i <= 6,
                score == border_score_over(s, *own_player_index, m, *cube, neighbours@.take(i as int)),
                -10_000_000 * i <= score <= 10_000_000 * i,
            decreases 6 - i,
        {
            let neighbour = neighbours[i];
            if let Some(tile) = world.get(&neighbour) {
                if world.is_cube_extendable(cube, &neighbour) && !same_owner(tile.owner_index, Some(*own_player_index)) {
                    score = score + self.match_tile_category_score(&tile.category);
                }
            }
            assert(neighbours@.take(i + 1).drop_last() =~= neighbours@.take(i as int));
            i = i + 1;
        }
        assert(neighbours@.take(6) =~= neighbours@);
        score
    }

    /// The combat part of the score of an attack from `origin_cube` on `target_cube`.
    pub fn calculate_combat_score(&self, world: &World, origin_cube: &Cube<i32>, target_cube: &Cube<i32>) -> (r: i32)
        requires
            scores_ok(self.scores),
            world.has(*origin_cube),
            world.has(*target_cube),
            world.at(*origin_cube).army matches Some(a) && army_ok(a),
            world.at(*target_cube).army matches Some(a) && army_ok(a),
        ensures
            r == combat_score(self.scores, world.at(*origin_cube).army->0, world.at(*target_cube).army->0),
            -(MAX_SCORE * 10) <= r <= MAX_SCORE * 10,
    {
        let origin = world.get(origin_cube).unwrap();
        let target = world.get(target_cube).unwrap();
        let origin_army = origin.army.as_ref().unwrap();
        let target_army = target.army.as_ref().unwrap();
        let diff = origin_army.combat_strength() - target_army.combat_strength();
        let mut score = tenth(diff);
        if diff > 0 {
            assert(-(MAX_STACK_SIZE * MAX_SCORE) <= target_army.manpower * self.scores.manpower <= MAX_STACK_SIZE * MAX_SCORE)
                by (nonlinear_arith)
                requires
                    1 <= target_army.manpower <= MAX_STACK_SIZE,
                    -MAX_SCORE <= self.scores.manpower <= MAX_SCORE;
            score = score + tenth(target_army.manpower * self.scores.manpower);
        } else {
            assert(-(MAX_STACK_SIZE * MAX_SCORE) <= origin_army.manpower * self.scores.manpower <= MAX_STACK_SIZE * MAX_SCORE)
                by (nonlinear_arith)
                requires
                    1 <= origin_army.manpower <= MAX_STACK_SIZE,
                    -MAX_SCORE <= self.scores.manpower <= MAX_SCORE;
            score = score - tenth(origin_army.manpower * self.scores.manpower);
        }
        score
    }

    /// The score, for `own_player_index`, of ordering the army at
    /// `origin_cube` onto `target_cube` (see `move_score`).
    pub fn calculate_score(&self, own_player_index: &usize, world: &World, origin_cube: &Cube<i32>, target_cube: &Cube<i32>) -> (r: i32)
        requires
            scores_ok(self.scores),
            world.wf(),
            world.has(*origin_cube),
            world.has(*target_cube),
            fits(*target_cube, 1),
            world.at(*target_cube).army is Some ==> world.at(*origin_cube).army is Some,
        ensures
            r == move_score(self.scores, *own_player_index, world.world@, *origin_cube, *target_cube),
            -(MAX_SCORE * 20) <= r <= MAX_SCORE * 20,
    {
        let origin = world.get(origin_cube).unwrap();
        let target = world.get(target_cube).unwrap();
        assert(world.world@.contains_key(key_of(*origin_cube)));
        assert(world.world@.contains_key(key_of(*target_cube)));
        let mut score: i32 = 0;
        if !same_owner(target.owner_index, Some(*own_player_index)) {
            match &target.army {
                Some(target_army) => {
                    let origin_army = origin.army.as_ref().unwrap();
                    score = score + self.calculate_combat_score(world, origin_cube, target_cube);
                    let diff = origin_army.combat_strength() - target_army.combat_strength();
                    if diff > 0 {
                        score = score + self.match_tile_score(target);
                        score = score + self.calculate_extended_border_score(own_player_index, world, target_cube);
                    }
                },
                None => {
                    score = score + self.match_tile_score(target);
                    score = score + self.calculate_extended_border_score(own_player_index, world, target_cube);
                },
            }
        } else {
            score = score + self.calculate_extended_border_score(own_player_index, world, target_cube);
        }
        score
    }
}

/// The keys of the tiles of `own` whose army may still move and can reach
/// a tile of another owner.
pub open spec fn useful_army_keys(w: World, own: usize) -> Set<u64> {
    Set::new(|k: u64| w.owned_keys(own).contains(k) && w.world@[k].army is Some && w.world@[k].army->0.can_move
        && exists|c: Cube<i32>| key_of(c) == k && #[trigger] capturable_within_range(w.world@, c))
}

/// `mv` is an order of the army at `mv.origin` onto a tile it can reach,
/// with its score for player `own`, and that score is positive.
pub open spec fn is_scored_move(s: Scores, own: usize, m: Map<u64, Tile>, mv: ScoredMove) -> bool {
    &&& reachable(m, mv.origin).contains(key_of(mv.target))
    &&& mv.score == move_score(s, own, m, mv.origin, mv.target)
    &&& mv.score > 0
}

/// The army at `o` can reach some tile whose score for `own` is positive.
pub open spec fn has_scoring_target(s: Scores, own: usize, m: Map<u64, Tile>, o: Cube<i32>) -> bool {
    exists|t: Cube<i32>| #[trigger] reachable(m, o).contains(key_of(t)) && move_score(s, own, m, o, t) > 0
}

/// `list` holds, for each army at a key of `origins` that has a scoring
/// target, exactly one scored order of that army, and nothing else.
pub open spec fn target_list_ok(s: Scores, own: usize, m: Map<u64, Tile>, origins: Set<u64>, list: Seq<ScoredMove>) -> bool {
    &&& forall|i: int| 0 <= i < list.len() ==> origins.contains(key_of(#[trigger] list[i].origin))
        && is_scored_move(s, own, m, list[i])
    &&& forall|i: int, j: int| 0 <= i < j < list.len() ==> #[trigger] list[i].origin != #[trigger] list[j].origin
    &&& forall|o: Cube<i32>| #[trigger] origins.contains(key_of(o)) && has_scoring_target(s, own, m, o)
        ==> exists|i: int| 0 <= i < list.len() && list[i].origin == o
}

/// The scores never increase along the list.
pub open spec fn sorted_by_score(l: Seq<ScoredMove>) -> bool {
    forall|i: int, j: int| 0 <= i < j < l.len() ==> #[trigger] l[i].score >= #[trigger] l[j].score
}

/// `r` is `v` reordered, `r[q]` being `v[perm[q]]`, with moves of equal
/// score kept in their order in `v`.
pub open spec fn stable_permutation(r: Seq<ScoredMove>, v: Seq<ScoredMove>, perm: Seq<int>) -> bool {
    &&& perm.len() == r.len()
    &&& r.len() == v.len()
    &&& forall|q: int| 0 <= q < r.len() ==> 0 <= #[trigger] perm[q] < v.len() && r[q] == v[perm[q]]
    &&& forall|q1: int, q2: int| 0 <= q1 < q2 < r.len() ==> #[trigger] perm[q1] != #[trigger] perm[q2]
    &&& forall|i: int| 0 <= i < v.len() ==> #[trigger] perm.contains(i)
    &&& forall|q1: int, q2: int| 0 <= q1 < q2 < r.len() && r[q1].score == r[q2].score
        ==> #[trigger] perm[q1] < #[trigger] perm[q2]
}

/// The moves sorted by score, highest first, moves of equal score keeping
/// their order.
pub fn sort_by_score(v: &Vec<ScoredMove>) -> (r: Vec<ScoredMove>)
    ensures
        sorted_by_score(r@),
        exists|perm: Seq<int>| stable_permutation(r@, v@, perm),
{
    let mut r: Vec<ScoredMove> = Vec::new();
    let ghost mut perm: Seq<int> = Seq::empty();
    let mut i: usize = 0;
    while i < v.len()
        invariant
            0 <= i <= v.len(),
            r.len() == i,
            sorted_by_score(r@),
            perm.len() == i,
            forall|q: int| 0 <= q < i ==> 0 <= #[trigger] perm[q] < i && r@[q] == v@[perm[q]],
            forall|q1: int, q2: int| 0 <= q1 < q2 < i ==> #[trigger] perm[q1] != #[trigger] perm[q2],
            forall|j: int| 0 <= j < i ==> #[trigger] perm.contains(j),
            forall|q1: int, q2: int| 0 <= q1 < q2 < i && r@[q1].score == r@[q2].score
                ==> #[trigger] perm[q1] < #[trigger] perm[q2],
        decreases v.len() - i,
    {
        let x = v[i];
        let mut p: usize = 0;
        while p < r.len() && r[p].score >= x.score
            invariant
                0 <= p <= r.len(),
                forall|q: int| 0 <= q < p ==> #[trigger] r@[q].score >= x.score,
            decreases r.len() - p,
        {
            p = p + 1;
        }
        let ghost old_r = r@;
        let ghost old_perm = perm;
        assert(forall|q: int| p <= q < old_r.len() ==> #[trigger] old_r[q].score < x.score) by {
            assert forall|q: int| p <= q < old_r.len() implies #[trigger] old_r[q].score < x.score by {
                if q > p {
                    assert(old_r[p as int].score >= old_r[q].score);
                }
            }
        }
        r.insert(p, x);
        proof {
            perm = perm.insert(p as int, i as int);
            assert forall|q: int| 0 <= q < i + 1 implies 0 <= #[trigger] perm[q] < i + 1 && r@[q] == v@[perm[q]] by {
                if q < p {
                    assert(perm[q] == old_perm[q]);
                } else if q > p {
                    assert(perm[q] == old_perm[q - 1]);
                }
            }
            assert forall|j: int| 0 <= j < i + 1 implies #[trigger] perm.contains(j) by {
                if j == i {
                    assert(perm[p as int] == j);
                } else {
                    assert(old_perm.contains(j));
                    let q0 = choose|q: int| 0 <= q < i && #[trigger] old_perm[q] == j;
                    if q0 < p {
                        assert(perm[q0] == j);
                    } else {
                        assert(perm[q0 + 1] == j);
                    }
                }
            }
        }
        i = i + 1;
    }
    assert(stable_permutation(r@, v@, perm));
    r
}

/// A stable reordering of a list of orders describes the same orders.
pub proof fn lemma_permuted_target_list(s: Scores, own: usize, m: Map<u64, Tile>, origins: Set<u64>,
    r: Seq<ScoredMove>, v: Seq<ScoredMove>, perm: Seq<int>)
    requires
        target_list_ok(s, own, m, origins, v),
        stable_permutation(r, v, perm),
    ensures
        target_list_ok(s, own, m, origins, r),
{
    assert forall|i: int| 0 <= i < r.len() implies origins.contains(key_of(#[trigger] r[i].origin))
        && is_scored_move(s, own, m, r[i]) by {
        assert(r[i] == v[perm[i]]);
    }
    assert forall|i: int, j: int| 0 <= i < j < r.len() implies #[trigger] r[i].origin != #[trigger] r[j].origin by {
        assert(perm[i] != perm[j]);
        if perm[i] < perm[j] {
            assert(v[perm[i]].origin != v[perm[j]].origin);
        } else {
            assert(v[perm[j]].origin != v[perm[i]].origin);
        }
    }
    assert forall|o: Cube<i32>| #[trigger] origins.contains(key_of(o)) && has_scoring_target(s, own, m, o)
        implies exists|i: int| 0 <= i < r.len() && r[i].origin == o by {
        let iv = choose|iv: int| 0 <= iv < v.len() && v[iv].origin == o;
        assert(perm.contains(iv));
        let q = choose|q: int| 0 <= q < r.len() && #[trigger] perm[q] == iv;
        assert(r[q].origin == o);
    }
}

impl AI {
    /// The keys of the tiles of `own_player_index` whose army may move and
    /// has something to capture within range.
    pub fn create_owned_armies_world_subset(&self, own_player_index: &usize, world: &World) -> (r: HashSet<u64>)
        requires
            world.wf(),
            world.within_bounds(),
            world.cubes_by_ownership@.contains_key(*own_player_index),
        ensures
            r@ == useful_army_keys(*world, *own_player_index),
    {
        let keys = world.player_keys(*own_player_index);
        let mut result: HashSet<u64> = HashSet::new();
        let mut i: usize = 0;
        while i < keys.len()
            invariant
                world.wf(),
                world.within_bounds(),
                keys@.to_set() == world.owned_keys(*own_player_index),
                0 <= i <= keys.len(),
                result@ == Set::new(|k: u64| keys@.take(i as int).contains(k)
                    && useful_army_keys(*world, *own_player_index).contains(k)),
            decreases keys.len() - i,
        {
            let k = keys[i];
            assert(keys@.to_set().contains(k));
            let cube = Cube::from_key(k);
            let tile = world.get(&cube).unwrap();
            let mut useful = false;
            if let Some(army) = &tile.army {
                if army.can_move && world.is_there_capturable_tile_within_range(&cube) {
                    useful = true;
                }
            }
            assert(useful == useful_army_keys(*world, *own_player_index).contains(k)) by {
                if useful_army_keys(*world, *own_player_index).contains(k) {
                    let c = choose|c: Cube<i32>| key_of(c) == k && #[trigger] capturable_within_range(world.world@, c);
                    crate::cubic::lemma_key_injective(c, cube);
                }
            }
            if useful {
                result.insert(k);
            }
            assert(result@ =~= Set::new(|k2: u64| keys@.take(i + 1).contains(k2)
                && useful_army_keys(*world, *own_player_index).contains(k2))) by {
                assert forall|k2: u64| keys@.take(i + 1).contains(k2) <==> (keys@.take(i as int).contains(k2) || k2 == k) by {
                    if keys@.take(i + 1).contains(k2) {
                        let j = choose|j: int| 0 <= j < i + 1 && #[trigger] keys@.take(i + 1)[j] == k2;
                        if j < i {
                            assert(keys@.take(i as int)[j] == k2);
                        }
                    }
                    if keys@.take(i as int).contains(k2) {
                        let j = choose|j: int| 0 <= j < i && #[trigger] keys@.take(i as int)[j] == k2;
                        assert(keys@.take(i + 1)[j] == k2);
                    }
                    if k2 == k {
                        assert(keys@.take(i + 1)[i as int] == k2);
                    }
                }
            }
            i = i + 1;
        }
        assert(keys@.take(keys.len() as int) =~= keys@);
        assert(result@ =~= useful_army_keys(*world, *own_player_index)) by {
            assert forall|k: u64| #[trigger] useful_army_keys(*world, *own_player_index).contains(k) implies keys@.contains(k) by {
                assert(keys@.to_set().contains(k));
            }
        }
        result
    }

    /// A scored order for the army at `origin`, if any target within its
    /// reach scores above zero for `own_player_index`.
    pub fn explore_targets(&self, own_player_index: &usize, world: &World, origin: &Cube<i32>) -> (r: Option<ScoredMove>)
        requires
            scores_ok(self.scores),
            world.wf(),
            world.within_bounds(),
            world.has(*origin),
            world.at(*origin).army is Some,
        ensures
            r is None <==> !has_scoring_target(self.scores, *own_player_index, world.world@, *origin),
            r matches Some(mv) ==> mv.origin == *origin && is_scored_move(self.scores, *own_player_index, world.world@, mv),
    {
        let ghost m = world.world@;
        let ghost s = self.scores;
        let valid_targets = world.get_reachable_cubes(origin);
        proof {
            lemma_visited_in_world(m, *origin, MAX_TRAVEL_DISTANCE as nat);
        }
        let ghost all = valid_targets.iter().remaining();
        let ghost mut seen: Seq<Cube<i32>> = Seq::empty();
        let mut result: Option<ScoredMove> = None;
        for target in it: valid_targets.iter()
            invariant
                m == world.world@,
                s == self.scores,
                scores_ok(s),
                world.wf(),
                world.within_bounds(),
                world.has(*origin),
                world.at(*origin).army is Some,
                all == it.seq(),
                all.unref().to_set() == reachable(m, *origin),
                forall|k: u64| #[trigger] reachable(m, *origin).contains(k) ==> m.contains_key(k),
                seen.len() == it.index(),
                forall|j: int| 0 <= j < seen.len() ==> key_of(#[trigger] seen[j]) == all.unref()[j],
                result is None ==> forall|j: int| 0 <= j < seen.len() ==> move_score(s, *own_player_index, m, *origin, #[trigger] seen[j]) <= 0,
                result matches Some(mv) ==> mv.origin == *origin && is_scored_move(s, *own_player_index, m, mv),
        {
            let ghost i = it.index() as int;
            assert(all.unref()[i] == *target);
            assert(all.unref().to_set().contains(*target));
            let t = Cube::from_key(*target);
            assert(world.has(t));
            assert(reachable(m, *origin).contains(key_of(t)));
            assert(t != *origin);
            let score = self.calculate_score(own_player_index, world, origin, &t);
            if score > 0 {
                result = Some(ScoredMove { score, origin: *origin, target: t });
            }
            proof {
                seen = seen.push(t);
            }
        }
        assert(seen.len() == all.len());
        proof {
            if result is None && has_scoring_target(s, *own_player_index, m, *origin) {
                let t = choose|t: Cube<i32>| #[trigger] reachable(m, *origin).contains(key_of(t))
                    && move_score(s, *own_player_index, m, *origin, t) > 0;
                assert(all.unref().to_set().contains(key_of(t)));
                let j = choose|j: int| 0 <= j < all.len() && all.unref()[j] == key_of(t);
                crate::cubic::lemma_key_injective(seen[j], t);
            }
        }
        result
    }

    /// Scored orders for the armies of `own_player_index` that have
    /// something to capture within range: one for each that has a target
    /// scoring above zero (see `target_list_ok`).
    pub fn create_target_list(&self, own_player_index: &usize, world: &World) -> (r: Vec<ScoredMove>)
        requires
            scores_ok(self.scores),
            world.wf(),
            world.within_bounds(),
            world.cubes_by_ownership@.contains_key(*own_player_index),
        ensures
            target_list_ok(self.scores, *own_player_index, world.world@,
                useful_army_keys(*world, *own_player_index), r@),
    {
        let ghost m = world.world@;
        let ghost s = self.scores;
        let ghost own = *own_player_index;
        let subset = self.create_owned_armies_world_subset(own_player_index, world);
        let ghost origins = subset@;
        let ghost all = subset.iter().remaining();
        let mut target_list: Vec<ScoredMove> = Vec::new();
        for origin_key in it: subset.iter()
            invariant
                m == world.world@,
                s == self.scores,
                own == *own_player_index,
                scores_ok(s),
                world.wf(),
                world.within_bounds(),
                origins == useful_army_keys(*world, own),
                all == it.seq(),
                all.no_duplicates(),
                all.unref().to_set() == origins,
                forall|i: int| 0 <= i < target_list.len() ==> all.unref().take(it.index() as int).contains(
                    key_of(#[trigger] target_list@[i].origin)) && origins.contains(key_of(target_list@[i].origin))
                    && is_scored_move(s, own, m, target_list@[i]),
                forall|i: int, j: int| 0 <= i < j < target_list.len() ==> #[trigger] target_list@[i].origin != #[trigger] target_list@[j].origin,
                forall|o: Cube<i32>| #[trigger] all.unref().take(it.index() as int).contains(key_of(o)) && has_scoring_target(s, own, m, o)
                    ==> exists|i: int| 0 <= i < target_list.len() && target_list@[i].origin == o,
        {
            let ghost idx = it.index() as int;
            let ghost before = target_list@;
            assert(all.unref()[idx] == *origin_key);
            assert(all.unref().to_set().contains(*origin_key));
            let origin = Cube::from_key(*origin_key);
            assert(world.has(origin));
            let explored = self.explore_targets(own_player_index, world, &origin);
            if let Some(mv) = explored {
                target_list.push(mv);
            }
            assert forall|k: u64| all.unref().take(idx + 1).contains(k) <==> (all.unref().take(idx).contains(k) || k == *origin_key) by {
                if all.unref().take(idx + 1).contains(k) {
                    let j = choose|j: int| 0 <= j < idx + 1 && #[trigger] all.unref().take(idx + 1)[j] == k;
                    if j < idx {
                        assert(all.unref().take(idx)[j] == k);
                    }
                }
                if all.unref().take(idx).contains(k) {
                    let j = choose|j: int| 0 <= j < idx && #[trigger] all.unref().take(idx)[j] == k;
                    assert(all.unref().take(idx + 1)[j] == k);
                }
                if k == *origin_key {
                    assert(all.unref().take(idx + 1)[idx] == k);
                }
            }
            assert(!all.unref().take(idx).contains(*origin_key)) by {
                if all.unref().take(idx).contains(*origin_key) {
                    let j = choose|j: int| 0 <= j < idx && #[trigger] all.unref().take(idx)[j] == *origin_key;
                    assert(all[j] == all[idx]);
                }
            }
            assert forall|i: int, j: int| 0 <= i < j < target_list.len() implies #[trigger] target_list@[i].origin != #[trigger] target_list@[j].origin by {
                if j == before.len() {
                    assert(all.unref().take(idx).contains(key_of(before[i].origin)));
                }
            }
            assert forall|o: Cube<i32>| #[trigger] all.unref().take(idx + 1).contains(key_of(o)) && has_scoring_target(s, own, m, o)
                implies exists|i: int| 0 <= i < target_list.len() && target_list@[i].origin == o by {
                if all.unref().take(idx).contains(key_of(o)) {
                    let i0 = choose|i0: int| 0 <= i0 < before.len() && before[i0].origin == o;
                    assert(target_list@[i0].origin == o);
                } else {
                    crate::cubic::lemma_key_injective(o, origin);
                    assert(target_list@[before.len() as int].origin == o);
                }
            }
        }
        assert(all.unref().take(all.len() as int) =~= all.unref());
        assert forall|o: Cube<i32>| #[trigger] origins.contains(key_of(o)) implies all.unref().take(all.len() as int).contains(key_of(o)) by {
            assert(all.unref().to_set().contains(key_of(o)));
        }
        target_list
    }

    /// The scored orders of `create_target_list`, highest score first
    /// (orders of equal score in their order there): a sorted, stable
    /// rearrangement of such a list.
    pub fn generate_targets(&self, own_player_index: &usize, world: &World) -> (r: Vec<ScoredMove>)
        requires
            scores_ok(self.scores),
            world.wf(),
            world.within_bounds(),
            world.cubes_by_ownership@.contains_key(*own_player_index),
        ensures
            target_list_ok(self.scores, *own_player_index, world.world@,
                useful_army_keys(*world, *own_player_index), r@),
            sorted_by_score(r@),
            exists|l: Seq<ScoredMove>, perm: Seq<int>| target_list_ok(self.scores, *own_player_index, world.world@,
                useful_army_keys(*world, *own_player_index), l) && #[trigger] stable_permutation(r@, l, perm),
    {
        let target_list = self.create_target_list(own_player_index, world);
        let sorted = sort_by_score(&target_list);
        proof {
            let perm = choose|perm: Seq<int>| stable_permutation(sorted@, target_list@, perm);
            assert(stable_permutation(sorted@, target_list@, perm));
            lemma_permuted_target_list(self.scores, *own_player_index, world.world@,
                useful_army_keys(*world, *own_player_index), sorted@, target_list@, perm);
        }
        sorted
    }
}

} // verus!
