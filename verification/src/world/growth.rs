//! Army growth at the start of a player's turn: each locality trains men,
//! then a bonus of one man per owned tile is spread over the armies in
//! localities, two men at a time.

use vstd::prelude::*;
use std::collections::HashSet;
use super::{World, Tile, Army, LocalityCategory, tile_ok, owned_in, armies_owned, MAX_STACK_SIZE, MAX_TILES,
    BASE_GROWTH_CITY, BASE_GROWTH_CAPITAL, BASE_GROWTH_SATELLITE_CAPITAL, BONUS_GROWTH_PER_TILE};
use super::army::spec_half_round;

verus! {

broadcast use vstd::std_specs::hash::group_hash_axioms;

/// Men added to a bonus-growing army at each step; two, so that its
/// morale grows by a whole point.
pub const BONUS_GROWTH_STEP: i32 = 2;

/// Men the locality on the tile trains each turn.
pub open spec fn locality_growth(t: Tile) -> int {
    match t.locality {
        Some(l) => match l.category {
            LocalityCategory::City => BASE_GROWTH_CITY as int,
            LocalityCategory::Capital => BASE_GROWTH_CAPITAL as int,
            LocalityCategory::SatelliteCapital => BASE_GROWTH_SATELLITE_CAPITAL as int,
            LocalityCategory::PortCity => 0,
            LocalityCategory::Airport => 0,
        },
        None => 0,
    }
}

/// The army after growing by `g` men: manpower by `g`, morale by half of
/// it, both capped at `MAX_STACK_SIZE`.
pub open spec fn grown(a: Army, g: int) -> Army {
    Army {
        manpower: if a.manpower + g <= MAX_STACK_SIZE { (a.manpower + g) as i32 } else { MAX_STACK_SIZE },
        morale: if a.morale + spec_half_round(g) <= MAX_STACK_SIZE {
            (a.morale + spec_half_round(g)) as i32
        } else {
            MAX_STACK_SIZE
        },
        ..a
    }
}

/// The tile after its locality trained men: its army grows, or a new army
/// of the tile's owner is raised.
pub open spec fn base_grown(t: Tile) -> Tile {
    let g = locality_growth(t);
    if g > 0 {
        Tile {
            army: Some(
                match t.army {
                    Some(a) => grown(a, g),
                    None => Army {
                        manpower: g as i32,
                        morale: spec_half_round(g) as i32,
                        owner_index: t.owner_index,
                        can_move: true,
                    },
                },
            ),
            ..t
        }
    } else {
        t
    }
}

/// The world after the localities of `player` trained men.
pub open spec fn after_base_growth(m: Map<u64, Tile>, player: usize) -> Map<u64, Tile> {
    m.map_values(|t: Tile| if t.owner_index == Some(player) { base_grown(t) } else { t })
}

/// The tile after its locality trained men.
pub fn grow_base(t: Tile) -> (r: Tile)
    requires
        tile_ok(t),
    ensures
        r == base_grown(t),
        tile_ok(r),
{
    let growth: i32 = match &t.locality {
        Some(locality) => match locality.category {
            LocalityCategory::City => BASE_GROWTH_CITY,
            LocalityCategory::PortCity => 0,
            LocalityCategory::Airport => 0,
            LocalityCategory::Capital => BASE_GROWTH_CAPITAL,
            LocalityCategory::SatelliteCapital => BASE_GROWTH_SATELLITE_CAPITAL,
        },
        None => 0,
    };
    if growth > 0 {
        let Tile { owner_index, category, locality, army } = t;
        let army = match army {
            Some(mut a) => {
                a.grow(growth);
                a
            },
            None => Army::new(growth, owner_index),
        };
        Tile { owner_index, category, locality, army: Some(army) }
    } else {
        t
    }
}

/// One step of the bonus growth at the tile `k`, on the world, the men of
/// bonus left and the tiles found unable to grow: an army in a locality
/// below the stack limit grows by `BONUS_GROWTH_STEP` men and the men it
/// took are spent; any other tile is marked as unable to grow.
pub open spec fn bonus_step(st: (Map<u64, Tile>, int, Set<u64>), k: u64) -> (Map<u64, Tile>, int, Set<u64>) {
    let t = st.0[k];
    if t.locality is Some && t.army is Some && t.army->0.manpower < MAX_STACK_SIZE {
        let a = t.army->0;
        let taken = if a.manpower + BONUS_GROWTH_STEP <= MAX_STACK_SIZE {
            BONUS_GROWTH_STEP as int
        } else {
            MAX_STACK_SIZE - a.manpower
        };
        (st.0.insert(k, Tile { army: Some(grown(a, BONUS_GROWTH_STEP as int)), ..t }), st.1 - taken, st.2)
    } else {
        (st.0, st.1, st.2.insert(k))
    }
}

/// The bonus growth state after `pass` full rounds over `order` and the
/// first `pos` tiles of the next one.
pub open spec fn bonus_after(st0: (Map<u64, Tile>, int, Set<u64>), order: Seq<u64>, pass: nat, pos: nat) -> (Map<u64, Tile>, int, Set<u64>)
    decreases pass, pos,
{
    if pos == 0 {
        if pass == 0 {
            st0
        } else {
            bonus_after(st0, order, (pass - 1) as nat, order.len())
        }
    } else {
        bonus_step(bonus_after(st0, order, pass, (pos - 1) as nat), order[pos - 1])
    }
}

/// The bonus growth stops once every tile of `owned` is unable to grow or
/// the bonus is spent.
pub open spec fn bonus_stopped(st: (Map<u64, Tile>, int, Set<u64>), owned: Set<u64>) -> bool {
    owned.subset_of(st.2) || st.1 <= 0
}

/// The growth of `player`'s armies starts from the world after base growth,
/// with one man of bonus per owned tile and no tile marked yet.
pub open spec fn bonus_start(m: Map<u64, Tile>, player: usize) -> (Map<u64, Tile>, int, Set<u64>) {
    (after_base_growth(m, player), owned_in(m, player).len() * BONUS_GROWTH_PER_TILE, Set::empty())
}

/// The bonus growth visiting the tiles of `player` round and round in
/// `order` stops for the first time after `pass` rounds and `pos` tiles.
pub open spec fn bonus_stops_at(m: Map<u64, Tile>, player: usize, order: Seq<u64>, pass: nat, pos: nat) -> bool {
    let st0 = bonus_start(m, player);
    let owned = owned_in(m, player);
    &&& order.to_set() == owned
    &&& order.no_duplicates()
    &&& pos <= order.len()
    &&& bonus_stopped(bonus_after(st0, order, pass, pos), owned)
    &&& bonus_runs_until(st0, order, owned, pass, pos)
}

/// The bonus growth has not stopped at any point before `pass` rounds and
/// `pos` tiles.
pub open spec fn bonus_runs_until(st0: (Map<u64, Tile>, int, Set<u64>), order: Seq<u64>, owned: Set<u64>, pass: nat, pos: nat) -> bool {
    forall|p: nat, q: nat| q <= order.len() && (p < pass || (p == pass && q < pos))
        ==> !bonus_stopped(#[trigger] bonus_after(st0, order, p, q), owned)
}

/// A part of a finite set is all of it exactly when it is as large.
proof fn lemma_part_full(part: Set<u64>, whole: Set<u64>)
    requires
        part.subset_of(whole),
        whole.finite(),
    ensures
        part.finite(),
        part.len() <= whole.len(),
        (part.len() == whole.len()) <==> whole.subset_of(part),
{
    vstd::set_lib::lemma_len_subset(part, whole);
    if part.len() == whole.len() {
        vstd::set_lib::lemma_subset_equality(part, whole);
    }
    if whole.subset_of(part) {
        assert(part =~= whole);
    }
}

/// `r` is a world that training the armies of `player` in `m` can give:
/// the bonus growth over some order of its tiles, stopped where it first stops.
pub open spec fn trained(m: Map<u64, Tile>, player: usize, r: Map<u64, Tile>) -> bool {
    exists|order: Seq<u64>, pass: nat, pos: nat|
        #[trigger] bonus_stops_at(m, player, order, pass, pos)
        && r == bonus_after(bonus_start(m, player), order, pass, pos).0
}

/// The bonus growth keeps every army with its owner, and the tiles as they are.
pub proof fn lemma_bonus_after_owned(st0: (Map<u64, Tile>, int, Set<u64>), order: Seq<u64>, pass: nat, pos: nat)
    requires
        armies_owned(st0.0),
        forall|i: int| 0 <= i < order.len() ==> st0.0.contains_key(#[trigger] order[i]),
        pos <= order.len(),
    ensures
        armies_owned(bonus_after(st0, order, pass, pos).0),
        bonus_after(st0, order, pass, pos).0.dom() == st0.0.dom(),
    decreases pass, pos,
{
    if pos == 0 {
        if pass > 0 {
            lemma_bonus_after_owned(st0, order, (pass - 1) as nat, order.len());
        }
    } else {
        lemma_bonus_after_owned(st0, order, pass, (pos - 1) as nat);
        let st = bonus_after(st0, order, pass, (pos - 1) as nat);
        let k = order[pos - 1];
        let r = bonus_step(st, k).0;
        assert(st.0.contains_key(k));
        assert(r.dom() =~= st0.0.dom());
        assert forall|k2: u64| #[trigger] r.contains_key(k2) && r[k2].army is Some implies r[k2].army->0.owner_index is Some by {
            assert(st.0.contains_key(k2));
        }
    }
}

/// Training keeps every army with its owner, and the tiles as they are.
pub proof fn lemma_trained_owned(m: Map<u64, Tile>, player: usize, r: Map<u64, Tile>)
    requires
        armies_owned(m),
        trained(m, player, r),
    ensures
        armies_owned(r),
        r.dom() == m.dom(),
{
    let (order, pass, pos) = choose|order: Seq<u64>, pass: nat, pos: nat|
        #[trigger] bonus_stops_at(m, player, order, pass, pos)
        && r == bonus_after(bonus_start(m, player), order, pass, pos).0;
    let st0 = bonus_start(m, player);
    assert forall|k: u64| #[trigger] st0.0.contains_key(k) && st0.0[k].army is Some implies st0.0[k].army->0.owner_index is Some by {
        assert(m.contains_key(k));
    }
    assert forall|i: int| 0 <= i < order.len() implies st0.0.contains_key(#[trigger] order[i]) by {
        assert(order.to_set().contains(order[i]));
    }
    lemma_bonus_after_owned(st0, order, pass, pos);
}

/// Same tiles, owners and localities.
pub open spec fn same_layout(a: Map<u64, Tile>, b: Map<u64, Tile>) -> bool {
    &&& a.dom() == b.dom()
    &&& forall|k: u64| #[trigger] a.contains_key(k) ==> a[k].owner_index == b[k].owner_index
        && a[k].locality == b[k].locality
}

/// A world whose tiles keep their owners and localities, with every army
/// within limits, still agrees with its unchanged indexes.
pub proof fn lemma_wf_same_layout(w1: World, w2: World)
    requires
        w1.wf(),
        w2.cubes_by_ownership == w1.cubes_by_ownership,
        w2.cubes_with_airport == w1.cubes_with_airport,
        same_layout(w1.world@, w2.world@),
        forall|k: u64| #[trigger] w2.world@.contains_key(k) ==> tile_ok(w2.world@[k]),
    ensures
        w2.wf(),
{
    assert forall|i: usize| #[trigger] w2.cubes_by_ownership@.contains_key(i) implies w2.cubes_by_ownership@[i]@
        == w2.owned_keys(i) by {
        assert(w1.owned_keys(i) =~= w2.owned_keys(i));
    }
    assert(w1.airport_keys() =~= w2.airport_keys());
    assert forall|k: u64| #[trigger] w2.world@.contains_key(k) && w2.world@[k].owner_index is Some
        implies w2.cubes_by_ownership@.contains_key(w2.world@[k].owner_index->0) by {
        assert(w1.world@.contains_key(k));
    }
}

impl World {
    /// Trains the armies of `player_index` at the start of its turn: every
    /// locality it owns trains men (`after_base_growth`), then one man per
    /// owned tile is handed out, `BONUS_GROWTH_STEP` at a time, to the armies
    /// in its localities, going round its tiles in the order of its index
    /// until the bonus is spent or no tile can take more (`bonus_stops_at`).
    pub fn train_armies(&mut self, player_index: &usize)
        requires
            old(self).wf(),
        ensures
            final(self).wf(),
            trained(old(self).world@, *player_index, final(self).world@),
    {
        let player = *player_index;
        let ghost m0 = self.world@;
        let ghost w0 = *self;
        let ghost owned = owned_in(m0, player);
        let order = self.player_keys(player);
        let n = order.len();
        proof {
            assert(order@.to_set() =~= owned);
            order@.unique_seq_to_set();
            vstd::set_lib::lemma_len_subset(owned, m0.dom());
        }
        let mut i: usize = 0;
        while i < n
            invariant
                w0.wf(),
                m0 == w0.world@,
                owned == owned_in(m0, player),
                order@.to_set() == owned,
                order@.no_duplicates(),
                n == order@.len(),
                0 <= i <= n,
                self.cubes_by_ownership == w0.cubes_by_ownership,
                self.cubes_with_airport == w0.cubes_with_airport,
                self.world@.dom() == m0.dom(),
                forall|j: int| 0 <= j < i ==> #[trigger] self.world@[order@[j]] == base_grown(m0[order@[j]]),
                forall|k: u64| #[trigger] self.world@.contains_key(k) && !order@.take(i as int).contains(k)
                    ==> self.world@[k] == m0[k],
            decreases n - i,
        {
            let k = order[i];
            assert(order@.to_set().contains(k));
            assert(!order@.take(i as int).contains(k)) by {
                if order@.take(i as int).contains(k) {
                    let j = choose|j: int| 0 <= j < i && order@.take(i as int)[j] == k;
                    assert(order@[j] == order@[i as int]);
                }
            }
            let t = self.world.remove(&k).unwrap();
            let t = grow_base(t);
            self.world.insert(k, t);
            assert(self.world@.dom() =~= m0.dom());
            assert forall|k2: u64| #[trigger] self.world@.contains_key(k2) && !order@.take(i + 1).contains(k2)
                implies self.world@[k2] == m0[k2] by {
                assert(k2 != k) by {
                    assert(order@.take(i + 1)[i as int] == k);
                }
                assert(!order@.take(i as int).contains(k2)) by {
                    if order@.take(i as int).contains(k2) {
                        let j = choose|j: int| 0 <= j < i && order@.take(i as int)[j] == k2;
                        assert(order@.take(i + 1)[j] == k2);
                    }
                }
            }
            assert forall|j: int| 0 <= j < i + 1 implies #[trigger] self.world@[order@[j]] == base_grown(m0[order@[j]]) by {
                if j < i {
                    assert(order@[j] != k);
                }
            }
            i = i + 1;
        }
        assert(self.world@ =~= after_base_growth(m0, player)) by {
            assert(order@.take(n as int) =~= order@);
            assert forall|k: u64| #[trigger] self.world@.contains_key(k) implies self.world@[k]
                == (if m0[k].owner_index == Some(player) { base_grown(m0[k]) } else { m0[k] }) by {
                if owned.contains(k) {
                    assert(order@.to_set().contains(k));
                    let j = choose|j: int| 0 <= j < order@.len() && order@[j] == k;
                }
            }
        }
        let ghost st0 = bonus_start(m0, player);
        let mut budget: i32 = n as i32 * BONUS_GROWTH_PER_TILE;
        let mut maxed: HashSet<u64> = HashSet::new();
        proof {
            lemma_part_full(maxed@, owned);
            assert(bonus_after(st0, order@, 0, 0) == st0);
        }
        let mut done: bool = maxed.len() == n || budget <= 0;
        let ghost mut pass: nat = 0;
        let ghost mut stop_pos: nat = 0;
        while !done
            invariant
                w0.wf(),
                m0 == w0.world@,
                owned == owned_in(m0, player),
                st0 == bonus_start(m0, player),
                order@.to_set() == owned,
                order@.no_duplicates(),
                n == order@.len(),
                owned.finite(),
                owned.len() == n,
                n <= MAX_TILES,
                self.cubes_by_ownership == w0.cubes_by_ownership,
                self.cubes_with_airport == w0.cubes_with_airport,
                same_layout(m0, self.world@),
                forall|k: u64| #[trigger] self.world@.contains_key(k) ==> tile_ok(self.world@[k]),
                maxed@.subset_of(owned),
                -1 <= budget <= n,
                !done ==> (self.world@, budget as int, maxed@) == bonus_after(st0, order@, pass, 0)
                    && !bonus_stopped((self.world@, budget as int, maxed@), owned)
                    && bonus_runs_until(st0, order@, owned, pass, 0),
                done ==> (self.world@, budget as int, maxed@) == bonus_after(st0, order@, pass, stop_pos)
                    && stop_pos <= n
                    && bonus_stopped((self.world@, budget as int, maxed@), owned)
                    && bonus_runs_until(st0, order@, owned, pass, stop_pos),
            decreases (if done { 0int } else { budget + n - maxed@.len() + 1 }),
        {
            let ghost start = budget + n - maxed@.len();
            proof {
                lemma_part_full(maxed@, owned);
                let k = choose|k: u64| owned.contains(k) && !maxed@.contains(k);
                assert(order@.to_set().contains(k));
                let idx = choose|idx: int| 0 <= idx < order@.len() && order@[idx] == k;
                assert(0 <= idx < n && !maxed@.contains(order@[idx]));
            }
            let ghost j: int = choose|j: int| 0 <= j < n && !maxed@.contains(order@[j]);
            let mut pos: usize = 0;
            proof {
                lemma_part_full(maxed@, owned);
            }
            while pos < n && !(maxed.len() == n || budget <= 0)
                invariant
                    w0.wf(),
                    m0 == w0.world@,
                    owned == owned_in(m0, player),
                    st0 == bonus_start(m0, player),
                    order@.to_set() == owned,
                    order@.no_duplicates(),
                    n == order@.len(),
                    owned.finite(),
                    owned.len() == n,
                    n <= MAX_TILES,
                    self.cubes_by_ownership == w0.cubes_by_ownership,
                    self.cubes_with_airport == w0.cubes_with_airport,
                    same_layout(m0, self.world@),
                    forall|k: u64| #[trigger] self.world@.contains_key(k) ==> tile_ok(self.world@[k]),
                    maxed@.subset_of(owned),
                    -1 <= budget <= n,
                    0 <= pos <= n,
                    0 <= j < n,
                    (self.world@, budget as int, maxed@) == bonus_after(st0, order@, pass, pos as nat),
                    bonus_runs_until(st0, order@, owned, pass, pos as nat),
                    budget + n - maxed@.len() <= start,
                    pos > j ==> budget + n - maxed@.len() < start,
                    pos <= j ==> !maxed@.contains(order@[j]),
                decreases n - pos,
            {
                proof {
                    lemma_part_full(maxed@, owned);
                }
                let ghost before = (self.world@, budget as int, maxed@);
                let k = order[pos];
                assert(order@.to_set().contains(k));
                let t = self.world.remove(&k).unwrap();
                let can_grow = t.locality.is_some() && match &t.army {
                    Some(a) => a.manpower < MAX_STACK_SIZE,
                    None => false,
                };
                if can_grow {
                    let Tile { owner_index, category, locality, army } = t;
                    let mut a = army.unwrap();
                    let overflow = a.grow(BONUS_GROWTH_STEP);
                    budget = budget - (BONUS_GROWTH_STEP - overflow);
                    self.world.insert(k, Tile { owner_index, category, locality, army: Some(a) });
                } else {
                    self.world.insert(k, t);
                    maxed.insert(k);
                }
                proof {
                    assert(self.world@.dom() =~= m0.dom());
                    assert((self.world@, budget as int, maxed@) == bonus_step(before, k));
                    assert(bonus_after(st0, order@, pass, (pos + 1) as nat) == bonus_step(bonus_after(st0, order@, pass, pos as nat), order@[pos as int]));
                    lemma_part_full(maxed@, owned);
                    if pos < j {
                        assert(order@[pos as int] != order@[j]);
                    }
                    assert forall|p: nat, q: nat| q <= order@.len() && (p < pass || (p == pass && q < pos + 1))
                        implies !bonus_stopped(#[trigger] bonus_after(st0, order@, p, q), owned) by {
                        if !(p < pass || (p == pass && q < pos)) {
                            assert(p == pass && q == pos);
                        }
                    }
                }
                pos = pos + 1;
            }
            proof {
                lemma_part_full(maxed@, owned);
            }
            if maxed.len() == n || budget <= 0 {
                done = true;
                proof {
                    stop_pos = pos as nat;
                }
            } else {
                assert(budget + n - maxed@.len() < start);
                proof {
                    assert(bonus_after(st0, order@, pass + 1, 0) == bonus_after(st0, order@, pass, n as nat));
                    assert forall|p: nat, q: nat| q <= order@.len() && (p < pass + 1 || (p == pass + 1 && q < 0))
                        implies !bonus_stopped(#[trigger] bonus_after(st0, order@, p, q), owned) by {
                        if !(p < pass || (p == pass && q < n)) {
                            assert(p == pass && q == n);
                        }
                    }
                    pass = pass + 1;
                }
            }
        }
        proof {
            lemma_wf_same_layout(w0, *self);
            assert(bonus_stops_at(m0, player, order@, pass, stop_pos));
            assert(trained(m0, player, self.world@));
        }
    }
}


/// `r` keeps every tile of `m`, its owner, terrain and locality; tiles not
/// held by `player` are untouched; every army keeps its owner and at least
/// its men; and no army in `r` holds more than `MAX_STACK_SIZE` men.
pub open spec fn growth_kept(m: Map<u64, Tile>, r: Map<u64, Tile>, player: usize) -> bool {
    &&& r.dom() == m.dom()
    &&& forall|k: u64| #[trigger] m.contains_key(k) ==> {
        &&& r[k].owner_index == m[k].owner_index
        &&& r[k].category == m[k].category
        &&& r[k].locality == m[k].locality
        &&& (m[k].owner_index != Some(player) ==> r[k] == m[k])
        &&& (m[k].army matches Some(a) ==> (r[k].army matches Some(b) && b.manpower >= a.manpower
            && b.owner_index == a.owner_index))
        &&& (r[k].army matches Some(b) ==> b.manpower <= MAX_STACK_SIZE)
    }
}

/// No army of `m` holds more than `MAX_STACK_SIZE` men.
pub open spec fn stacks_within_limit(m: Map<u64, Tile>) -> bool {
    forall|k: u64| #[trigger] m.contains_key(k) && m[k].army is Some ==> m[k].army->0.manpower <= MAX_STACK_SIZE
}

proof fn lemma_base_growth_kept(m: Map<u64, Tile>, player: usize)
    requires
        stacks_within_limit(m),
    ensures
        growth_kept(m, after_base_growth(m, player), player),
{
    let r = after_base_growth(m, player);
    assert(r.dom() =~= m.dom());
    assert forall|k: u64| #[trigger] m.contains_key(k) implies {
        &&& r[k].owner_index == m[k].owner_index
        &&& r[k].category == m[k].category
        &&& r[k].locality == m[k].locality
        &&& (m[k].owner_index != Some(player) ==> r[k] == m[k])
        &&& (m[k].army matches Some(a) ==> (r[k].army matches Some(b) && b.manpower >= a.manpower
            && b.owner_index == a.owner_index))
        &&& (r[k].army matches Some(b) ==> b.manpower <= MAX_STACK_SIZE)
    } by {
        assert(m[k].army is Some ==> m[k].army->0.manpower <= MAX_STACK_SIZE);
    }
}

proof fn lemma_bonus_after_kept(m: Map<u64, Tile>, player: usize, st0: (Map<u64, Tile>, int, Set<u64>),
    order: Seq<u64>, pass: nat, pos: nat)
    requires
        growth_kept(m, st0.0, player),
        forall|i: int| 0 <= i < order.len() ==> owned_in(m, player).contains(#[trigger] order[i]),
        pos <= order.len(),
    ensures
        growth_kept(m, bonus_after(st0, order, pass, pos).0, player),
    decreases pass, pos,
{
    if pos == 0 {
        if pass > 0 {
            lemma_bonus_after_kept(m, player, st0, order, (pass - 1) as nat, order.len());
        }
    } else {
        lemma_bonus_after_kept(m, player, st0, order, pass, (pos - 1) as nat);
        let st = bonus_after(st0, order, pass, (pos - 1) as nat);
        let k = order[pos - 1];
        assert(owned_in(m, player).contains(k));
        let r = bonus_step(st, k).0;
        assert(r.dom() =~= m.dom());
        assert forall|x: u64| #[trigger] m.contains_key(x) implies {
            &&& r[x].owner_index == m[x].owner_index
            &&& r[x].category == m[x].category
            &&& r[x].locality == m[x].locality
            &&& (m[x].owner_index != Some(player) ==> r[x] == m[x])
            &&& (m[x].army matches Some(a) ==> (r[x].army matches Some(b) && b.manpower >= a.manpower
                && b.owner_index == a.owner_index))
            &&& (r[x].army matches Some(b) ==> b.manpower <= MAX_STACK_SIZE)
        } by {
            assert(st.0.contains_key(x));
        }
    }
}

/// Training the armies of `player` keeps every tile, its owner, terrain
/// and locality, leaves the tiles of other players untouched, never takes
/// men from an army or hands it to another owner, and fills no army past
/// `MAX_STACK_SIZE` men.
pub proof fn law_training_bounds(m: Map<u64, Tile>, player: usize, r: Map<u64, Tile>)
    requires
        stacks_within_limit(m),
        trained(m, player, r),
    ensures
        growth_kept(m, r, player),
{
    let (order, pass, pos) = choose|order: Seq<u64>, pass: nat, pos: nat|
        #[trigger] bonus_stops_at(m, player, order, pass, pos)
        && r == bonus_after(bonus_start(m, player), order, pass, pos).0;
    lemma_base_growth_kept(m, player);
    assert forall|i: int| 0 <= i < order.len() implies owned_in(m, player).contains(#[trigger] order[i]) by {
        assert(order.to_set().contains(order[i]));
    }
    lemma_bonus_after_kept(m, player, bonus_start(m, player), order, pass, pos);
}


/// Base growth trains `BASE_GROWTH_CITY` men in a city,
/// `BASE_GROWTH_CAPITAL` in a capital and `BASE_GROWTH_SATELLITE_CAPITAL` in
/// a satellite capital, joining the army there or raising a new one of the
/// tile's owner; a port city, an airport or a tile without a locality
/// trains nobody and is left as it is.
pub proof fn law_base_growth_by_locality(t: Tile)
    ensures
        t.locality is None ==> base_grown(t) == t,
        t.locality matches Some(l) && (l.category == LocalityCategory::PortCity || l.category == LocalityCategory::Airport)
            ==> base_grown(t) == t,
        t.locality matches Some(l) && (l.category == LocalityCategory::City || l.category == LocalityCategory::Capital
            || l.category == LocalityCategory::SatelliteCapital) ==> ({
            let c = t.locality->0.category;
            let g: int = if c == LocalityCategory::City {
                BASE_GROWTH_CITY as int
            } else if c == LocalityCategory::Capital {
                BASE_GROWTH_CAPITAL as int
            } else {
                BASE_GROWTH_SATELLITE_CAPITAL as int
            };
            &&& base_grown(t).owner_index == t.owner_index
            &&& base_grown(t).category == t.category
            &&& base_grown(t).locality == t.locality
            &&& base_grown(t).army == Some(match t.army {
                Some(a) => grown(a, g),
                None => Army { manpower: g as i32, morale: spec_half_round(g) as i32, owner_index: t.owner_index, can_move: true },
            })
        }),
{
}

proof fn lemma_bonus_after_keeps_no_army(st0: (Map<u64, Tile>, int, Set<u64>), order: Seq<u64>, pass: nat, pos: nat, k: u64)
    requires
        st0.0.contains_key(k),
        st0.0[k].army is None,
        pos <= order.len(),
    ensures
        bonus_after(st0, order, pass, pos).0.contains_key(k),
        bonus_after(st0, order, pass, pos).0[k] == st0.0[k],
    decreases pass, pos,
{
    if pos == 0 {
        if pass > 0 {
            lemma_bonus_after_keeps_no_army(st0, order, (pass - 1) as nat, order.len(), k);
        }
    } else {
        lemma_bonus_after_keeps_no_army(st0, order, pass, (pos - 1) as nat, k);
    }
}

/// Training never raises an army on a tile without an army whose
/// locality trains nobody (a port city, an airport, or none at all).
pub proof fn law_training_arms_no_idle_tile(m: Map<u64, Tile>, player: usize, r: Map<u64, Tile>, k: u64)
    requires
        trained(m, player, r),
        m.contains_key(k),
        m[k].army is None,
        m[k].locality matches Some(l) ==> (l.category == LocalityCategory::PortCity || l.category == LocalityCategory::Airport),
    ensures
        r.contains_key(k),
        r[k] == m[k],
{
    let (order, pass, pos) = choose|order: Seq<u64>, pass: nat, pos: nat|
        #[trigger] bonus_stops_at(m, player, order, pass, pos)
        && r == bonus_after(bonus_start(m, player), order, pass, pos).0;
    law_base_growth_by_locality(m[k]);
    let st0 = bonus_start(m, player);
    assert(st0.0[k] == m[k]);
    lemma_bonus_after_keeps_no_army(st0, order, pass, pos, k);
}

} // verus!
