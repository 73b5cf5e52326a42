//! The orders an army can be given: move, regroup, attack and capture,
//! and the border extension that follows them.

use vstd::prelude::*;
use std::collections::HashSet;
use crate::cubic::{Cube, key_of, fits, disc_seq};
use super::{World, Tile, Army, tile_ok, army_ok, armies_owned, TileCategory, LocalityCategory, MAX_STACK_SIZE,
    total_manpower, MORALE_BONUS_ANNEX_RURAL, MORALE_BONUS_ANNEX_CITY_ORIGIN,
    MORALE_BONUS_ANNEX_CITY_ALL, MORALE_BONUS_ANNEX_SOVEREIGN_CAPITAL_ORIGIN,
    MORALE_BONUS_ANNEX_SOVEREIGN_CAPITAL_ALL, MORALE_PENALTY_LOSING_CITY,
    MORALE_BONUS_ANNEX_SATELLITE_CAPITAL_ORIGIN, MORALE_BONUS_ANNEX_SATELLITE_CAPITAL_ALL,
    owned_in, manpower_of, add_manpower, lemma_add_manpower_commutative};
use super::army::{bonus_applied, spec_half_ceil, minimum_morale};
use super::morale::{ArmyAdjustment, adjusted, same_owner};

verus! {

broadcast use vstd::std_specs::hash::group_hash_axioms;

/// The world after the army at `ok` moves onto the tile at `tk`: the
/// origin is left without an army, and the army can not move again this turn.
pub open spec fn moved(m: Map<u64, Tile>, ok: u64, tk: u64) -> Map<u64, Tile> {
    m.insert(ok, Tile { army: None, ..m[ok] }).insert(
        tk,
        Tile { army: Some(Army { can_move: false, ..m[ok].army->0 }), ..m[tk] },
    )
}

/// `n / d` rounded to the nearest integer, halves up (`n >= 0`, `d > 0`).
pub open spec fn round_div(n: int, d: int) -> int {
    (2 * n + d) / (2 * d)
}

/// The armies after the army `o` joins the allied army `t`. When the two
/// fit in one stack, `t` takes all men and the rounded mean morale, and `o`
/// disappears. Otherwise `t` is filled up to `MAX_STACK_SIZE` and `o` keeps the
/// surplus men, morale being shared in proportion to the men that moved.
pub open spec fn regrouped_armies(o: Army, t: Army) -> (Option<Army>, Army) {
    let total = o.manpower + t.manpower;
    let over = total - MAX_STACK_SIZE;
    if over <= 0 {
        (None, Army {
            manpower: total as i32,
            morale: round_div(o.morale + t.morale, 2) as i32,
            can_move: false,
            ..t
        })
    } else {
        (Some(Army {
            manpower: over as i32,
            morale: round_div(over * o.morale, o.manpower as int) as i32,
            ..o
        }), Army {
            manpower: (t.manpower + o.manpower - over) as i32,
            morale: round_div(o.morale * (o.manpower - over) + t.morale * o.manpower, 2 * o.manpower) as i32,
            can_move: false,
            ..t
        })
    }
}

/// The world after the army at `ok` regroups with the army at `tk`.
pub open spec fn regrouped(m: Map<u64, Tile>, ok: u64, tk: u64) -> Map<u64, Tile> {
    let (o, t) = regrouped_armies(m[ok].army->0, m[tk].army->0);
    m.insert(ok, Tile { army: o, ..m[ok] }).insert(tk, Tile { army: Some(t), ..m[tk] })
}

/// Moves the army at `origin_cube` onto the tile at `target_cube`, replacing
/// whatever army stood there; the moved army can not move again this turn.
pub fn move_to(world: &mut World, origin_cube: &Cube<i32>, target_cube: &Cube<i32>)
    requires
        old(world).wf(),
        old(world).has(*origin_cube),
        old(world).has(*target_cube),
        *origin_cube != *target_cube,
        old(world).at(*origin_cube).army is Some,
    ensures
        final(world).wf(),
        final(world).world@ == moved(old(world).world@, key_of(*origin_cube), key_of(*target_cube)),
{
    proof {
        crate::cubic::lemma_key_injective(*origin_cube, *target_cube);
    }
    let mut origin = world.remove(origin_cube).unwrap();
    let target = world.remove(target_cube).unwrap();
    let mut army = origin.army.unwrap();
    army.can_move = false;
    origin.army = None;
    let target = Tile { army: Some(army), ..target };
    world.insert(*origin_cube, origin);
    world.insert(*target_cube, target);
    assert(world.world@ =~= moved(old(world).world@, key_of(*origin_cube), key_of(*target_cube)));
}

/// The army at `origin_cube` joins the allied army at `target_cube`.
pub fn regroup(world: &mut World, origin_cube: &Cube<i32>, target_cube: &Cube<i32>)
    requires
        old(world).wf(),
        old(world).has(*origin_cube),
        old(world).has(*target_cube),
        *origin_cube != *target_cube,
        old(world).at(*origin_cube).army is Some,
        old(world).at(*target_cube).army is Some,
    ensures
        final(world).wf(),
        final(world).world@ == regrouped(old(world).world@, key_of(*origin_cube), key_of(*target_cube)),
{
    proof {
        crate::cubic::lemma_key_injective(*origin_cube, *target_cube);
    }
    let origin = world.remove(origin_cube).unwrap();
    let target = world.remove(target_cube).unwrap();
    let o = origin.army.unwrap();
    let t = target.army.unwrap();
    let ghost (go, gt) = regrouped_armies(o, t);
    let total_manpower = o.manpower + t.manpower;
    let army_over_max_stack = total_manpower - MAX_STACK_SIZE;
    let (origin_army, target_army) = if army_over_max_stack <= 0 {
        let morale = (o.morale + t.morale + 1) / 2;
        (None, Army { manpower: total_manpower, morale, owner_index: t.owner_index, can_move: false })
    } else {
        let over = army_over_max_stack;
        let om = o.morale as i64;
        let omp = o.manpower as i64;
        let tm = t.morale as i64;
        proof {
            assert(0 <= om * (omp - over) <= 99 * 99) by (nonlinear_arith)
                requires 0 <= om <= 99, 0 < over <= omp <= 99;
            assert(0 <= tm * omp <= 99 * 99) by (nonlinear_arith)
                requires 0 <= tm <= 99, 0 < omp <= 99;
            assert(0 <= over * om <= 99 * 99) by (nonlinear_arith)
                requires 0 <= om <= 99, 0 < over <= 99;
        }
        let target_morale = (2 * (om * (omp - over as i64) + tm * omp) + 2 * omp) / (4 * omp);
        let origin_morale = (2 * (over as i64 * om) + omp) / (2 * omp);
        proof {
            assert(target_morale <= 99) by (nonlinear_arith)
                requires
                    target_morale == (2 * (om * (omp - over) + tm * omp) + 2 * omp) / (4 * omp),
                    0 <= om <= 99, 0 <= tm <= 99, 0 < over <= omp <= 99;
            assert(target_morale >= 0) by (nonlinear_arith)
                requires
                    target_morale == (2 * (om * (omp - over) + tm * omp) + 2 * omp) / (4 * omp),
                    0 <= om <= 99, 0 <= tm <= 99, 0 < over <= omp <= 99;
            assert(origin_morale <= 99) by (nonlinear_arith)
                requires
                    origin_morale == (2 * (over * om) + omp) / (2 * omp),
                    0 <= om <= 99, 0 < over <= omp <= 99;
            assert(origin_morale >= 0) by (nonlinear_arith)
                requires
                    origin_morale == (2 * (over * om) + omp) / (2 * omp),
                    0 <= om <= 99, 0 < over <= omp <= 99;
            assert(2 * (2 * omp) == 4 * omp);
        }
        (
            Some(Army { manpower: over, morale: origin_morale as i32, owner_index: o.owner_index, can_move: o.can_move }),
            Army { manpower: t.manpower + o.manpower - over, morale: target_morale as i32, owner_index: t.owner_index, can_move: false },
        )
    };
    assert(origin_army == go && target_army == gt);
    let origin = Tile { army: origin_army, ..origin };
    let target = Tile { army: Some(target_army), ..target };
    world.insert(*origin_cube, origin);
    world.insert(*target_cube, target);
    assert(world.world@ =~= regrouped(old(world).world@, key_of(*origin_cube), key_of(*target_cube)));
}

/// The morale bonus for the army that captures `target`.
pub open spec fn capturing_bonus(target: Tile) -> int {
    match target.locality {
        Some(l) => match l.category {
            LocalityCategory::Capital => MORALE_BONUS_ANNEX_SOVEREIGN_CAPITAL_ORIGIN as int,
            LocalityCategory::SatelliteCapital => MORALE_BONUS_ANNEX_SATELLITE_CAPITAL_ORIGIN as int,
            _ => MORALE_BONUS_ANNEX_CITY_ORIGIN as int,
        },
        None => MORALE_BONUS_ANNEX_RURAL as int,
    }
}

/// The morale bonus for the other armies of the capturing owner.
pub open spec fn owner_bonus(target: Tile) -> int {
    match target.locality {
        Some(l) => match l.category {
            LocalityCategory::Capital => MORALE_BONUS_ANNEX_SOVEREIGN_CAPITAL_ALL as int,
            LocalityCategory::SatelliteCapital => MORALE_BONUS_ANNEX_SATELLITE_CAPITAL_ALL as int,
            _ => MORALE_BONUS_ANNEX_CITY_ALL as int,
        },
        None => MORALE_BONUS_ANNEX_RURAL as int,
    }
}

/// Losing `target` costs its owner morale: it is an owned city, port or airport.
pub open spec fn loses_city(target: Tile) -> bool {
    &&& target.owner_index is Some
    &&& target.locality matches Some(l) && (l.category == LocalityCategory::City
        || l.category == LocalityCategory::PortCity || l.category == LocalityCategory::Airport)
}

/// The morale changes to the armies other than the capturing one when the
/// tile at `tk` of `m` is captured from the tile at `ok`.
pub open spec fn capture_adjustment(m: Map<u64, Tile>, ok: u64, tk: u64) -> ArmyAdjustment {
    let target = m[tk];
    let rest = m.remove(ok).remove(tk);
    ArmyAdjustment::Capture {
        origin_owner: m[ok].owner_index,
        bonus: owner_bonus(target) as i32,
        target_owner: target.owner_index,
        penalty: if loses_city(target) { Some(MORALE_PENALTY_LOSING_CITY) } else { None },
        total: if loses_city(target) { total_manpower(rest, target.owner_index->0) as i32 } else { -1i32 },
    }
}

/// The world after the army at `ok` captures the tile at `tk`. Water can not
/// be captured. Otherwise the tile passes to the owner of the capturing
/// army, which gains `capturing_bonus`; the armies on the other tiles of the
/// origin's owner gain `owner_bonus`; and when an owned city is lost, the
/// armies of its former owner lose `MORALE_PENALTY_LOSING_CITY` morale.
pub open spec fn captured(m: Map<u64, Tile>, ok: u64, tk: u64) -> Map<u64, Tile> {
    if m[tk].category != TileCategory::Farmland {
        m
    } else {
        let origin = m[ok];
        let adj = capture_adjustment(m, ok, tk);
        m.remove(ok).remove(tk).map_values(|t: Tile| adjusted(t, adj)).insert(
            ok,
            Tile { army: Some(bonus_applied(origin.army->0, capturing_bonus(m[tk]))), ..origin },
        ).insert(tk, Tile { owner_index: origin.army->0.owner_index, ..m[tk] })
    }
}

/// The tile at `target_cube` passes to the owner of the army at
/// `origin_cube`, and morale changes as `captured` describes. The army
/// itself stays where it is.
pub fn capture_tile(world: &mut World, origin_cube: &Cube<i32>, target_cube: &Cube<i32>)
    requires
        old(world).wf(),
        old(world).has(*origin_cube),
        old(world).has(*target_cube),
        *origin_cube != *target_cube,
        old(world).at(*origin_cube).army is Some,
        old(world).at(*origin_cube).army->0.owner_index is Some,
    ensures
        final(world).wf(),
        final(world).world@ == captured(old(world).world@, key_of(*origin_cube), key_of(*target_cube)),
        final(world).cubes_by_ownership@.dom() == if old(world).at(*target_cube).category == TileCategory::Farmland {
            old(world).cubes_by_ownership@.dom().insert(old(world).at(*origin_cube).army->0.owner_index->0)
        } else {
            old(world).cubes_by_ownership@.dom()
        },
{
    proof {
        crate::cubic::lemma_key_injective(*origin_cube, *target_cube);
    }
    let ghost m = world.world@;
    let ghost ok = key_of(*origin_cube);
    let ghost tk = key_of(*target_cube);
    let target = world.remove(target_cube).unwrap();
    if !target.is_capturable() {
        world.insert(*target_cube, target);
        assert(world.world@ =~= m);
        return;
    }
    let origin = world.remove(origin_cube).unwrap();
    assert(world.world@ == m.remove(ok).remove(tk)) by {
        assert(m.remove(tk).remove(ok) =~= m.remove(ok).remove(tk));
    }
    let mut capturing_army_morale_bonus: i32 = 0;
    let mut origin_owner_morale_bonus: i32 = 0;
    let mut target_owner_morale_penalty: Option<i32> = None;
    let mut target_total_manpower: i32 = -1;
    match &target.locality {
        Some(locality) => match locality.category {
            LocalityCategory::Capital => {
                capturing_army_morale_bonus = MORALE_BONUS_ANNEX_SOVEREIGN_CAPITAL_ORIGIN;
                origin_owner_morale_bonus = MORALE_BONUS_ANNEX_SOVEREIGN_CAPITAL_ALL;
            },
            LocalityCategory::SatelliteCapital => {
                capturing_army_morale_bonus = MORALE_BONUS_ANNEX_SATELLITE_CAPITAL_ORIGIN;
                origin_owner_morale_bonus = MORALE_BONUS_ANNEX_SATELLITE_CAPITAL_ALL;
            },
            LocalityCategory::City | LocalityCategory::PortCity | LocalityCategory::Airport => {
                capturing_army_morale_bonus = MORALE_BONUS_ANNEX_CITY_ORIGIN;
                origin_owner_morale_bonus = MORALE_BONUS_ANNEX_CITY_ALL;
                if let Some(index) = target.owner_index {
                    target_total_manpower = world.player_total_manpower(index);
                    target_owner_morale_penalty = Some(MORALE_PENALTY_LOSING_CITY);
                }
            },
        },
        None => {
            capturing_army_morale_bonus = MORALE_BONUS_ANNEX_RURAL;
            origin_owner_morale_bonus = MORALE_BONUS_ANNEX_RURAL;
        },
    }
    let adj = ArmyAdjustment::Capture {
        origin_owner: origin.owner_index,
        bonus: origin_owner_morale_bonus,
        target_owner: target.owner_index,
        penalty: target_owner_morale_penalty,
        total: target_total_manpower,
    };
    assert(adj == capture_adjustment(m, ok, tk));
    let Tile { owner_index, category, locality, army } = origin;
    let mut army = army.unwrap();
    army.apply_morale_bonus(capturing_army_morale_bonus);
    let new_owner = army.owner_index;
    let origin = Tile { owner_index, category, locality, army: Some(army) };
    world.adjust_armies(&adj);
    let target = Tile { owner_index: new_owner, ..target };
    world.insert(*origin_cube, origin);
    world.insert(*target_cube, target);
    assert(world.world@ =~= captured(m, ok, tk));
}

/// The penalty to every army of the player who lost `manpower_lost` men in a battle.
pub open spec fn losing_penalty(manpower_lost: int) -> int {
    manpower_lost / 10
}

/// The world after `losing` loses a battle costing `manpower_lost` men: every
/// army on a tile the loser owns loses `losing_penalty` morale, bounded by
/// the loser's total manpower; a zero penalty changes nothing.
pub open spec fn penalized_for_loss(m: Map<u64, Tile>, losing: usize, manpower_lost: int) -> Map<u64, Tile> {
    if losing_penalty(manpower_lost) == 0 {
        m
    } else {
        m.map_values(|t: Tile| adjusted(t, ArmyAdjustment::Penalty {
            owner: losing,
            penalty: losing_penalty(manpower_lost) as i32,
            total: total_manpower(m, losing) as i32,
            only_idle: false,
        }))
    }
}

/// Applies the morale penalty for a lost battle to every army of the loser.
pub fn apply_morale_penalty_losing_combat(world: &mut World, losing_player_index: usize, manpower_lost: i32)
    requires
        old(world).wf(),
        0 <= manpower_lost <= MAX_STACK_SIZE,
    ensures
        final(world).wf(),
        final(world).world@ == penalized_for_loss(old(world).world@, losing_player_index, manpower_lost as int),
{
    let penalty = manpower_lost / 10;
    if penalty == 0 {
        return;
    }
    let total_manpower = world.player_total_manpower(losing_player_index);
    let adj = ArmyAdjustment::Penalty { owner: losing_player_index, penalty, total: total_manpower, only_idle: false };
    world.adjust_armies(&adj);
}

/// Manpower plus morale of an army.
pub open spec fn strength(a: Army) -> int {
    a.manpower + a.morale
}

/// The outcome of the army at `ok` attacking the army at `tk`: the world
/// afterwards and the owner of the defeated army. The stronger side wins
/// (ties go to the defender) and keeps half the difference in strength,
/// rounded up for the attacker and down for the defender (at least 1), as
/// both manpower and morale. A winning attacker captures the tile and moves
/// onto it. The loser is penalized as `penalized_for_loss` describes.
pub open spec fn attacked(m: Map<u64, Tile>, ok: u64, tk: u64) -> (Map<u64, Tile>, Option<usize>) {
    let o = m[ok].army->0;
    let t = m[tk].army->0;
    let diff = strength(o) - strength(t);
    let half = spec_half_ceil(diff);
    if diff > 0 {
        let m1 = m.insert(
            ok,
            Tile { army: Some(Army { manpower: half as i32, morale: half as i32, can_move: false, ..o }), ..m[ok] },
        ).insert(tk, Tile { army: None, ..m[tk] });
        let m2 = moved(captured(m1, ok, tk), ok, tk);
        (penalized_for_loss(m2, t.owner_index->0, t.manpower as int), t.owner_index)
    } else {
        let survivors = if -half >= 1 { -half } else { 1 };
        let m1 = m.insert(ok, Tile { army: None, ..m[ok] }).insert(
            tk,
            Tile { army: Some(Army { manpower: survivors as i32, morale: survivors as i32, ..t }), ..m[tk] },
        );
        (penalized_for_loss(m1, o.owner_index->0, o.manpower as int), o.owner_index)
    }
}

/// The army at `origin_cube` attacks the hostile army at `target_cube`;
/// returns the owner of the defeated army.
pub fn attack(world: &mut World, origin_cube: &Cube<i32>, target_cube: &Cube<i32>) -> (losing_player: Option<usize>)
    requires
        old(world).wf(),
        old(world).has(*origin_cube),
        old(world).has(*target_cube),
        *origin_cube != *target_cube,
        old(world).at(*origin_cube).army is Some,
        old(world).at(*target_cube).army is Some,
        old(world).at(*origin_cube).army->0.owner_index is Some,
        strength(old(world).at(*origin_cube).army->0) > strength(old(world).at(*target_cube).army->0)
            ==> old(world).at(*target_cube).army->0.owner_index is Some,
    ensures
        final(world).wf(),
        (final(world).world@, losing_player) == attacked(old(world).world@, key_of(*origin_cube), key_of(*target_cube)),
{
    proof {
        crate::cubic::lemma_key_injective(*origin_cube, *target_cube);
    }
    let ghost m = world.world@;
    let ghost ok = key_of(*origin_cube);
    let ghost tk = key_of(*target_cube);
    let origin = world.remove(origin_cube).unwrap();
    let target = world.remove(target_cube).unwrap();
    let mut o = origin.army.unwrap();
    let t = target.army.unwrap();
    o.can_move = false;
    let diff = o.combat_strength() - t.combat_strength();
    let combat_strength_to_army = super::army::half_ceil(diff);
    let losing_player;
    let manpower_lost;
    let origin_army;
    let target_army;
    if diff > 0 {
        losing_player = t.owner_index;
        manpower_lost = t.manpower;
        target_army = None;
        origin_army = Some(Army { manpower: combat_strength_to_army, morale: combat_strength_to_army, ..o });
    } else {
        losing_player = o.owner_index;
        manpower_lost = o.manpower;
        origin_army = None;
        let survivors = if -combat_strength_to_army >= 1 { -combat_strength_to_army } else { 1 };
        target_army = Some(Army { manpower: survivors, morale: survivors, ..t });
    }
    let origin = Tile { army: origin_army, ..origin };
    let target = Tile { army: target_army, ..target };
    world.insert(*origin_cube, origin);
    world.insert(*target_cube, target);
    if diff > 0 {
        assert(world.world@ =~= m.insert(
            ok,
            Tile { army: Some(Army { manpower: spec_half_ceil(diff as int) as i32, morale: spec_half_ceil(diff as int) as i32, can_move: false, ..m[ok].army->0 }), ..m[ok] },
        ).insert(tk, Tile { army: None, ..m[tk] }));
        capture_tile(world, origin_cube, target_cube);
        move_to(world, origin_cube, target_cube);
    } else {
        let ghost half = spec_half_ceil(diff as int);
        let ghost survivors = if -half >= 1 { -half } else { 1 };
        assert(world.world@ =~= m.insert(ok, Tile { army: None, ..m[ok] }).insert(
            tk,
            Tile { army: Some(Army { manpower: survivors as i32, morale: survivors as i32, ..m[tk].army->0 }), ..m[tk] },
        ));
    }
    apply_morale_penalty_losing_combat(world, losing_player.unwrap(), manpower_lost);
    losing_player
}

/// The tile at `tk` can be taken over by border extension from `ok`: it
/// exists, holds neither army nor locality, and neither tile is water.
pub open spec fn extendable(m: Map<u64, Tile>, ok: u64, tk: u64) -> bool {
    &&& m.contains_key(tk)
    &&& m[tk].army is None
    &&& m[tk].locality is None
    &&& m[tk].category != TileCategory::Water
    &&& m[ok].category != TileCategory::Water
}

impl World {
    /// Can the tile at `target` be captured by border extension from `origin`?
    pub fn is_cube_extendable(&self, origin: &Cube<i32>, target: &Cube<i32>) -> (b: bool)
        requires
            self.has(*origin),
        ensures
            b == extendable(self.world@, key_of(*origin), key_of(*target)),
    {
        let origin_tile = self.get(origin).unwrap();
        match self.get(target) {
            Some(tile) => tile.army.is_none() && tile.locality.is_none()
                && tile.category != TileCategory::Water && origin_tile.category != TileCategory::Water,
            None => false,
        }
    }
}

/// The tile at `k` is present in `a` exactly when in `b`, and if so has the
/// same owner, terrain and locality, and an army in the one when in the other.
pub open spec fn unchanged_layout(a: Map<u64, Tile>, b: Map<u64, Tile>, k: u64) -> bool {
    &&& a.contains_key(k) == b.contains_key(k)
    &&& b.contains_key(k) ==> {
        &&& a[k].owner_index == b[k].owner_index
        &&& a[k].category == b[k].category
        &&& a[k].locality == b[k].locality
        &&& (a[k].army is Some) == (b[k].army is Some)
    }
}

/// A capture from `ok` of `tk` leaves the layout of every other tile as it
/// was; the capturing tile keeps its terrain, locality and owner, and its army keeps its owner.
pub proof fn lemma_captured_layout(m: Map<u64, Tile>, ok: u64, tk: u64, k: u64)
    requires
        m.contains_key(ok),
        m.contains_key(tk),
        ok != tk,
        m[ok].army is Some,
    ensures
        k != ok && k != tk ==> unchanged_layout(captured(m, ok, tk), m, k),
        k == ok ==> unchanged_layout(captured(m, ok, tk), m, k),
        captured(m, ok, tk)[ok].army->0.owner_index == m[ok].army->0.owner_index,
{
}

/// The world after the army at `t` extends its borders over the cubes
/// `ns`, in order: each extendable one not owned by `owner` is captured.
pub open spec fn extended_over(m: Map<u64, Tile>, t: Cube<i32>, owner: Option<usize>, ns: Seq<Cube<i32>>) -> Map<u64, Tile>
    decreases ns.len(),
{
    if ns.len() == 0 {
        m
    } else {
        let m1 = extended_over(m, t, owner, ns.drop_last());
        let c = ns.last();
        if extendable(m1, key_of(t), key_of(c)) && m1[key_of(c)].owner_index != owner {
            captured(m1, key_of(t), key_of(c))
        } else {
            m1
        }
    }
}

/// The world after border extension around `t`: the six neighbours, in
/// `disc` order, are captured when `extended_over` says so.
pub open spec fn extended(m: Map<u64, Tile>, t: Cube<i32>) -> Map<u64, Tile> {
    extended_over(m, t, m[key_of(t)].owner_index, disc_seq(t, 1))
}

/// The tile at `tk` holds an army with an owner.
pub open spec fn owned_army_at(m: Map<u64, Tile>, tk: u64) -> bool {
    m.contains_key(tk) && m[tk].army is Some && m[tk].army->0.owner_index is Some
}

/// Border extension around `t` would capture some neighbour.
pub open spec fn would_extend(m: Map<u64, Tile>, t: Cube<i32>) -> bool {
    exists|i: int| 0 <= i < 6 && #[trigger] extendable(m, key_of(t), key_of(disc_seq(t, 1)[i]))
        && m[key_of(disc_seq(t, 1)[i])].owner_index != m[key_of(t)].owner_index
}

/// Captures, around `target_cube`, every neighbouring tile that holds no army
/// or locality, is not water and is not already owned by the owner of
/// `target_cube` (as `extended` describes).
pub fn extend_borders(world: &mut World, target_cube: &Cube<i32>)
    requires
        old(world).wf(),
        old(world).has(*target_cube),
        fits(*target_cube, 1),
        owned_army_at(old(world).world@, key_of(*target_cube)) || !would_extend(old(world).world@, *target_cube),
    ensures
        final(world).wf(),
        final(world).world@ == extended(old(world).world@, *target_cube),
{
    let ghost m = world.world@;
    let ghost tk = key_of(*target_cube);
    let target_owner_index = world.get(target_cube).unwrap().owner_index;
    let neighbours_cube = target_cube.disc(1);
    proof {
        crate::cubic::lemma_disc_contents(*target_cube, 1);
        assert(disc_seq(*target_cube, 1).len() == 6) by {
            assert(crate::cubic::spec_triangular(1) == 1);
        }
    }
    let ghost ns = neighbours_cube@;
    let mut i: usize = 0;
    while i < neighbours_cube.len()
        invariant
            world.wf(),
            ns == neighbours_cube@,
            ns == disc_seq(*target_cube, 1),
            ns.len() == 6,
            forall|x: Cube<i32>| ns.contains(x) <==> 1 <= crate::cubic::cube_distance(x, *target_cube) <= 1,
            ns.no_duplicates(),
            0 <= i <= 6,
            tk == key_of(*target_cube),
            target_owner_index == m[tk].owner_index,
            m.contains_key(tk),
            world.world@ == extended_over(m, *target_cube, target_owner_index, ns.take(i as int)),
            world.has(*target_cube),
            world.world@[tk].owner_index == target_owner_index,
            owned_army_at(m, tk) ==> owned_army_at(world.world@, tk),
            !owned_army_at(m, tk) ==> world.world@ == m,
            !owned_army_at(m, tk) ==> !would_extend(m, *target_cube),
            forall|j: int| i <= j < 6 ==> unchanged_layout(world.world@, m, #[trigger] key_of(ns[j])),
            world.world@[tk].category == m[tk].category,
        decreases 6 - i,
    {
        let cube = neighbours_cube[i];
        assert(ns.take(i + 1).drop_last() =~= ns.take(i as int));
        assert(ns.contains(cube));
        proof {
            crate::cubic::lemma_key_injective(cube, *target_cube);
        }
        if let Some(tile) = world.get(&cube) {
            if world.is_cube_extendable(target_cube, &cube) && !same_owner(tile.owner_index, target_owner_index) {
                assert(owned_army_at(m, tk)) by {
                    if !owned_army_at(m, tk) {
                        assert(extendable(m, tk, key_of(ns[i as int])));
                    }
                }
                let ghost before = world.world@;
                capture_tile(world, target_cube, &cube);
                assert forall|j: int| i + 1 <= j < 6 implies unchanged_layout(world.world@, m, #[trigger] key_of(ns[j])) by {
                    assert(ns[j] != cube);
                    crate::cubic::lemma_key_injective(cube, ns[j]);
                    assert(ns.contains(ns[j]));
                    crate::cubic::lemma_key_injective(ns[j], *target_cube);
                    lemma_captured_layout(before, tk, key_of(cube), key_of(ns[j]));
                    assert(unchanged_layout(before, m, key_of(ns[j])));
                }
                proof {
                    lemma_captured_layout(before, tk, key_of(cube), tk);
                }
            }
        }
        i = i + 1;
    }
    assert(ns.take(6) =~= ns);
}

/// The world after the army at `o` is ordered onto the tile at `t`:
/// it regroups with an army there whose tile its owner holds, attacks any
/// other army there, moves onto an empty tile of its owner, and captures
/// and moves onto any other empty tile. Unless the attack failed, the
/// borders around `t` are then extended.
pub open spec fn order_outcome(m: Map<u64, Tile>, o: Cube<i32>, t: Cube<i32>) -> Map<u64, Tile> {
    let ok = key_of(o);
    let tk = key_of(t);
    let origin_owner = m[ok].army->0.owner_index;
    let target_owner = m[tk].owner_index;
    if m[tk].army is Some {
        if target_owner == origin_owner {
            extended(regrouped(m, ok, tk), t)
        } else {
            let (m1, losing) = attacked(m, ok, tk);
            if losing == origin_owner {
                m1
            } else {
                extended(m1, t)
            }
        }
    } else if origin_owner == target_owner {
        extended(moved(m, ok, tk), t)
    } else {
        extended(moved(captured(m, ok, tk), ok, tk), t)
    }
}

/// The keys of the tiles of `m0` whose owner differs in `m1`.
pub open spec fn changed_hands(m0: Map<u64, Tile>, m1: Map<u64, Tile>) -> Set<u64> {
    Set::new(|k: u64| m0.contains_key(k) && m1[k].owner_index != m0[k].owner_index)
}

impl World {
    /// Carries out the order given to the army at `origin_cube` with
    /// `target_cube` as its target, as `order_outcome` describes, and
    /// returns the keys of the tiles captured: those that changed hands.
    pub fn execute_army_order(&mut self, origin_cube: &Cube<i32>, target_cube: &Cube<i32>) -> (captured_keys: HashSet<u64>)
        requires
            old(self).wf(),
            old(self).has(*origin_cube),
            old(self).has(*target_cube),
            *origin_cube != *target_cube,
            fits(*target_cube, 1),
            owned_army_at(old(self).world@, key_of(*origin_cube)),
            old(self).at(*target_cube).army matches Some(a) ==> a.owner_index is Some,
        ensures
            final(self).wf(),
            final(self).world@ == order_outcome(old(self).world@, *origin_cube, *target_cube),
            captured_keys@ == changed_hands(old(self).world@, final(self).world@),
    {
        let ghost m0 = self.world@;
        let mut candidates = target_cube.disc(1);
        candidates.push(*target_cube);
        let ghost cs = candidates@;
        let mut before: Vec<Option<usize>> = Vec::new();
        let mut j: usize = 0;
        while j < candidates.len()
            invariant
                self.world@ == m0,
                candidates@ == cs,
                0 <= j <= cs.len(),
                before@.len() == j,
                forall|i: int| 0 <= i < j && m0.contains_key(key_of(cs[i])) ==> #[trigger] before@[i] == m0[key_of(cs[i])].owner_index,
            decreases cs.len() - j,
        {
            let owner = match self.get(&candidates[j]) {
                Some(t) => t.owner_index,
                None => None,
            };
            before.push(owner);
            j = j + 1;
        }
        self.carry_out_order(origin_cube, target_cube);
        let ghost m1 = self.world@;
        proof {
            crate::cubic::lemma_key_injective(*origin_cube, *target_cube);
            law_order_frame(m0, *origin_cube, *target_cube);
            lemma_order_keeps_tiles(m0, *origin_cube, *target_cube);
        }
        let mut result: HashSet<u64> = HashSet::new();
        let mut j: usize = 0;
        while j < candidates.len()
            invariant
                self.world@ == m1,
                m1.dom() == m0.dom(),
                candidates@ == cs,
                before@.len() == cs.len(),
                forall|i: int| 0 <= i < cs.len() && m0.contains_key(key_of(cs[i])) ==> #[trigger] before@[i] == m0[key_of(cs[i])].owner_index,
                0 <= j <= cs.len(),
                result@ == changed_hands(m0, m1).intersect(Set::new(|k: u64| exists|i: int| 0 <= i < j && key_of(#[trigger] cs[i]) == k)),
            decreases cs.len() - j,
        {
            let c = candidates[j];
            let ghost prev = Set::new(|k: u64| exists|i: int| 0 <= i < j && key_of(#[trigger] cs[i]) == k);
            let ghost next = Set::new(|k: u64| exists|i: int| 0 <= i < j + 1 && key_of(#[trigger] cs[i]) == k);
            assert(next =~= prev.insert(key_of(c))) by {
                assert(key_of(cs[j as int]) == key_of(c));
                assert forall|k: u64| next.contains(k) implies prev.insert(key_of(c)).contains(k) by {
                    let i = choose|i: int| 0 <= i < j + 1 && key_of(#[trigger] cs[i]) == k;
                    if i < j {
                        assert(prev.contains(k));
                    }
                }
                assert forall|k: u64| prev.contains(k) implies next.contains(k) by {
                    let i = choose|i: int| 0 <= i < j && key_of(#[trigger] cs[i]) == k;
                    assert(0 <= i < j + 1 && key_of(cs[i]) == k);
                }
            }
            match self.get(&c) {
                Some(t) => {
                    assert(before@[j as int] == m0[key_of(c)].owner_index);
                    if !same_owner(t.owner_index, before[j]) {
                        result.insert(c.key());
                    }
                },
                None => {},
            }
            assert(result@ =~= changed_hands(m0, m1).intersect(next));
            j = j + 1;
        }
        proof {
            let all = Set::new(|k: u64| exists|i: int| 0 <= i < cs.len() && key_of(#[trigger] cs[i]) == k);
            assert(result@ =~= changed_hands(m0, m1)) by {
                assert forall|k: u64| #[trigger] changed_hands(m0, m1).contains(k) implies all.contains(k) by {
                    assert(m0.contains_key(k));
                    if k == key_of(*target_cube) {
                        assert(key_of(cs[cs.len() - 1]) == k);
                    } else {
                        assert(keys_of(disc_seq(*target_cube, 1)).contains(k));
                        let i = choose|i: int| 0 <= i < disc_seq(*target_cube, 1).len() && key_of(#[trigger] disc_seq(*target_cube, 1)[i]) == k;
                        assert(cs[i] == disc_seq(*target_cube, 1)[i]);
                    }
                }
            }
        }
        result
    }

    /// Carries out the order given to the army at `origin_cube` with
    /// `target_cube` as its target, as `order_outcome` describes.
    fn carry_out_order(&mut self, origin_cube: &Cube<i32>, target_cube: &Cube<i32>)
        requires
            old(self).wf(),
            old(self).has(*origin_cube),
            old(self).has(*target_cube),
            *origin_cube != *target_cube,
            fits(*target_cube, 1),
            owned_army_at(old(self).world@, key_of(*origin_cube)),
            old(self).at(*target_cube).army matches Some(a) ==> a.owner_index is Some,
        ensures
            final(self).wf(),
            final(self).world@ == order_outcome(old(self).world@, *origin_cube, *target_cube),
    {
        proof {
            crate::cubic::lemma_key_injective(*origin_cube, *target_cube);
        }
        let ghost m = self.world@;
        let ghost ok = key_of(*origin_cube);
        let ghost tk = key_of(*target_cube);
        let target = self.get(target_cube).unwrap();
        let origin_owner = self.get(origin_cube).unwrap().army.as_ref().unwrap().owner_index;
        let target_owner = target.owner_index;
        let target_has_army = target.army.is_some();
        let mut extend = true;
        if target_has_army {
            if same_owner(target_owner, origin_owner) {
                regroup(self, origin_cube, target_cube);
            } else {
                let losing_player = attack(self, origin_cube, target_cube);
                if same_owner(losing_player, origin_owner) {
                    extend = false;
                }
            }
        } else if same_owner(origin_owner, target_owner) {
            move_to(self, origin_cube, target_cube);
        } else {
            capture_tile(self, origin_cube, target_cube);
            move_to(self, origin_cube, target_cube);
        }
        if extend {
            assert(owned_army_at(self.world@, tk));
            extend_borders(self, target_cube);
        }
    }
}

/// Extending borders around `t` neither adds nor removes tiles.
pub proof fn lemma_extended_over_dom(m: Map<u64, Tile>, t: Cube<i32>, owner: Option<usize>, ns: Seq<Cube<i32>>)
    requires
        m.contains_key(key_of(t)),
    ensures
        extended_over(m, t, owner, ns).dom() == m.dom(),
    decreases ns.len(),
{
    if ns.len() > 0 {
        lemma_extended_over_dom(m, t, owner, ns.drop_last());
        let m1 = extended_over(m, t, owner, ns.drop_last());
        let c = ns.last();
        if extendable(m1, key_of(t), key_of(c)) && m1[key_of(c)].owner_index != owner {
            lemma_captured_dom(m1, key_of(t), key_of(c));
        }
    }
}

/// A capture neither adds nor removes tiles.
pub proof fn lemma_captured_dom(m: Map<u64, Tile>, ok: u64, tk: u64)
    requires
        m.contains_key(ok),
        m.contains_key(tk),
    ensures
        captured(m, ok, tk).dom() == m.dom(),
{
    assert(captured(m, ok, tk).dom() =~= m.dom());
}

/// An order neither adds nor removes tiles.
pub proof fn lemma_order_keeps_tiles(m: Map<u64, Tile>, o: Cube<i32>, t: Cube<i32>)
    requires
        m.contains_key(key_of(o)),
        m.contains_key(key_of(t)),
    ensures
        order_outcome(m, o, t).dom() == m.dom(),
{
    let ok = key_of(o);
    let tk = key_of(t);
    assert(moved(m, ok, tk).dom() =~= m.dom());
    assert(regrouped(m, ok, tk).dom() =~= m.dom());
    lemma_captured_dom(m, ok, tk);
    assert(moved(captured(m, ok, tk), ok, tk).dom() =~= m.dom());
    let (m1, losing) = attacked(m, ok, tk);
    let oa = m[ok].army->0;
    let ta = m[tk].army->0;
    if strength(oa) - strength(ta) > 0 {
        let half = spec_half_ceil(strength(oa) - strength(ta));
        let m0 = m.insert(
            ok,
            Tile { army: Some(Army { manpower: half as i32, morale: half as i32, can_move: false, ..oa }), ..m[ok] },
        ).insert(tk, Tile { army: None, ..m[tk] });
        assert(m0.dom() =~= m.dom());
        lemma_captured_dom(m0, ok, tk);
        let m2 = moved(captured(m0, ok, tk), ok, tk);
        assert(m2.dom() =~= m.dom());
        assert(penalized_for_loss(m2, ta.owner_index->0, ta.manpower as int).dom() =~= m.dom());
    } else {
        let half = spec_half_ceil(strength(oa) - strength(ta));
        let survivors = if -half >= 1 { -half } else { 1 };
        let m0 = m.insert(ok, Tile { army: None, ..m[ok] }).insert(
            tk,
            Tile { army: Some(Army { manpower: survivors as i32, morale: survivors as i32, ..ta }), ..m[tk] },
        );
        assert(m0.dom() =~= m.dom());
        assert(penalized_for_loss(m0, oa.owner_index->0, oa.manpower as int).dom() =~= m.dom());
    }
    assert(m1.dom() == m.dom());
    lemma_extended_over_dom(regrouped(m, ok, tk), t, regrouped(m, ok, tk)[tk].owner_index, disc_seq(t, 1));
    lemma_extended_over_dom(m1, t, m1[tk].owner_index, disc_seq(t, 1));
    lemma_extended_over_dom(moved(m, ok, tk), t, moved(m, ok, tk)[tk].owner_index, disc_seq(t, 1));
    lemma_extended_over_dom(moved(captured(m, ok, tk), ok, tk), t, moved(captured(m, ok, tk), ok, tk)[tk].owner_index, disc_seq(t, 1));
}

/// Morale changes keep every army with its owner.
pub proof fn lemma_adjusted_owned(m: Map<u64, Tile>, adj: ArmyAdjustment)
    requires
        armies_owned(m),
    ensures
        armies_owned(m.map_values(|t: Tile| adjusted(t, adj))),
{
    let r = m.map_values(|t: Tile| adjusted(t, adj));
    assert forall|k: u64| #[trigger] r.contains_key(k) && r[k].army is Some
        implies r[k].army->0.owner_index is Some by {
        assert(m.contains_key(k));
    }
}

/// A capture keeps every army with its owner, and the capturing army in place.
pub proof fn lemma_captured_owned(m: Map<u64, Tile>, ok: u64, tk: u64)
    requires
        armies_owned(m),
        m.contains_key(ok),
        m.contains_key(tk),
        m[ok].army is Some,
    ensures
        armies_owned(captured(m, ok, tk)),
        captured(m, ok, tk)[ok].army is Some,
        captured(m, ok, tk)[ok].army->0.owner_index == m[ok].army->0.owner_index,
{
    if m[tk].category == TileCategory::Farmland {
        let adj = capture_adjustment(m, ok, tk);
        let rest = m.remove(ok).remove(tk);
        assert(armies_owned(rest));
        lemma_adjusted_owned(rest, adj);
    }
}

/// Border extension around a tile holding an army keeps every army with
/// its owner and that army in place.
pub proof fn lemma_extended_over_owned(m: Map<u64, Tile>, t: Cube<i32>, owner: Option<usize>, ns: Seq<Cube<i32>>)
    requires
        armies_owned(m),
        m.contains_key(key_of(t)),
        m[key_of(t)].army is Some,
    ensures
        armies_owned(extended_over(m, t, owner, ns)),
        extended_over(m, t, owner, ns).contains_key(key_of(t)),
        extended_over(m, t, owner, ns)[key_of(t)].army is Some,
    decreases ns.len(),
{
    lemma_extended_over_dom(m, t, owner, ns);
    if ns.len() > 0 {
        lemma_extended_over_owned(m, t, owner, ns.drop_last());
        let m1 = extended_over(m, t, owner, ns.drop_last());
        let c = ns.last();
        if extendable(m1, key_of(t), key_of(c)) && m1[key_of(c)].owner_index != owner {
            lemma_captured_owned(m1, key_of(t), key_of(c));
        }
    }
}

/// An order keeps every army with its owner.
pub proof fn lemma_order_owned(m: Map<u64, Tile>, o: Cube<i32>, t: Cube<i32>)
    requires
        armies_owned(m),
        m.contains_key(key_of(o)),
        m.contains_key(key_of(t)),
        key_of(o) != key_of(t),
        m[key_of(o)].army is Some,
    ensures
        armies_owned(order_outcome(m, o, t)),
{
    let ok = key_of(o);
    let tk = key_of(t);
    let oa = m[ok].army->0;
    let target_owner = m[tk].owner_index;
    if m[tk].army is Some {
        if target_owner == oa.owner_index {
            let r = regrouped(m, ok, tk);
            assert(armies_owned(r));
            lemma_extended_over_owned(r, t, r[tk].owner_index, disc_seq(t, 1));
        } else {
            let ta = m[tk].army->0;
            let diff = strength(oa) - strength(ta);
            let half = spec_half_ceil(diff);
            if diff > 0 {
                let m0 = m.insert(
                    ok,
                    Tile { army: Some(Army { manpower: half as i32, morale: half as i32, can_move: false, ..oa }), ..m[ok] },
                ).insert(tk, Tile { army: None, ..m[tk] });
                assert(armies_owned(m0));
                lemma_captured_owned(m0, ok, tk);
                lemma_captured_dom(m0, ok, tk);
                let m2 = moved(captured(m0, ok, tk), ok, tk);
                assert(armies_owned(m2));
                let losing = ta.owner_index->0;
                if losing_penalty(ta.manpower as int) != 0 {
                    lemma_adjusted_owned(m2, ArmyAdjustment::Penalty {
                        owner: losing,
                        penalty: losing_penalty(ta.manpower as int) as i32,
                        total: total_manpower(m2, losing) as i32,
                        only_idle: false,
                    });
                }
                let m3 = penalized_for_loss(m2, losing, ta.manpower as int);
                assert(armies_owned(m3));
                assert(m3.contains_key(tk) && m3[tk].army is Some);
                lemma_extended_over_owned(m3, t, m3[tk].owner_index, disc_seq(t, 1));
            } else {
                let survivors = if -half >= 1 { -half } else { 1 };
                let m0 = m.insert(ok, Tile { army: None, ..m[ok] }).insert(
                    tk,
                    Tile { army: Some(Army { manpower: survivors as i32, morale: survivors as i32, ..ta }), ..m[tk] },
                );
                assert(armies_owned(m0));
                let losing = oa.owner_index->0;
                if losing_penalty(oa.manpower as int) != 0 {
                    lemma_adjusted_owned(m0, ArmyAdjustment::Penalty {
                        owner: losing,
                        penalty: losing_penalty(oa.manpower as int) as i32,
                        total: total_manpower(m0, losing) as i32,
                        only_idle: false,
                    });
                }
                let m3 = penalized_for_loss(m0, losing, oa.manpower as int);
                assert(armies_owned(m3));
                assert(m3.contains_key(tk) && m3[tk].army is Some);
                lemma_extended_over_owned(m3, t, m3[tk].owner_index, disc_seq(t, 1));
            }
        }
    } else if oa.owner_index == target_owner {
        let r = moved(m, ok, tk);
        assert(armies_owned(r));
        lemma_extended_over_owned(r, t, r[tk].owner_index, disc_seq(t, 1));
    } else {
        lemma_captured_owned(m, ok, tk);
        lemma_captured_dom(m, ok, tk);
        let r = moved(captured(m, ok, tk), ok, tk);
        assert(armies_owned(r));
        lemma_extended_over_owned(r, t, r[tk].owner_index, disc_seq(t, 1));
    }
}


/// The army `b` is `a` with at most its morale changed.
pub open spec fn same_army_but_morale(a: Option<Army>, b: Option<Army>) -> bool {
    match (a, b) {
        (None, None) => true,
        (Some(x), Some(y)) => x.manpower == y.manpower && x.owner_index == y.owner_index && x.can_move == y.can_move,
        _ => false,
    }
}

/// `m1` has the tiles of `m0` with their terrain and localities; only the
/// tiles in `owners` may have changed hands, and only those in `armies`
/// may have had their army changed other than in morale.
pub open spec fn framed(m0: Map<u64, Tile>, m1: Map<u64, Tile>, owners: Set<u64>, armies: Set<u64>) -> bool {
    &&& m1.dom() == m0.dom()
    &&& forall|k: u64| #[trigger] m0.contains_key(k) ==> {
        &&& m1[k].category == m0[k].category
        &&& m1[k].locality == m0[k].locality
        &&& (!owners.contains(k) ==> m1[k].owner_index == m0[k].owner_index)
        &&& (!armies.contains(k) ==> same_army_but_morale(m0[k].army, m1[k].army))
    }
}

/// The keys of the cubes of `ns`.
pub open spec fn keys_of(ns: Seq<Cube<i32>>) -> Set<u64> {
    Set::new(|k: u64| exists|j: int| 0 <= j < ns.len() && key_of(#[trigger] ns[j]) == k)
}

proof fn lemma_framed_trans(a: Map<u64, Tile>, b: Map<u64, Tile>, c: Map<u64, Tile>, o1: Set<u64>, a1: Set<u64>,
    o2: Set<u64>, a2: Set<u64>)
    requires
        framed(a, b, o1, a1),
        framed(b, c, o2, a2),
    ensures
        framed(a, c, o1.union(o2), a1.union(a2)),
{
    assert forall|k: u64| #[trigger] a.contains_key(k) implies {
        &&& c[k].category == a[k].category
        &&& c[k].locality == a[k].locality
        &&& (!o1.union(o2).contains(k) ==> c[k].owner_index == a[k].owner_index)
        &&& (!a1.union(a2).contains(k) ==> same_army_but_morale(a[k].army, c[k].army))
    } by {
        assert(b.contains_key(k));
    }
}

proof fn lemma_framed_weaken(a: Map<u64, Tile>, b: Map<u64, Tile>, o1: Set<u64>, a1: Set<u64>, o2: Set<u64>, a2: Set<u64>)
    requires
        framed(a, b, o1, a1),
        o1.subset_of(o2),
        a1.subset_of(a2),
    ensures
        framed(a, b, o2, a2),
{
}

proof fn lemma_adjusted_framed(m: Map<u64, Tile>, adj: ArmyAdjustment)
    requires
        !(adj is Refresh),
    ensures
        framed(m, m.map_values(|t: Tile| adjusted(t, adj)), Set::empty(), Set::empty()),
{
    assert(m.map_values(|t: Tile| adjusted(t, adj)).dom() =~= m.dom());
}

proof fn lemma_moved_framed(m: Map<u64, Tile>, ok: u64, tk: u64)
    requires
        m.contains_key(ok),
        m.contains_key(tk),
    ensures
        framed(m, moved(m, ok, tk), Set::empty(), set![ok, tk]),
{
    assert(moved(m, ok, tk).dom() =~= m.dom());
}

proof fn lemma_regrouped_framed(m: Map<u64, Tile>, ok: u64, tk: u64)
    requires
        m.contains_key(ok),
        m.contains_key(tk),
    ensures
        framed(m, regrouped(m, ok, tk), Set::empty(), set![ok, tk]),
{
    assert(regrouped(m, ok, tk).dom() =~= m.dom());
}

proof fn lemma_captured_framed(m: Map<u64, Tile>, ok: u64, tk: u64)
    requires
        m.contains_key(ok),
        m.contains_key(tk),
    ensures
        framed(m, captured(m, ok, tk), set![tk], set![ok]),
{
    if m[tk].category == TileCategory::Farmland {
        let adj = capture_adjustment(m, ok, tk);
        let r = m.remove(ok).remove(tk);
        lemma_adjusted_framed(r, adj);
        assert(captured(m, ok, tk).dom() =~= m.dom());
    }
}

proof fn lemma_penalized_framed(m: Map<u64, Tile>, losing: usize, lost: int)
    ensures
        framed(m, penalized_for_loss(m, losing, lost), Set::empty(), Set::empty()),
{
    if losing_penalty(lost) != 0 {
        lemma_adjusted_framed(m, ArmyAdjustment::Penalty {
            owner: losing,
            penalty: losing_penalty(lost) as i32,
            total: total_manpower(m, losing) as i32,
            only_idle: false,
        });
    }
}

proof fn lemma_attacked_framed(m: Map<u64, Tile>, ok: u64, tk: u64)
    requires
        m.contains_key(ok),
        m.contains_key(tk),
        ok != tk,
    ensures
        framed(m, attacked(m, ok, tk).0, set![tk], set![ok, tk]),
{
    let o = m[ok].army->0;
    let t = m[tk].army->0;
    let diff = strength(o) - strength(t);
    let half = spec_half_ceil(diff);
    if diff > 0 {
        let m1 = m.insert(
            ok,
            Tile { army: Some(Army { manpower: half as i32, morale: half as i32, can_move: false, ..o }), ..m[ok] },
        ).insert(tk, Tile { army: None, ..m[tk] });
        assert(framed(m, m1, Set::empty(), set![ok, tk])) by {
            assert(m1.dom() =~= m.dom());
        }
        lemma_captured_framed(m1, ok, tk);
        let c = captured(m1, ok, tk);
        lemma_moved_framed(c, ok, tk);
        let m2 = moved(c, ok, tk);
        lemma_penalized_framed(m2, t.owner_index->0, t.manpower as int);
        lemma_framed_trans(m, m1, c, Set::empty(), set![ok, tk], set![tk], set![ok]);
        lemma_framed_trans(m, c, m2, Set::<u64>::empty().union(set![tk]), set![ok, tk].union(set![ok]), Set::empty(), set![ok, tk]);
        lemma_framed_trans(m, m2, attacked(m, ok, tk).0, Set::<u64>::empty().union(set![tk]).union(Set::empty()),
            set![ok, tk].union(set![ok]).union(set![ok, tk]), Set::empty(), Set::empty());
        lemma_framed_weaken(m, attacked(m, ok, tk).0, Set::<u64>::empty().union(set![tk]).union(Set::empty()).union(Set::empty()),
            set![ok, tk].union(set![ok]).union(set![ok, tk]).union(Set::empty()), set![tk], set![ok, tk]);
    } else {
        let survivors = if -half >= 1 { -half } else { 1 };
        let m1 = m.insert(ok, Tile { army: None, ..m[ok] }).insert(
            tk,
            Tile { army: Some(Army { manpower: survivors as i32, morale: survivors as i32, ..t }), ..m[tk] },
        );
        assert(framed(m, m1, Set::empty(), set![ok, tk])) by {
            assert(m1.dom() =~= m.dom());
        }
        lemma_penalized_framed(m1, o.owner_index->0, o.manpower as int);
        lemma_framed_trans(m, m1, attacked(m, ok, tk).0, Set::empty(), set![ok, tk], Set::empty(), Set::empty());
        lemma_framed_weaken(m, attacked(m, ok, tk).0, Set::<u64>::empty().union(Set::empty()),
            set![ok, tk].union(Set::empty()), set![tk], set![ok, tk]);
    }
}

proof fn lemma_extended_over_framed(m: Map<u64, Tile>, t: Cube<i32>, owner: Option<usize>, ns: Seq<Cube<i32>>)
    requires
        m.contains_key(key_of(t)),
    ensures
        framed(m, extended_over(m, t, owner, ns), keys_of(ns), set![key_of(t)]),
    decreases ns.len(),
{
    if ns.len() == 0 {
        lemma_framed_weaken(m, m, Set::empty(), Set::empty(), keys_of(ns), set![key_of(t)]);
    } else {
        let ns0 = ns.drop_last();
        lemma_extended_over_framed(m, t, owner, ns0);
        lemma_extended_over_dom(m, t, owner, ns0);
        let m1 = extended_over(m, t, owner, ns0);
        let c = ns.last();
        assert(keys_of(ns0).subset_of(keys_of(ns))) by {
            assert forall|k: u64| keys_of(ns0).contains(k) implies keys_of(ns).contains(k) by {
                let j = choose|j: int| 0 <= j < ns0.len() && key_of(#[trigger] ns0[j]) == k;
                assert(ns[j] == ns0[j]);
            }
        }
        assert(keys_of(ns).contains(key_of(c))) by {
            assert(key_of(ns[ns.len() - 1]) == key_of(c));
        }
        if extendable(m1, key_of(t), key_of(c)) && m1[key_of(c)].owner_index != owner {
            lemma_captured_framed(m1, key_of(t), key_of(c));
            lemma_framed_trans(m, m1, captured(m1, key_of(t), key_of(c)), keys_of(ns0), set![key_of(t)],
                set![key_of(c)], set![key_of(t)]);
            lemma_framed_weaken(m, captured(m1, key_of(t), key_of(c)), keys_of(ns0).union(set![key_of(c)]),
                set![key_of(t)].union(set![key_of(t)]), keys_of(ns), set![key_of(t)]);
        } else {
            lemma_framed_weaken(m, m1, keys_of(ns0), set![key_of(t)], keys_of(ns), set![key_of(t)]);
        }
    }
}

/// An order keeps every tile's terrain and locality. Only the target and
/// its six neighbours may change hands, and only the origin and the target
/// may see their army come, go or change in anything but morale.
pub proof fn law_order_frame(m: Map<u64, Tile>, o: Cube<i32>, t: Cube<i32>)
    requires
        m.contains_key(key_of(o)),
        m.contains_key(key_of(t)),
        key_of(o) != key_of(t),
    ensures
        framed(m, order_outcome(m, o, t), set![key_of(t)].union(keys_of(disc_seq(t, 1))), set![key_of(o), key_of(t)]),
{
    let ok = key_of(o);
    let tk = key_of(t);
    let n = keys_of(disc_seq(t, 1));
    let origin_owner = m[ok].army->0.owner_index;
    let target_owner = m[tk].owner_index;
    let ab = set![ok, tk];
    let r = order_outcome(m, o, t);
    if m[tk].army is Some {
        if target_owner == origin_owner {
            let g = regrouped(m, ok, tk);
            lemma_regrouped_framed(m, ok, tk);
            lemma_extended_over_framed(g, t, g[tk].owner_index, disc_seq(t, 1));
            lemma_framed_trans(m, g, r, Set::empty(), ab, n, set![tk]);
            lemma_framed_weaken(m, r, Set::<u64>::empty().union(n), ab.union(set![tk]), set![tk].union(n), ab);
        } else {
            let (m1, losing) = attacked(m, ok, tk);
            lemma_attacked_framed(m, ok, tk);
            if losing == origin_owner {
                lemma_framed_weaken(m, r, set![tk], ab, set![tk].union(n), ab);
            } else {
                assert(m1.dom() == m.dom());
                lemma_extended_over_framed(m1, t, m1[tk].owner_index, disc_seq(t, 1));
                lemma_framed_trans(m, m1, r, set![tk], ab, n, set![tk]);
                lemma_framed_weaken(m, r, set![tk].union(n), ab.union(set![tk]), set![tk].union(n), ab);
            }
        }
    } else if origin_owner == target_owner {
        let g = moved(m, ok, tk);
        lemma_moved_framed(m, ok, tk);
        lemma_extended_over_framed(g, t, g[tk].owner_index, disc_seq(t, 1));
        lemma_framed_trans(m, g, r, Set::empty(), ab, n, set![tk]);
        lemma_framed_weaken(m, r, Set::<u64>::empty().union(n), ab.union(set![tk]), set![tk].union(n), ab);
    } else {
        let c = captured(m, ok, tk);
        lemma_captured_framed(m, ok, tk);
        lemma_captured_dom(m, ok, tk);
        let g = moved(c, ok, tk);
        lemma_moved_framed(c, ok, tk);
        lemma_framed_trans(m, c, g, set![tk], set![ok], Set::empty(), ab);
        lemma_extended_over_framed(g, t, g[tk].owner_index, disc_seq(t, 1));
        lemma_framed_trans(m, g, r, set![tk].union(Set::empty()), set![ok].union(ab), n, set![tk]);
        lemma_framed_weaken(m, r, set![tk].union(Set::empty()).union(n), set![ok].union(ab).union(set![tk]), set![tk].union(n), ab);
    }
}


/// Extension over the cubes `ns`, neighbours of `t` with distinct keys other
/// than that of `t`, decides each one on the world it started from: a
/// neighbour that can be extended over and is held by someone other than
/// `owner` passes to the owner of the army at `t`; every other keeps its owner.
proof fn lemma_extended_over_owners(m: Map<u64, Tile>, t: Cube<i32>, owner: Option<usize>, ns: Seq<Cube<i32>>)
    requires
        m.contains_key(key_of(t)),
        m[key_of(t)].army is Some,
        forall|a: int, b: int| 0 <= a < b < ns.len() ==> key_of(#[trigger] ns[a]) != key_of(#[trigger] ns[b]),
        forall|a: int| 0 <= a < ns.len() ==> key_of(#[trigger] ns[a]) != key_of(t),
    ensures
        extended_over(m, t, owner, ns)[key_of(t)].army is Some,
        extended_over(m, t, owner, ns)[key_of(t)].army->0.owner_index == m[key_of(t)].army->0.owner_index,
        forall|a: int| 0 <= a < ns.len() && m.contains_key(key_of(#[trigger] ns[a])) ==>
            extended_over(m, t, owner, ns)[key_of(ns[a])].owner_index == if extendable(m, key_of(t), key_of(ns[a]))
                && m[key_of(ns[a])].owner_index != owner {
                m[key_of(t)].army->0.owner_index
            } else {
                m[key_of(ns[a])].owner_index
            },
    decreases ns.len(),
{
    if ns.len() > 0 {
        let kt = key_of(t);
        let ns0 = ns.drop_last();
        lemma_extended_over_owners(m, t, owner, ns0);
        lemma_extended_over_framed(m, t, owner, ns0);
        lemma_extended_over_dom(m, t, owner, ns0);
        let m1 = extended_over(m, t, owner, ns0);
        let c = ns.last();
        let kc = key_of(c);
        assert(kc == key_of(ns[ns.len() - 1]));
        assert(!keys_of(ns0).contains(kc)) by {
            if keys_of(ns0).contains(kc) {
                let j = choose|j: int| 0 <= j < ns0.len() && key_of(#[trigger] ns0[j]) == kc;
                assert(ns0[j] == ns[j]);
            }
        }
        if m.contains_key(kc) {
            assert(m1[kc].owner_index == m[kc].owner_index);
            assert(same_army_but_morale(m[kc].army, m1[kc].army));
            assert(extendable(m1, kt, kc) == extendable(m, kt, kc));
        } else {
            assert(!extendable(m1, kt, kc));
        }
        if extendable(m1, kt, kc) && m1[kc].owner_index != owner {
            lemma_captured_framed(m1, kt, kc);
            let r = captured(m1, kt, kc);
            assert forall|a: int| 0 <= a < ns.len() && m.contains_key(key_of(#[trigger] ns[a])) implies
                r[key_of(ns[a])].owner_index == if extendable(m, kt, key_of(ns[a])) && m[key_of(ns[a])].owner_index != owner {
                    m[kt].army->0.owner_index
                } else {
                    m[key_of(ns[a])].owner_index
                } by {
                if a < ns.len() - 1 {
                    assert(ns[a] == ns0[a]);
                    assert(key_of(ns[a]) != kc);
                }
            }
        } else {
            assert forall|a: int| 0 <= a < ns.len() && m.contains_key(key_of(#[trigger] ns[a])) implies
                m1[key_of(ns[a])].owner_index == if extendable(m, kt, key_of(ns[a])) && m[key_of(ns[a])].owner_index != owner {
                    m[kt].army->0.owner_index
                } else {
                    m[key_of(ns[a])].owner_index
                } by {
                if a < ns.len() - 1 {
                    assert(ns[a] == ns0[a]);
                }
            }
        }
    }
}

/// Border extension around `t` decides each of its six neighbours on its
/// own: a neighbour that can be extended over and is held by someone other
/// than the owner of `t` passes to the owner of the army at `t`; every
/// other neighbour keeps its owner.
pub proof fn law_extension_per_neighbour(m: Map<u64, Tile>, t: Cube<i32>, i: int)
    requires
        fits(t, 1),
        m.contains_key(key_of(t)),
        m[key_of(t)].army is Some,
        0 <= i < 6,
        m.contains_key(key_of(disc_seq(t, 1)[i])),
    ensures
        ({
            let k = key_of(disc_seq(t, 1)[i]);
            extended(m, t)[k].owner_index == if extendable(m, key_of(t), k) && m[k].owner_index != m[key_of(t)].owner_index {
                m[key_of(t)].army->0.owner_index
            } else {
                m[k].owner_index
            }
        }),
{
    let ns = disc_seq(t, 1);
    crate::cubic::lemma_disc_contents(t, 1);
    assert(crate::cubic::spec_triangular(1) == 1);
    assert forall|a: int, b: int| 0 <= a < b < ns.len() implies key_of(#[trigger] ns[a]) != key_of(#[trigger] ns[b]) by {
        crate::cubic::lemma_key_injective(ns[a], ns[b]);
    }
    assert forall|a: int| 0 <= a < ns.len() implies key_of(#[trigger] ns[a]) != key_of(t) by {
        assert(ns.contains(ns[a]));
        crate::cubic::lemma_key_injective(ns[a], t);
    }
    lemma_extended_over_owners(m, t, m[key_of(t)].owner_index, ns);
}


/// After any order but an attack (regrouping with an army of the same
/// player, moving onto its own empty tile, or capturing another's empty
/// farmland and moving onto it), each neighbour of the target other than
/// the origin that is empty open farmland, next to a farmland target, and
/// held by someone else, passes to the player of the ordered army; every
/// other such neighbour keeps its owner.
pub proof fn law_order_extends_borders(m: Map<u64, Tile>, o: Cube<i32>, t: Cube<i32>, i: int)
    requires
        key_of(o) != key_of(t),
        m.contains_key(key_of(o)),
        m.contains_key(key_of(t)),
        fits(t, 1),
        m[key_of(o)].army is Some,
        m[key_of(o)].army->0.owner_index is Some,
        m[key_of(t)].army is Some ==> m[key_of(t)].army->0.owner_index == m[key_of(o)].army->0.owner_index
            && m[key_of(t)].owner_index == m[key_of(o)].army->0.owner_index,
        m[key_of(t)].army is None && m[key_of(t)].owner_index != m[key_of(o)].army->0.owner_index
            ==> m[key_of(t)].category == TileCategory::Farmland,
        0 <= i < 6,
        m.contains_key(key_of(disc_seq(t, 1)[i])),
        key_of(disc_seq(t, 1)[i]) != key_of(o),
    ensures
        ({
            let k = key_of(disc_seq(t, 1)[i]);
            let p = m[key_of(o)].army->0.owner_index;
            order_outcome(m, o, t)[k].owner_index == if m[k].army is None && m[k].locality is None
                && m[k].category == TileCategory::Farmland && m[key_of(t)].category == TileCategory::Farmland
                && m[k].owner_index != p {
                p
            } else {
                m[k].owner_index
            }
        }),
{
    let ok = key_of(o);
    let tk = key_of(t);
    let k = key_of(disc_seq(t, 1)[i]);
    let p = m[ok].army->0.owner_index;
    crate::cubic::lemma_disc_contents(t, 1);
    assert(crate::cubic::spec_triangular(1) == 1);
    assert(disc_seq(t, 1).contains(disc_seq(t, 1)[i]));
    crate::cubic::lemma_key_injective(disc_seq(t, 1)[i], t);
    assert(k != tk);
    let g = if m[tk].army is Some {
        regrouped(m, ok, tk)
    } else if p == m[tk].owner_index {
        moved(m, ok, tk)
    } else {
        moved(captured(m, ok, tk), ok, tk)
    };
    if m[tk].army is None && p != m[tk].owner_index {
        lemma_captured_dom(m, ok, tk);
        lemma_captured_framed(m, ok, tk);
    }
    assert(g.contains_key(tk));
    assert(g[tk].owner_index == p);
    assert(g[tk].army is Some && g[tk].army->0.owner_index == p);
    assert(g[tk].category == m[tk].category);
    assert(g.contains_key(k));
    assert(g[k].owner_index == m[k].owner_index);
    assert(g[k].army is None <==> m[k].army is None);
    assert(g[k].locality == m[k].locality && g[k].category == m[k].category);
    assert(order_outcome(m, o, t) == extended(g, t));
    law_extension_per_neighbour(g, t, i);
}


/// Folding two functions that agree on the elements of a finite set gives
/// the same result.
proof fn lemma_fold_agree(s: Set<u64>, f: spec_fn(int, u64) -> int, g: spec_fn(int, u64) -> int)
    requires
        s.finite(),
        vstd::set::fold::is_fun_commutative(f),
        vstd::set::fold::is_fun_commutative(g),
        forall|a: int, k: u64| s.contains(k) ==> #[trigger] f(a, k) == g(a, k),
    ensures
        s.fold(0int, f) == s.fold(0int, g),
    decreases s.len(),
{
    if s.len() == 0 {
        assert(s =~= Set::<u64>::empty());
        vstd::set::fold::lemma_fold_empty(0int, f);
        vstd::set::fold::lemma_fold_empty(0int, g);
    } else {
        let x = s.choose();
        let s2 = s.remove(x);
        lemma_fold_agree(s2, f, g);
        vstd::set::fold::lemma_fold_insert(s2, 0int, f, x);
        vstd::set::fold::lemma_fold_insert(s2, 0int, g, x);
        assert(s2.insert(x) =~= s);
    }
}

/// A penalty changes only morale, so a player's total manpower stays.
proof fn lemma_penalized_keeps_total(m: Map<u64, Tile>, losing: usize, lost: int, p: usize)
    requires
        m.dom().finite(),
    ensures
        total_manpower(penalized_for_loss(m, losing, lost), p) == total_manpower(m, p),
{
    let r = penalized_for_loss(m, losing, lost);
    if losing_penalty(lost) != 0 {
        assert(r.dom() =~= m.dom());
        assert(owned_in(r, p) =~= owned_in(m, p));
        vstd::set_lib::lemma_len_subset(owned_in(m, p), m.dom());
        assert(owned_in(m, p).subset_of(m.dom()));
        vstd::set_lib::lemma_set_subset_finite(m.dom(), owned_in(m, p));
        lemma_add_manpower_commutative(m);
        lemma_add_manpower_commutative(r);
        assert forall|a: int, k: u64| owned_in(m, p).contains(k) implies #[trigger] add_manpower(r)(a, k) == add_manpower(m)(a, k) by {
            assert(manpower_of(r[k]) == manpower_of(m[k]));
        }
        lemma_fold_agree(owned_in(m, p), add_manpower(r), add_manpower(m));
    }
}

/// Whichever side wins an attack, its loser is the owner of the beaten
/// army, and every army on another tile of the loser loses a tenth of the
/// men that army had (rounded down) in morale, but not below
/// `minimum_morale` of its men and of the loser's manpower afterwards; a
/// loss of under ten men costs nothing. (A captured city of the loser, or
/// a tile of the attacking tile's owner, adds its own changes: see
/// `law_capture_bonuses`.)
pub proof fn law_attack_penalizes_loser(m: Map<u64, Tile>, ok: u64, tk: u64, k: u64)
    requires
        ok != tk,
        m.dom().finite(),
        m.contains_key(ok),
        m.contains_key(tk),
        m[ok].army is Some,
        m[tk].army is Some,
        m[ok].army->0.owner_index is Some,
        m[tk].army->0.owner_index is Some,
        m.contains_key(k),
        k != ok,
        k != tk,
        m[k].army is Some,
        army_ok(m[ok].army->0),
        army_ok(m[tk].army->0),
        army_ok(m[k].army->0),
        strength(m[ok].army->0) > strength(m[tk].army->0) ==> !loses_city(m[tk])
            && m[k].owner_index != m[ok].owner_index,
        ({
            let win = strength(m[ok].army->0) > strength(m[tk].army->0);
            let loser = if win { m[tk].army->0.owner_index->0 } else { m[ok].army->0.owner_index->0 };
            &&& m[k].owner_index == Some(loser)
            &&& i32::MIN <= total_manpower(attacked(m, ok, tk).0, loser) <= i32::MAX
        }),
    ensures
        ({
            let win = strength(m[ok].army->0) > strength(m[tk].army->0);
            let loser = if win { m[tk].army->0.owner_index->0 } else { m[ok].army->0.owner_index->0 };
            let lost: int = if win { m[tk].army->0.manpower as int } else { m[ok].army->0.manpower as int };
            let r = attacked(m, ok, tk).0;
            let b = m[k].army->0;
            let floor = minimum_morale(b.manpower as int, total_manpower(r, loser));
            &&& attacked(m, ok, tk).1 == Some(loser)
            &&& r.contains_key(k)
            &&& r[k].army is Some
            &&& r[k].army->0.manpower == b.manpower
            &&& r[k].army->0.owner_index == b.owner_index
            &&& r[k].army->0.morale == if lost / 10 == 0 {
                b.morale as int
            } else if b.morale - lost / 10 >= floor {
                b.morale - lost / 10
            } else {
                floor
            }
        }),
{
    let o = m[ok].army->0;
    let t = m[tk].army->0;
    let diff = strength(o) - strength(t);
    let half = spec_half_ceil(diff);
    if diff > 0 {
        let m1 = m.insert(
            ok,
            Tile { army: Some(Army { manpower: half as i32, morale: half as i32, can_move: false, ..o }), ..m[ok] },
        ).insert(tk, Tile { army: None, ..m[tk] });
        assert(loses_city(m1[tk]) == loses_city(m[tk]));
        lemma_captured_dom(m1, ok, tk);
        let c = captured(m1, ok, tk);
        assert(c[k] == m[k]);
        let m2 = moved(c, ok, tk);
        assert(m2[k] == m[k]);
        assert(m2.dom() =~= m.dom());
        lemma_penalized_keeps_total(m2, t.owner_index->0, t.manpower as int, t.owner_index->0);
        assert(attacked(m, ok, tk).0 == penalized_for_loss(m2, t.owner_index->0, t.manpower as int));
    } else {
        let survivors = if -half >= 1 { -half } else { 1 };
        let m1 = m.insert(ok, Tile { army: None, ..m[ok] }).insert(
            tk,
            Tile { army: Some(Army { manpower: survivors as i32, morale: survivors as i32, ..t }), ..m[tk] },
        );
        assert(m1[k] == m[k]);
        assert(m1.dom() =~= m.dom());
        lemma_penalized_keeps_total(m1, o.owner_index->0, o.manpower as int, o.owner_index->0);
        assert(attacked(m, ok, tk).0 == penalized_for_loss(m1, o.owner_index->0, o.manpower as int));
    }
}

} // verus!
