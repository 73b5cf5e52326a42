//! Properties of the library that relate several operations or hold for
//! every input, each proved.

use vstd::prelude::*;
use crate::cubic::{Cube, key_of, cube_distance, lemma_key_injective};
use crate::world::{World, Tile, Army, Player, TileCategory, army_ok, owned_in, MAX_STACK_SIZE};
use crate::world::army::{bonus_applied, penalty_applied, minimum_morale};
use crate::world::orders::{regrouped_armies, captured, attacked, strength};
use crate::world::growth::grown;
use crate::world::turn::surrendered;
use crate::world::movement::legal_moves;
use crate::fog::{Visibility, updated_mask};
use crate::game::{click_outcome, player_on_turn};
use crate::editor::{BrushLayer, next_layer};
use crate::world::{LocalityCategory, MORALE_BONUS_ANNEX_RURAL, MORALE_BONUS_ANNEX_CITY_ORIGIN, MORALE_BONUS_ANNEX_CITY_ALL,
    MORALE_BONUS_ANNEX_SOVEREIGN_CAPITAL_ORIGIN, MORALE_BONUS_ANNEX_SOVEREIGN_CAPITAL_ALL,
    MORALE_BONUS_ANNEX_SATELLITE_CAPITAL_ORIGIN, MORALE_BONUS_ANNEX_SATELLITE_CAPITAL_ALL};
use crate::ai::{Scores, move_score, combat_score, tile_score, border_score};

verus! {

/// The distance between two cubes does not depend on the order in which
/// they are given.
pub proof fn law_distance_symmetric(a: Cube<i32>, b: Cube<i32>)
    ensures
        cube_distance(a, b) == cube_distance(b, a),
{
}

/// A cube is at distance zero from itself and from no other cube.
pub proof fn law_distance_zero(a: Cube<i32>, b: Cube<i32>)
    ensures
        cube_distance(a, a) == 0,
        cube_distance(a, b) == 0 <==> a == b,
{
}

/// Reading a world at a cube gives back what was last written there, and
/// writing at one cube leaves every other cube as it was.
pub proof fn law_read_after_write(before: World, after: World, c: Cube<i32>, v: Tile, other: Cube<i32>)
    requires
        after.world@ == before.world@.insert(key_of(c), v),
    ensures
        after.has(c),
        after.at(c) == v,
        other != c ==> after.has(other) == before.has(other) && after.at(other) == before.at(other),
{
    lemma_key_injective(c, other);
}

/// Once a cube is removed from a world, the world holds nothing there, and
/// every other cube is as it was.
pub proof fn law_read_after_remove(before: World, after: World, c: Cube<i32>, other: Cube<i32>)
    requires
        after.world@ == before.world@.remove(key_of(c)),
    ensures
        !after.has(c),
        other != c ==> after.has(other) == before.has(other) && after.at(other) == before.at(other),
{
    lemma_key_injective(c, other);
}

/// Regrouping two armies within the stack limits neither creates nor loses
/// men, and the target army ends within the stack limit.
pub proof fn law_regroup_conserves_manpower(o: Army, t: Army)
    requires
        army_ok(o),
        army_ok(t),
    ensures
        ({
            let (ro, rt) = regrouped_armies(o, t);
            &&& rt.manpower + (match ro { Some(a) => a.manpower as int, None => 0 }) == o.manpower + t.manpower
            &&& rt.manpower <= MAX_STACK_SIZE
        }),
{
}

/// Growing an army by `g` men adds the men that fit below the stack limit
/// and hands back the rest: no man is created or lost.
pub proof fn law_grow_conserves_men(a: Army, g: int)
    requires
        army_ok(a),
        g >= 0,
    ensures
        grown(a, g).manpower + (if a.manpower + g > MAX_STACK_SIZE { a.manpower + g - MAX_STACK_SIZE } else { 0 })
            == a.manpower + g,
        grown(a, g).manpower <= MAX_STACK_SIZE,
{
}

/// A morale bonus never lifts morale above the army's manpower.
pub proof fn law_bonus_below_manpower(a: Army, bonus: int)
    requires
        i32::MIN <= a.morale + bonus <= i32::MAX,
    ensures
        bonus_applied(a, bonus).morale <= a.manpower,
{
}

/// A morale penalty never pushes morale below the army's floor: one point
/// per fifty men of its owner, but no more than its own manpower.
pub proof fn law_penalty_above_floor(a: Army, penalty: int, total_manpower: int)
    requires
        i32::MIN <= a.morale - penalty <= i32::MAX,
        0 <= total_manpower <= i32::MAX,
    ensures
        penalty_applied(a, penalty, total_manpower).morale >= minimum_morale(a.manpower as int, total_manpower),
{
}

/// Water can not be captured: a capture of water changes nothing.
pub proof fn law_water_not_captured(m: Map<u64, Tile>, ok: u64, tk: u64)
    requires
        m[tk].category == TileCategory::Water,
    ensures
        captured(m, ok, tk) == m,
{
}

/// A captured tile of farmland passes to the owner of the capturing army.
pub proof fn law_capture_takes_owner(m: Map<u64, Tile>, ok: u64, tk: u64)
    requires
        m.contains_key(ok),
        m.contains_key(tk),
        m[tk].category == TileCategory::Farmland,
    ensures
        captured(m, ok, tk)[tk].owner_index == m[ok].army->0.owner_index,
{
}

/// After an attack the attacking tile is left without an army, and the
/// target holds the winner: the attacker if it was stronger, else the
/// defender; the owner of the other side is reported as the loser.
pub proof fn law_attack_outcome(m: Map<u64, Tile>, ok: u64, tk: u64)
    requires
        m.contains_key(ok),
        m.contains_key(tk),
        ok != tk,
        m[ok].army is Some,
        m[tk].army is Some,
    ensures
        ({
            let (r, losing) = attacked(m, ok, tk);
            let o = m[ok].army->0;
            let t = m[tk].army->0;
            &&& r[ok].army is None
            &&& r[tk].army is Some
            &&& strength(o) > strength(t) ==> r[tk].army->0.owner_index == o.owner_index && losing == t.owner_index
            &&& strength(o) <= strength(t) ==> r[tk].army->0.owner_index == t.owner_index && losing == o.owner_index
        }),
{
    crate::world::orders::lemma_captured_dom(m, ok, tk);
}

/// Clicking on the selected tile deselects it.
pub proof fn law_click_on_selection_deselects(m: Map<u64, Tile>, ps: Seq<Player>, idx: int, s: Cube<i32>)
    requires
        0 <= idx < ps.len(),
        ps[idx].selection == Some(s),
    ensures
        click_outcome(m, ps, idx, s).1[idx].selection is None,
{
}

/// An army can never be ordered onto its own tile.
pub proof fn law_no_order_onto_origin(m: Map<u64, Tile>, o: Cube<i32>, owner: usize)
    ensures
        !legal_moves(m, o, owner).contains(key_of(o)),
{
}

/// Turns pass from each player to the next, and from the last back to the first.
pub proof fn law_turns_rotate(turn: i32, n: nat)
    requires
        1 <= turn < i32::MAX,
        n > 0,
    ensures
        player_on_turn((turn + 1) as i32, n) == (player_on_turn(turn, n) + 1) % (n as int),
{
    let t = turn - 1;
    assert(((turn - 1) as usize) as int == t);
    assert((((turn + 1) as i32 - 1) as usize) as int == t + 1);
    vstd::arithmetic::div_mod::lemma_add_mod_noop(t, 1, n as int);
    if n > 1 {
        vstd::arithmetic::div_mod::lemma_small_mod(1, n as nat);
    }
}

/// After a surrender to another player, the surrendering player holds no
/// tile, and each tile it held belongs to the conqueror, emptied of its army.
pub proof fn law_surrender_leaves_nothing(m: Map<u64, Tile>, from: usize, to: usize, k: u64)
    requires
        from != to,
    ensures
        owned_in(m.map_values(|t: Tile| surrendered(t, from, to)), from).is_empty(),
        owned_in(m, from).contains(k) ==> m.map_values(|t: Tile| surrendered(t, from, to))[k].owner_index == Some(to)
            && m.map_values(|t: Tile| surrendered(t, from, to))[k].army is None,
{
    assert(owned_in(m.map_values(|t: Tile| surrendered(t, from, to)), from) =~= Set::empty());
}

/// A tile once seen is never hidden in fog again.
pub proof fn law_seen_never_fogged(mask: Map<u64, Visibility>, observed: Set<u64>, k: u64)
    requires
        mask.contains_key(k),
        mask[k] != Visibility::Fog,
    ensures
        updated_mask(mask, observed).contains_key(k),
        updated_mask(mask, observed)[k] != Visibility::Fog,
{
}

/// Toggling the brush layer three times brings back the layer it started on.
pub proof fn law_layers_cycle(layer: BrushLayer)
    ensures
        next_layer(next_layer(next_layer(layer))) == layer,
{
}


/// The morale bonus of the army that captures `target`: 80 for a capital,
/// 40 for a satellite capital, 20 for any other locality, 1 for open land.
pub open spec fn capture_bonus_of(target: Tile) -> int {
    match target.locality {
        Some(l) => if l.category == LocalityCategory::Capital {
            MORALE_BONUS_ANNEX_SOVEREIGN_CAPITAL_ORIGIN as int
        } else if l.category == LocalityCategory::SatelliteCapital {
            MORALE_BONUS_ANNEX_SATELLITE_CAPITAL_ORIGIN as int
        } else {
            MORALE_BONUS_ANNEX_CITY_ORIGIN as int
        },
        None => MORALE_BONUS_ANNEX_RURAL as int,
    }
}

/// The morale bonus of the capturer's other armies: 50 for a capital, 25
/// for a satellite capital, 10 for any other locality, 1 for open land.
pub open spec fn capture_bonus_for_all(target: Tile) -> int {
    match target.locality {
        Some(l) => if l.category == LocalityCategory::Capital {
            MORALE_BONUS_ANNEX_SOVEREIGN_CAPITAL_ALL as int
        } else if l.category == LocalityCategory::SatelliteCapital {
            MORALE_BONUS_ANNEX_SATELLITE_CAPITAL_ALL as int
        } else {
            MORALE_BONUS_ANNEX_CITY_ALL as int
        },
        None => MORALE_BONUS_ANNEX_RURAL as int,
    }
}

/// `morale + bonus`, but no more than `manpower`.
pub open spec fn capped(morale: int, bonus: int, manpower: int) -> int {
    if morale + bonus <= manpower { morale + bonus } else { manpower }
}

/// Capturing farmland hands it to the owner of the capturing army; that
/// army gains `capture_bonus_of` the tile in morale, and every other army
/// on a tile of the origin's owner gains `capture_bonus_for_all`, in both
/// cases no more than its manpower; their men and owners stay.
pub proof fn law_capture_bonuses(m: Map<u64, Tile>, ok: u64, tk: u64, k: u64)
    requires
        ok != tk,
        m.contains_key(ok),
        m.contains_key(tk),
        m[tk].category == TileCategory::Farmland,
        m[ok].army is Some,
    ensures
        captured(m, ok, tk)[tk].owner_index == m[ok].army->0.owner_index,
        captured(m, ok, tk)[ok].army is Some,
        captured(m, ok, tk)[ok].army->0.manpower == m[ok].army->0.manpower,
        captured(m, ok, tk)[ok].army->0.morale == capped(m[ok].army->0.morale as int, capture_bonus_of(m[tk]),
            m[ok].army->0.manpower as int),
        m.contains_key(k) && k != ok && k != tk && m[k].owner_index == m[ok].owner_index && m[k].army is Some ==> {
            &&& captured(m, ok, tk)[k].army is Some
            &&& captured(m, ok, tk)[k].army->0.manpower == m[k].army->0.manpower
            &&& captured(m, ok, tk)[k].army->0.owner_index == m[k].army->0.owner_index
            &&& captured(m, ok, tk)[k].army->0.morale == capped(m[k].army->0.morale as int, capture_bonus_for_all(m[tk]),
                m[k].army->0.manpower as int)
        },
{
}

/// A move against a weaker army of another player is worth its combat
/// score plus, since it wins, the value of the tile taken (its locality's
/// weight, or its terrain's) and of the borders extended around it.
pub proof fn law_winning_attack_score(s: Scores, own: usize, m: Map<u64, Tile>, o: Cube<i32>, t: Cube<i32>)
    requires
        m[key_of(t)].owner_index != Some(own),
        m[key_of(t)].army is Some,
        m[key_of(o)].army is Some,
        strength(m[key_of(o)].army->0) > strength(m[key_of(t)].army->0),
    ensures
        move_score(s, own, m, o, t) == combat_score(s, m[key_of(o)].army->0, m[key_of(t)].army->0)
            + tile_score(s, m[key_of(t)]) + border_score(s, own, m, t),
        tile_score(s, m[key_of(t)]) == match m[key_of(t)].locality {
            Some(l) => match l.category {
                LocalityCategory::City => s.city as int,
                LocalityCategory::PortCity => s.port_city as int,
                LocalityCategory::Airport => s.airport as int,
                LocalityCategory::Capital => s.capital as int,
                LocalityCategory::SatelliteCapital => s.satellite_capital as int,
            },
            None => if m[key_of(t)].category == TileCategory::Farmland { s.farmland as int } else { s.water as int },
        },
{
}

} // verus!
