//! What happens between orders: who may still act, the end-of-turn morale
//! penalty, surrender, and the owner of a tile among the players.

use vstd::prelude::*;
use std::collections::HashMap;
use std::collections::HashSet;
use vstd::std_specs::iter::IteratorSpec;
use crate::cubic::{Cube, key_of, fits};
use super::{World, Tile, Player, MORALE_PENALTY_IDLE_ARMY, MAX_TILES, total_manpower, owned_in};
use super::morale::{ArmyAdjustment, adjusted};
use super::orders::{order_outcome, owned_army_at};

verus! {

broadcast use vstd::std_specs::hash::group_hash_axioms;

/// `player` owns a tile whose army may still move.
pub open spec fn has_movable_army(w: World, player: usize) -> bool {
    exists|k: u64| #[trigger] w.owned_keys(player).contains(k)
        && w.world@[k].army is Some && w.world@[k].army->0.can_move
}

impl World {
    /// The keys of the tiles `player` owns, each once, in the index's order.
    pub fn player_keys(&self, player: usize) -> (v: Vec<u64>)
        requires
            self.wf(),
        ensures
            v@.to_set() == self.owned_keys(player),
            v@.no_duplicates(),
    {
        let mut v: Vec<u64> = Vec::new();
        match self.cubes_by_ownership.get(&player) {
            None => {
                assert(self.owned_keys(player) =~= Set::empty()) by {
                    if exists|k: u64| self.owned_keys(player).contains(k) {
                        let k = choose|k: u64| self.owned_keys(player).contains(k);
                        assert(self.world@.contains_key(k) && self.world@[k].owner_index is Some);
                    }
                }
                assert(v@.to_set() =~= Set::empty());
            },
            Some(cubes) => {
                let ghost all = cubes.iter().remaining();
                for k in it: cubes.iter()
                    invariant
                        all == it.seq(),
                        all.no_duplicates(),
                        v@ == it.seq().take(it.index() as int).map_values(|x: &u64| *x),
                {
                    v.push(*k);
                    assert(v@ =~= it.seq().take(it.index() + 1).map_values(|x: &u64| *x));
                }
                assert(v@ =~= all.unref());
                assert(cubes@ == self.owned_keys(player));
            },
        }
        v
    }

    /// Does `player` still have an army that may move?
    pub fn can_player_issue_a_command(&self, player_index: &usize) -> (b: bool)
        requires
            self.wf(),
        ensures
            b == has_movable_army(*self, *player_index),
    {
        let keys = self.player_keys(*player_index);
        let mut i: usize = 0;
        while i < keys.len()
            invariant
                self.wf(),
                keys@.to_set() == self.owned_keys(*player_index),
                0 <= i <= keys.len(),
                forall|j: int| 0 <= j < i ==> !(self.world@[#[trigger] keys@[j]].army is Some
                    && self.world@[keys@[j]].army->0.can_move),
            decreases keys.len() - i,
        {
            let k = keys[i];
            assert(keys@.to_set().contains(k));
            let tile = self.world.get(&k).unwrap();
            if let Some(army) = &tile.army {
                if army.can_move {
                    return true;
                }
            }
            i = i + 1;
        }
        assert forall|k: u64| #[trigger] self.owned_keys(*player_index).contains(k)
            implies !(self.world@[k].army is Some && self.world@[k].army->0.can_move) by {
            assert(keys@.to_set().contains(k));
            let j = choose|j: int| 0 <= j < keys@.len() && keys@[j] == k;
        }
        false
    }

    /// At the end of its owner's turn, every army of `player_index` that
    /// could still move loses `MORALE_PENALTY_IDLE_ARMY` morale, bounded by
    /// the player's total manpower.
    pub fn apply_idle_morale_penalty(&mut self, player_index: usize)
        requires
            old(self).wf(),
        ensures
            final(self).wf(),
            final(self).world@ == old(self).world@.map_values(|t: Tile| adjusted(t, idle_penalty(old(self).world@, player_index))),
    {
        let total = self.player_total_manpower(player_index);
        let adj = ArmyAdjustment::Penalty { owner: player_index, penalty: MORALE_PENALTY_IDLE_ARMY, total, only_idle: true };
        self.adjust_armies(&adj);
    }
}

/// The adjustment for the idle armies of `player` at the end of its turn.
pub open spec fn idle_penalty(m: Map<u64, Tile>, player: usize) -> ArmyAdjustment {
    ArmyAdjustment::Penalty {
        owner: player,
        penalty: MORALE_PENALTY_IDLE_ARMY,
        total: total_manpower(m, player) as i32,
        only_idle: true,
    }
}

/// The lowest morale an army of `player_index` can be pushed to: one point
/// per fifty men the player holds (an army never has more morale than men).
pub fn calculate_minimum_morale(world: &World, player_index: usize) -> (m: i32)
    requires
        world.wf(),
    ensures
        m == total_manpower(world.world@, player_index) / 50,
{
    world.player_total_manpower(player_index) / 50
}

/// The tile after its owner `from` surrendered to `to`: a tile of `from`
/// passes to `to` and loses its army; any other tile is unchanged.
pub open spec fn surrendered(t: Tile, from: usize, to: usize) -> Tile {
    if t.owner_index == Some(from) {
        Tile { army: None, owner_index: Some(to), ..t }
    } else {
        t
    }
}

impl World {
    /// Every tile of `surrendering_player_index` passes to
    /// `conquering_player_index`, emptied of its army.
    pub fn surrender_to_player(&mut self, surrendering_player_index: &usize, conquering_player_index: &usize)
        requires
            old(self).wf(),
            old(self).cubes_by_ownership@.contains_key(*surrendering_player_index),
        ensures
            final(self).wf(),
            final(self).world@ == old(self).world@.map_values(
                |t: Tile| surrendered(t, *surrendering_player_index, *conquering_player_index)),
    {
        let from = *surrendering_player_index;
        let to = *conquering_player_index;
        let ghost m = self.world@;
        let keys = self.player_keys(from);
        assert(keys@.to_set() =~= owned_in(m, from));
        let mut i: usize = 0;
        while i < keys.len()
            invariant
                self.wf(),
                keys@.to_set() == owned_in(m, from),
                keys@.no_duplicates(),
                0 <= i <= keys.len(),
                self.world@.dom() == m.dom(),
                m.dom().len() <= MAX_TILES,
                forall|j: int| 0 <= j < i ==> #[trigger] self.world@[keys@[j]] == surrendered(m[keys@[j]], from, to),
                forall|k: u64| #[trigger] self.world@.contains_key(k) && !keys@.take(i as int).contains(k) ==> self.world@[k] == m[k],
            decreases keys.len() - i,
        {
            let k = keys[i];
            assert(keys@.to_set().contains(k));
            assert(!keys@.take(i as int).contains(k)) by {
                if keys@.take(i as int).contains(k) {
                    let j = choose|j: int| 0 <= j < i && keys@.take(i as int)[j] == k;
                    assert(keys@[j] == keys@[i as int]);
                }
            }
            let c = Cube::from_key(k);
            let mut t = self.remove(&c).unwrap();
            t.army = None;
            t.owner_index = Some(to);
            proof {
                vstd::set_lib::lemma_len_subset(self.world@.dom(), m.dom());
                assert(self.world@.dom().len() < m.dom().len()) by {
                    assert(m.dom().remove(k) =~= self.world@.dom());
                }
            }
            self.insert(c, t);
            assert(self.world@.dom() =~= m.dom());
            assert forall|k2: u64| #[trigger] self.world@.contains_key(k2) && !keys@.take(i + 1).contains(k2)
                implies self.world@[k2] == m[k2] by {
                assert(k2 != k) by {
                    assert(keys@.take(i + 1)[i as int] == k);
                }
                assert(!keys@.take(i as int).contains(k2)) by {
                    if keys@.take(i as int).contains(k2) {
                        let j = choose|j: int| 0 <= j < i && keys@.take(i as int)[j] == k2;
                        assert(keys@.take(i + 1)[j] == k2);
                    }
                }
            }
            assert forall|j: int| 0 <= j < i + 1 implies #[trigger] self.world@[keys@[j]] == surrendered(m[keys@[j]], from, to) by {
                if j < i {
                    assert(keys@[j] != k);
                }
            }
            i = i + 1;
        }
        assert(self.world@ =~= m.map_values(|t: Tile| surrendered(t, from, to))) by {
            assert forall|k: u64| #[trigger] self.world@.contains_key(k) implies self.world@[k] == surrendered(m[k], from, to) by {
                if keys@.to_set().contains(k) {
                    let j = choose|j: int| 0 <= j < keys@.len() && keys@[j] == k;
                } else {
                    assert(!keys@.take(keys@.len() as int).contains(k)) by {
                        assert(keys@.take(keys@.len() as int) =~= keys@);
                    }
                }
            }
        }
    }

    /// The tile table and the ownership index, to be changed separately.
    pub fn split_fields(&mut self) -> ((tiles, cubes): (&mut HashMap<u64, Tile>, &mut HashMap<usize, HashSet<u64>>))
        ensures
            *tiles == old(self).world,
            *cubes == old(self).cubes_by_ownership,
            final(self).world == *final(tiles),
            final(self).cubes_by_ownership == *final(cubes),
            final(self).cubes_with_airport == old(self).cubes_with_airport,
    {
        (&mut self.world, &mut self.cubes_by_ownership)
    }
}

impl Tile {
    /// The player who owns this tile, if any.
    pub fn owner<'a>(&self, players: &'a mut Vec<Player>) -> (r: Option<&'a mut Player>)
        requires
            self.owner_index matches Some(i) ==> i < old(players).len(),
        ensures
            self.owner_index is None ==> r is None && final(players)@ == old(players)@,
            self.owner_index matches Some(i) ==> r matches Some(p) && *p == old(players)@[i as int]
                && final(players)@ == old(players)@.update(i as int, *final(p)),
    {
        match self.owner_index {
            Some(index) => Some(&mut players[index]),
            None => None,
        }
    }
}

/// Carries out the order of the army at `origin_cube` against
/// `target_cube` (see `order_outcome`), then spends one action of the
/// player who owned the origin tile when the order was given.
pub fn issue_order(world: &mut World, players: &mut Vec<Player>, origin_cube: &Cube<i32>, target_cube: &Cube<i32>)
    requires
        old(world).wf(),
        old(world).has(*origin_cube),
        old(world).has(*target_cube),
        *origin_cube != *target_cube,
        fits(*target_cube, 1),
        owned_army_at(old(world).world@, key_of(*origin_cube)),
        old(world).at(*target_cube).army matches Some(a) ==> a.owner_index is Some,
        old(world).world@[key_of(*origin_cube)].owner_index matches Some(i)
            && i < old(players).len() && old(players)@[i as int].actions > i32::MIN,
    ensures
        final(world).wf(),
        final(world).world@ == order_outcome(old(world).world@, *origin_cube, *target_cube),
        ({
            let i = old(world).world@[key_of(*origin_cube)].owner_index->0 as int;
            final(players)@ == old(players)@.update(i, Player { actions: (old(players)@[i].actions - 1) as i32, ..old(players)@[i] })
        }),
{
    let owner_index = world.get(origin_cube).unwrap().owner_index.unwrap();
    world.execute_army_order(origin_cube, target_cube);
    let owner = &mut players[owner_index];
    owner.actions = owner.actions - 1;
}

} // verus!
