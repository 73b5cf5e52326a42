//! Changes applied to many armies at once: morale after a capture or a lost
//! battle, the penalty for idle armies, and the new turn's refresh.

use vstd::prelude::*;
use super::{World, Tile, Army, tile_ok, army_ok, has_airport, MAX_STACK_SIZE};
use super::army::{bonus_applied, penalty_applied};

verus! {

broadcast use vstd::std_specs::hash::group_hash_axioms;

/// A change applied to every army of the world that it concerns.
#[allow(inconsistent_fields)]
pub enum ArmyAdjustment {
    /// After a capture: armies on tiles of `origin_owner` gain `bonus`; if a
    /// `penalty` is given, armies on tiles of `target_owner` lose it, bounded
    /// by that owner's `total` manpower.
    Capture { origin_owner: Option<usize>, bonus: i32, target_owner: Option<usize>, penalty: Option<i32>, total: i32 },
    /// Armies on tiles of `owner` lose `penalty` morale, bounded by the owner's
    /// `total` manpower; with `only_idle`, only armies that could still move.
    Penalty { owner: usize, penalty: i32, total: i32, only_idle: bool },
    /// Every army may move again.
    Refresh,
}

/// The adjustment is within the bounds the army methods accept.
pub open spec fn adjustment_ok(adj: ArmyAdjustment) -> bool {
    match adj {
        ArmyAdjustment::Capture { bonus, penalty, total, .. } => {
            &&& 0 < bonus <= 100
            &&& penalty matches Some(p) ==> 0 < p <= 100 && total >= 0
        },
        ArmyAdjustment::Penalty { penalty, total, .. } => 0 < penalty <= i32::MAX - 100 && total >= 0,
        ArmyAdjustment::Refresh => true,
    }
}

/// The army after the adjustment, given the owner of the tile it stands on.
pub open spec fn adjusted_army(a: Army, tile_owner: Option<usize>, adj: ArmyAdjustment) -> Army {
    match adj {
        ArmyAdjustment::Capture { origin_owner, bonus, target_owner, penalty, total } => {
            if tile_owner == origin_owner {
                bonus_applied(a, bonus as int)
            } else if tile_owner == target_owner && penalty is Some {
                penalty_applied(a, penalty->0 as int, total as int)
            } else {
                a
            }
        },
        ArmyAdjustment::Penalty { owner, penalty, total, only_idle } => {
            if tile_owner == Some(owner) && (!only_idle || a.can_move) {
                penalty_applied(a, penalty as int, total as int)
            } else {
                a
            }
        },
        ArmyAdjustment::Refresh => Army { can_move: true, ..a },
    }
}

/// The tile after the adjustment: only its army changes.
pub open spec fn adjusted(t: Tile, adj: ArmyAdjustment) -> Tile {
    match t.army {
        Some(a) => Tile { army: Some(adjusted_army(a, t.owner_index, adj)), ..t },
        None => t,
    }
}

/// Applies the adjustment to the army on one tile.
pub fn adjust_tile(t: Tile, adj: &ArmyAdjustment) -> (r: Tile)
    requires
        tile_ok(t),
        adjustment_ok(*adj),
    ensures
        r == adjusted(t, *adj),
        tile_ok(r),
{
    let Tile { owner_index, category, locality, army } = t;
    let army = match army {
        Some(mut a) => {
            match adj {
                ArmyAdjustment::Capture { origin_owner, bonus, target_owner, penalty, total } => {
                    if same_owner(owner_index, *origin_owner) {
                        a.apply_morale_bonus(*bonus);
                    } else if same_owner(owner_index, *target_owner) {
                        if let Some(p) = penalty {
                            a.apply_morale_penalty(*p, *total);
                        }
                    }
                },
                ArmyAdjustment::Penalty { owner, penalty, total, only_idle } => {
                    if same_owner(owner_index, Some(*owner)) && (!*only_idle || a.can_move) {
                        a.apply_morale_penalty(*penalty, *total);
                    }
                },
                ArmyAdjustment::Refresh => {
                    a.can_move = true;
                },
            }
            Some(a)
        },
        None => None,
    };
    Tile { owner_index, category, locality, army }
}

/// Compares two optional owners.
pub fn same_owner(a: Option<usize>, b: Option<usize>) -> (r: bool)
    ensures
        r == (a == b),
{
    match (a, b) {
        (Some(x), Some(y)) => x == y,
        (None, None) => true,
        _ => false,
    }
}

impl World {
    /// Applies the adjustment to every army in the world.
    pub fn adjust_armies(&mut self, adj: &ArmyAdjustment)
        requires
            old(self).wf(),
            adjustment_ok(*adj),
        ensures
            final(self).wf(),
            final(self).world@ == old(self).world@.map_values(|t: Tile| adjusted(t, *adj)),
            final(self).world@.dom() == old(self).world@.dom(),
            final(self).cubes_by_ownership == old(self).cubes_by_ownership,
            final(self).cubes_with_airport == old(self).cubes_with_airport,
    {
        let ghost old_map = self.world@;
        let keys = self.keys_vec();
        let mut i: usize = 0;
        while i < keys.len()
            invariant
                old(self).wf(),
                adjustment_ok(*adj),
                old_map == old(self).world@,
                keys@.to_set() == old_map.dom(),
                keys@.no_duplicates(),
                0 <= i <= keys.len(),
                self.world@.dom() == old_map.dom(),
                self.cubes_by_ownership == old(self).cubes_by_ownership,
                self.cubes_with_airport == old(self).cubes_with_airport,
                forall|j: int| 0 <= j < i ==> #[trigger] self.world@[keys@[j]] == adjusted(old_map[keys@[j]], *adj),
                forall|k: u64| #[trigger] self.world@.contains_key(k) && !keys@.take(i as int).contains(k) ==> self.world@[k] == old_map[k],
            decreases keys.len() - i,
        {
            let k = keys[i];
            assert(keys@.to_set().contains(k));
            assert(!keys@.take(i as int).contains(k)) by {
                if keys@.take(i as int).contains(k) {
                    let j = choose|j: int| 0 <= j < i && keys@.take(i as int)[j] == k;
                    assert(keys@[j] == keys@[i as int]);
                }
            }
            let t = self.world.remove(&k).unwrap();
            let t = adjust_tile(t, adj);
            self.world.insert(k, t);
            assert forall|k2: u64| #[trigger] self.world@.contains_key(k2) && !keys@.take(i + 1).contains(k2) implies self.world@[k2] == old_map[k2] by {
                assert(k2 != k) by {
                    assert(keys@.take(i + 1)[i as int] == k);
                }
                assert(!keys@.take(i as int).contains(k2)) by {
                    if keys@.take(i as int).contains(k2) {
                        let j = choose|j: int| 0 <= j < i && keys@.take(i as int)[j] == k2;
                        assert(keys@.take(i + 1)[j] == k2);
                    }
                }
            }
            assert forall|j: int| 0 <= j < i + 1 implies #[trigger] self.world@[keys@[j]] == adjusted(old_map[keys@[j]], *adj) by {
                if j < i {
                    assert(keys@[j] != k);
                }
            }
            i = i + 1;
        }
        assert(self.world@ =~= old_map.map_values(|t: Tile| adjusted(t, *adj))) by {
            assert forall|k: u64| #[trigger] self.world@.contains_key(k) implies self.world@[k] == adjusted(old_map[k], *adj) by {
                assert(keys@.to_set().contains(k));
                let j = choose|j: int| 0 <= j < keys@.len() && keys@[j] == k;
            }
        }
        proof {
            assert(self.owned_keys_eq(old(self)));
        }
    }

    /// Same tiles, owners and airports as `other`, and every army within limits.
    pub open spec fn owned_keys_eq(&self, other: &World) -> bool {
        &&& forall|i: usize| self.owned_keys(i) =~= other.owned_keys(i)
        &&& self.airport_keys() =~= other.airport_keys()
    }
}

} // verus!
