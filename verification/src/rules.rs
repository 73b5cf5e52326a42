//! Settings of a match that do not change while it is played.

use vstd::prelude::*;
use std::collections::HashMap;

verus! {

broadcast use vstd::std_specs::hash::group_hash_axioms;

/// Fog of war for each of `players` players and for the spectator slot
/// after them: switched on everywhere.
pub fn default_fog_of_war(players: usize) -> (m: HashMap<usize, bool>)
    requires
        players < usize::MAX,
    ensures
        m@ == Map::new(|i: usize| i <= players, |i: usize| true),
{
    let mut m: HashMap<usize, bool> = HashMap::new();
    let mut i: usize = 0;
    while i <= players
        invariant
            i <= players + 1,
            players < usize::MAX,
            m@ == Map::new(|j: usize| j < i, |j: usize| true),
        decreases players + 1 - i,
    {
        m.insert(i, true);
        assert(m@ =~= Map::new(|j: usize| j < i + 1, |j: usize| true));
        i = i + 1;
    }
    assert(m@ =~= Map::new(|j: usize| j <= players, |j: usize| true));
    m
}

} // verus!
