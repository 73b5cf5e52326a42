//! What a player can see of the world: tiles in clear view, tiles seen
//! before but not now (shroud), and tiles never seen (fog).

use vstd::prelude::*;
use std::collections::HashMap;
use std::collections::HashSet;
use vstd::std_specs::iter::IteratorSpec;
use crate::cubic::{Cube, key_of, disc_seq};
use crate::world::{World, Tile};

verus! {

broadcast use vstd::std_specs::hash::group_hash_axioms;

/// How much of a tile a player sees.
#[derive(Clone, Copy, PartialEq, Eq, Debug, Structural)]
pub enum Visibility {
    Clear,
    Shroud,
    Fog,
}

/// A player's view of every tile, keyed by `key_of` of its cube.
pub struct VisibilityMask(pub HashMap<u64, Visibility>);

/// The observers of a player, keyed by `key_of` of their cube, with how many
/// times each is counted.
pub struct Fog(pub HashMap<u64, usize>);

/// The keys of a table, each once.
pub fn key_list<V>(m: &HashMap<u64, V>) -> (v: Vec<u64>)
    ensures
        v@.to_set() == m@.dom(),
        v@.no_duplicates(),
{
    let mut v: Vec<u64> = Vec::new();
    let ghost all = m.keys().remaining();
    for k in it: m.keys()
        invariant
            all == it.seq(),
            v@ == it.seq().take(it.index() as int).map_values(|x: &u64| *x),
    {
        v.push(*k);
        assert(v@ =~= it.seq().take(it.index() + 1).map_values(|x: &u64| *x));
    }
    assert(v@ =~= all.unref());
    v
}

/// The members of a set, each once.
pub fn set_list(s: &HashSet<u64>) -> (v: Vec<u64>)
    ensures
        v@.to_set() == s@,
        v@.no_duplicates(),
{
    let mut v: Vec<u64> = Vec::new();
    let ghost all = s.iter().remaining();
    for k in it: s.iter()
        invariant
            all == it.seq(),
            all.no_duplicates(),
            all.unref().to_set() == s@,
            v@ == it.seq().take(it.index() as int).map_values(|x: &u64| *x),
    {
        v.push(*k);
        assert(v@ =~= it.seq().take(it.index() + 1).map_values(|x: &u64| *x));
    }
    assert(v@ =~= all.unref());
    v
}

/// The tile lets `player` look around it: the player owns it or has an army on it.
pub open spec fn observes(t: Tile, player: usize) -> bool {
    t.owner_index == Some(player) || (t.army matches Some(a) && a.owner_index == Some(player))
}

/// What `player` sees of a tile before any look around.
pub open spec fn initial_visibility(t: Tile, player: usize) -> Visibility {
    if observes(t, player) {
        Visibility::Clear
    } else {
        Visibility::Fog
    }
}

/// The keys of the neighbours of the tiles of `w` that `player` observes
/// from, among the tiles whose keys are in `from`.
pub open spec fn observed_from(w: World, player: usize, from: Set<u64>) -> Set<u64> {
    Set::new(|k: u64| exists|c: Cube<i32>, i: int|
        from.contains(key_of(c)) && w.has(c) && observes(w.at(c), player) && 0 <= i < 6
            && k == key_of(#[trigger] disc_seq(c, 1)[i]))
}

/// The mask after a look around: the `observed` tiles are in clear view,
/// other tiles seen before are shrouded, the rest stays in fog.
pub open spec fn updated_mask(mask: Map<u64, Visibility>, observed: Set<u64>) -> Map<u64, Visibility> {
    Map::new(
        |k: u64| mask.contains_key(k) || observed.contains(k),
        |k: u64| if observed.contains(k) {
            Visibility::Clear
        } else if mask[k] != Visibility::Fog {
            Visibility::Shroud
        } else {
            Visibility::Fog
        },
    )
}

/// Does the tile let `player` look around it?
pub fn is_observer(t: &Tile, player: usize) -> (b: bool)
    ensures
        b == observes(*t, player),
{
    let owns = match t.owner_index {
        Some(i) => i == player,
        None => false,
    };
    let army_here = match &t.army {
        Some(a) => match a.owner_index {
            Some(i) => i == player,
            None => false,
        },
        None => false,
    };
    owns || army_here
}

impl VisibilityMask {
    /// The view of `player` before any look around: the tiles it owns or
    /// has an army on are clear, the others in fog.
    pub fn new(world: &World, player: usize) -> (r: Self)
        ensures
            r.0@ == world.world@.map_values(|t: Tile| initial_visibility(t, player)),
    {
        let keys = world.keys_vec();
        let mut mask: HashMap<u64, Visibility> = HashMap::new();
        let mut i: usize = 0;
        while i < keys.len()
            invariant
                keys@.to_set() == world.world@.dom(),
                keys@.no_duplicates(),
                0 <= i <= keys.len(),
                mask@ == Map::new(|k: u64| keys@.take(i as int).contains(k),
                    |k: u64| initial_visibility(world.world@[k], player)),
            decreases keys.len() - i,
        {
            let k = keys[i];
            assert(keys@.to_set().contains(k));
            let tile = world.world.get(&k).unwrap();
            let v = if is_observer(tile, player) { Visibility::Clear } else { Visibility::Fog };
            mask.insert(k, v);
            assert(mask@ =~= Map::new(|k2: u64| keys@.take(i + 1).contains(k2),
                |k2: u64| initial_visibility(world.world@[k2], player))) by {
                assert forall|k2: u64| keys@.take(i + 1).contains(k2) <==> (keys@.take(i as int).contains(k2) || k2 == k) by {
                    if keys@.take(i + 1).contains(k2) {
                        let j = choose|j: int| 0 <= j < i + 1 && #[trigger] keys@.take(i + 1)[j] == k2;
                        if j < i {
                            assert(keys@.take(i as int)[j] == k2);
                        }
                    }
                    if keys@.take(i as int).contains(k2) {
                        let j = choose|j: int| 0 <= j < i && #[trigger] keys@.take(i as int)[j] == k2;
                        assert(keys@.take(i + 1)[j] == k2);
                    }
                    if k2 == k {
                        assert(keys@.take(i + 1)[i as int] == k2);
                    }
                }
            }
            i = i + 1;
        }
        assert(keys@.take(keys.len() as int) =~= keys@);
        assert(mask@ =~= world.world@.map_values(|t: Tile| initial_visibility(t, player))) by {
            assert forall|k: u64| keys@.contains(k) <==> world.world@.contains_key(k) by {
                assert(keys@.to_set().contains(k) == keys@.contains(k));
            }
        }
        VisibilityMask(mask)
    }

    /// Looks around from every tile `player` observes from: their
    /// neighbours come into clear view, everything else seen before is
    /// shrouded (see `updated_mask`).
    pub fn update(&mut self, world: &World, player: usize)
        requires
            world.within_one_step(),
        ensures
            final(self).0@ == updated_mask(old(self).0@, observed_from(*world, player, world.world@.dom())),
    {
        let ghost old_mask = self.0@;
        let keys = world.keys_vec();
        let mut observed: HashSet<u64> = HashSet::new();
        let mut i: usize = 0;
        while i < keys.len()
            invariant
                world.within_one_step(),
                keys@.to_set() == world.world@.dom(),
                0 <= i <= keys.len(),
                observed@ == observed_from(*world, player, keys@.take(i as int).to_set()),
            decreases keys.len() - i,
        {
            let k = keys[i];
            assert(keys@.to_set().contains(k));
            let cube = Cube::from_key(k);
            let tile = world.world.get(&k).unwrap();
            let ghost before = observed@;
            let ghost prefix = keys@.take(i as int).to_set();
            assert(keys@.take(i + 1).to_set() =~= prefix.insert(k)) by {
                assert(keys@.take(i + 1) =~= keys@.take(i as int).push(k));
                keys@.take(i as int).lemma_push_to_set_commute(k);
            }
            if is_observer(tile, player) {
                assert(world.has(cube));
                let neighbours = cube.disc(1);
                proof {
                    assert(crate::cubic::spec_triangular(1) == 1);
                }
                let mut j: usize = 0;
                while j < 6
                    invariant
                        neighbours@ == disc_seq(cube, 1),
                        neighbours@.len() == 6,
                        0 <= j <= 6,
                        observed@ == before.union(Set::new(|n: u64| exists|jj: int| 0 <= jj < j
                            && n == key_of(#[trigger] neighbours@[jj]))),
                    decreases 6 - j,
                {
                    let n = neighbours[j];
                    observed.insert(n.key());
                    assert(observed@ =~= before.union(Set::new(|n2: u64| exists|jj: int| 0 <= jj < j + 1
                        && n2 == key_of(#[trigger] neighbours@[jj])))) by {
                        assert forall|n2: u64| observed@.contains(n2) implies before.union(Set::new(|n3: u64| exists|jj: int| 0 <= jj < j + 1
                            && n3 == key_of(#[trigger] neighbours@[jj]))).contains(n2) by {
                            if n2 == key_of(n) {
                                assert(neighbours@[j as int] == n);
                            }
                        }
                    }
                    j = j + 1;
                }
                assert(observed@ =~= observed_from(*world, player, prefix.insert(k))) by {
                    assert forall|n2: u64| #[trigger] observed_from(*world, player, prefix.insert(k)).contains(n2)
                        implies observed@.contains(n2) by {
                        let (c, ii) = choose|c: Cube<i32>, ii: int| prefix.insert(k).contains(key_of(c)) && world.has(c)
                            && observes(world.at(c), player) && 0 <= ii < 6 && n2 == key_of(#[trigger] disc_seq(c, 1)[ii]);
                        if key_of(c) == k {
                            crate::cubic::lemma_key_injective(c, cube);
                            assert(neighbours@[ii] == disc_seq(c, 1)[ii]);
                        } else {
                            assert(observed_from(*world, player, prefix).contains(n2));
                        }
                    }
                    assert forall|n2: u64| observed@.contains(n2)
                        implies #[trigger] observed_from(*world, player, prefix.insert(k)).contains(n2) by {
                        if !before.contains(n2) {
                            let jj = choose|jj: int| 0 <= jj < 6 && n2 == key_of(#[trigger] neighbours@[jj]);
                            assert(disc_seq(cube, 1)[jj] == neighbours@[jj]);
                        } else {
                            let (c, ii) = choose|c: Cube<i32>, ii: int| prefix.contains(key_of(c)) && world.has(c)
                                && observes(world.at(c), player) && 0 <= ii < 6 && n2 == key_of(#[trigger] disc_seq(c, 1)[ii]);
                            assert(prefix.insert(k).contains(key_of(c)));
                        }
                    }
                }
            } else {
                assert(observed@ =~= observed_from(*world, player, prefix.insert(k))) by {
                    assert forall|n2: u64| #[trigger] observed_from(*world, player, prefix.insert(k)).contains(n2)
                        implies observed@.contains(n2) by {
                        let (c, ii) = choose|c: Cube<i32>, ii: int| prefix.insert(k).contains(key_of(c)) && world.has(c)
                            && observes(world.at(c), player) && 0 <= ii < 6 && n2 == key_of(#[trigger] disc_seq(c, 1)[ii]);
                        if key_of(c) == k {
                            crate::cubic::lemma_key_injective(c, cube);
                        } else {
                            assert(observed_from(*world, player, prefix).contains(n2));
                        }
                    }
                    assert forall|n2: u64| observed@.contains(n2)
                        implies #[trigger] observed_from(*world, player, prefix.insert(k)).contains(n2) by {
                        let (c, ii) = choose|c: Cube<i32>, ii: int| prefix.contains(key_of(c)) && world.has(c)
                            && observes(world.at(c), player) && 0 <= ii < 6 && n2 == key_of(#[trigger] disc_seq(c, 1)[ii]);
                        assert(prefix.insert(k).contains(key_of(c)));
                    }
                }
            }
            i = i + 1;
        }
        assert(keys@.take(keys.len() as int) =~= keys@);
        let ghost observed_all = observed@;
        assert(observed_all == observed_from(*world, player, world.world@.dom()));
        // Tiles seen before and not observed now are shrouded.
        let mask_keys = key_list(&self.0);
        let mut i: usize = 0;
        while i < mask_keys.len()
            invariant
                mask_keys@.to_set() == old_mask.dom(),
                mask_keys@.no_duplicates(),
                observed@ == observed_all,
                0 <= i <= mask_keys.len(),
                self.0@ == Map::new(|k: u64| old_mask.contains_key(k),
                    |k: u64| if mask_keys@.take(i as int).contains(k) && old_mask[k] != Visibility::Fog && !observed_all.contains(k) {
                        Visibility::Shroud
                    } else {
                        old_mask[k]
                    }),
            decreases mask_keys.len() - i,
        {
            let k = mask_keys[i];
            assert(mask_keys@.to_set().contains(k));
            let v = *self.0.get(&k).unwrap();
            assert(!mask_keys@.take(i as int).contains(k)) by {
                if mask_keys@.take(i as int).contains(k) {
                    let j = choose|j: int| 0 <= j < i && mask_keys@.take(i as int)[j] == k;
                    assert(mask_keys@[j] == mask_keys@[i as int]);
                }
            }
            assert(v == old_mask[k]);
            if v != Visibility::Fog && !observed.contains(&k) {
                self.0.insert(k, Visibility::Shroud);
            }
            assert(self.0@ =~= Map::new(|k2: u64| old_mask.contains_key(k2),
                |k2: u64| if mask_keys@.take(i + 1).contains(k2) && old_mask[k2] != Visibility::Fog && !observed_all.contains(k2) {
                    Visibility::Shroud
                } else {
                    old_mask[k2]
                })) by {
                assert forall|k2: u64| mask_keys@.take(i + 1).contains(k2) <==> (mask_keys@.take(i as int).contains(k2) || k2 == k) by {
                    if mask_keys@.take(i + 1).contains(k2) {
                        let j = choose|j: int| 0 <= j < i + 1 && #[trigger] mask_keys@.take(i + 1)[j] == k2;
                        if j < i {
                            assert(mask_keys@.take(i as int)[j] == k2);
                        }
                    }
                    if mask_keys@.take(i as int).contains(k2) {
                        let j = choose|j: int| 0 <= j < i && #[trigger] mask_keys@.take(i as int)[j] == k2;
                        assert(mask_keys@.take(i + 1)[j] == k2);
                    }
                    if k2 == k {
                        assert(mask_keys@.take(i + 1)[i as int] == k2);
                    }
                }
            }
            i = i + 1;
        }
        assert(mask_keys@.take(mask_keys.len() as int) =~= mask_keys@);
        // Observed tiles are in clear view.
        let observed_keys = set_list(&observed);
        let ghost shrouded = self.0@;
        let mut i: usize = 0;
        while i < observed_keys.len()
            invariant
                observed_keys@.to_set() == observed_all,
                0 <= i <= observed_keys.len(),
                self.0@ == Map::new(|k: u64| shrouded.contains_key(k) || observed_keys@.take(i as int).contains(k),
                    |k: u64| if observed_keys@.take(i as int).contains(k) { Visibility::Clear } else { shrouded[k] }),
            decreases observed_keys.len() - i,
        {
            let k = observed_keys[i];
            self.0.insert(k, Visibility::Clear);
            assert(self.0@ =~= Map::new(|k2: u64| shrouded.contains_key(k2) || observed_keys@.take(i + 1).contains(k2),
                |k2: u64| if observed_keys@.take(i + 1).contains(k2) { Visibility::Clear } else { shrouded[k2] })) by {
                assert forall|k2: u64| observed_keys@.take(i + 1).contains(k2) <==> (observed_keys@.take(i as int).contains(k2) || k2 == k) by {
                    if observed_keys@.take(i + 1).contains(k2) {
                        let j = choose|j: int| 0 <= j < i + 1 && #[trigger] observed_keys@.take(i + 1)[j] == k2;
                        if j < i {
                            assert(observed_keys@.take(i as int)[j] == k2);
                        }
                    }
                    if observed_keys@.take(i as int).contains(k2) {
                        let j = choose|j: int| 0 <= j < i && #[trigger] observed_keys@.take(i as int)[j] == k2;
                        assert(observed_keys@.take(i + 1)[j] == k2);
                    }
                    if k2 == k {
                        assert(observed_keys@.take(i + 1)[i as int] == k2);
                    }
                }
            }
            i = i + 1;
        }
        assert(observed_keys@.take(observed_keys.len() as int) =~= observed_keys@);
        assert(self.0@ =~= updated_mask(old_mask, observed_all)) by {
            assert forall|k: u64| observed_keys@.contains(k) <==> observed_all.contains(k) by {
                assert(observed_keys@.to_set().contains(k) == observed_keys@.contains(k));
            }
            assert forall|k: u64| mask_keys@.contains(k) <==> old_mask.contains_key(k) by {
                assert(mask_keys@.to_set().contains(k) == mask_keys@.contains(k));
            }
        }
    }
}

impl Fog {
    /// No observers.
    pub fn new() -> (f: Self)
        ensures
            f.0@ == Map::<u64, usize>::empty(),
    {
        Fog(HashMap::new())
    }
}

impl World {
    /// The tiles at the keys of `fog`, keyed the same way.
    pub fn get_visible_subset<'a>(&'a self, fog: &Fog) -> (r: HashMap<u64, &'a Tile>)
        ensures
            r@.dom() == fog.0@.dom().intersect(self.world@.dom()),
            forall|k: u64| #[trigger] r@.contains_key(k) ==> *r@[k] == self.world@[k],
    {
        let keys = key_list(&fog.0);
        let mut subset: HashMap<u64, &'a Tile> = HashMap::new();
        let mut i: usize = 0;
        while i < keys.len()
            invariant
                keys@.to_set() == fog.0@.dom(),
                0 <= i <= keys.len(),
                subset@.dom() == keys@.take(i as int).to_set().intersect(self.world@.dom()),
                forall|k: u64| #[trigger] subset@.contains_key(k) ==> *subset@[k] == self.world@[k],
            decreases keys.len() - i,
        {
            let k = keys[i];
            let ghost prefix = keys@.take(i as int).to_set();
            assert(keys@.take(i + 1).to_set() =~= prefix.insert(k)) by {
                assert(keys@.take(i + 1) =~= keys@.take(i as int).push(k));
                keys@.take(i as int).lemma_push_to_set_commute(k);
            }
            if let Some(value) = self.world.get(&k) {
                subset.insert(k, value);
            }
            assert(subset@.dom() =~= keys@.take(i + 1).to_set().intersect(self.world@.dom()));
            i = i + 1;
        }
        assert(keys@.take(keys.len() as int) =~= keys@);
        subset
    }
}

} // verus!
