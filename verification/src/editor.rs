//! The map editor: a brush that paints terrain, localities or owners onto
//! the tiles of a world.

use vstd::prelude::*;
use crate::cubic::{Cube, key_of};
use crate::world::{World, Tile, TileCategory, Locality, LocalityCategory, Player, MAX_TILES, tile_ok};

verus! {

broadcast use vstd::std_specs::hash::group_hash_axioms;

/// What the brush paints.
#[derive(Clone, Copy, PartialEq, Eq, Debug, Structural)]
pub enum BrushLayer {
    Tile,
    Locality,
    Owner,
}

/// The brush: the layer it paints, the item chosen on that layer, and its size.
pub struct Brush {
    pub idx: usize,
    pub layer: BrushLayer,
    pub size: usize,
}

impl Default for Brush {
    /// Paints the first terrain, one tile at a time.
    fn default() -> (b: Self)
        ensures
            b.idx == 0,
            b.layer == BrushLayer::Tile,
            b.size == 1,
    {
        Brush { idx: 0, layer: BrushLayer::Tile, size: 1 }
    }
}

/// A world being edited, with its players and the brush.
pub struct Editor {
    pub world: World,
    pub players: Vec<Player>,
    pub brush: Brush,
}

/// The terrains in the order the brush goes through them.
pub open spec fn tile_category_at(i: int) -> Option<TileCategory> {
    if i == 0 {
        Some(TileCategory::Farmland)
    } else if i == 1 {
        Some(TileCategory::Water)
    } else {
        None
    }
}

/// The localities in the order the brush goes through them.
pub open spec fn locality_category_at(i: int) -> Option<LocalityCategory> {
    if i == 0 {
        Some(LocalityCategory::City)
    } else if i == 1 {
        Some(LocalityCategory::PortCity)
    } else if i == 2 {
        Some(LocalityCategory::Capital)
    } else if i == 3 {
        Some(LocalityCategory::SatelliteCapital)
    } else if i == 4 {
        Some(LocalityCategory::Airport)
    } else {
        None
    }
}

/// How many items the brush can choose from on `layer`, with `players`
/// players: two terrains, five localities, or one owner per player.
pub open spec fn layer_items(layer: BrushLayer, players: nat) -> int {
    match layer {
        BrushLayer::Tile => 2,
        BrushLayer::Locality => 5,
        BrushLayer::Owner => players as int,
    }
}

/// The layer after `layer`, the last one followed by the first.
pub open spec fn next_layer(layer: BrushLayer) -> BrushLayer {
    match layer {
        BrushLayer::Tile => BrushLayer::Locality,
        BrushLayer::Locality => BrushLayer::Owner,
        BrushLayer::Owner => BrushLayer::Tile,
    }
}

/// The world after terrain `category` is painted at `k`: an existing tile
/// takes the terrain, else a new empty tile of it appears.
pub open spec fn terrain_painted(m: Map<u64, Tile>, k: u64, category: TileCategory) -> Map<u64, Tile> {
    if m.contains_key(k) {
        m.insert(k, Tile { category, ..m[k] })
    } else {
        m.insert(k, Tile { owner_index: None, category, locality: None, army: None })
    }
}

/// `t` is `before` given a new unnamed locality of `category`, owned by a
/// new player `new_player` when it is a capital.
pub open spec fn locality_painted(t: Tile, before: Tile, category: LocalityCategory, new_player: usize) -> bool {
    &&& t.category == before.category
    &&& t.army == before.army
    &&& t.owner_index == if category == LocalityCategory::Capital { Some(new_player) } else { before.owner_index }
    &&& t.locality matches Some(l) && l.category == category && l.name@ == Seq::<char>::empty()
        && l.starting_owner_index is None
}

impl World {
    /// Hands the tile at `c` to `owner`, keeping the indexes in step.
    pub fn set_tile_owner(&mut self, c: &Cube<i32>, owner: usize)
        requires
            old(self).wf(),
            old(self).has(*c),
        ensures
            final(self).wf(),
            final(self).world@ == old(self).world@.insert(key_of(*c), Tile { owner_index: Some(owner), ..old(self).at(*c) }),
    {
        let t = self.remove(c).unwrap();
        let t = Tile { owner_index: Some(owner), ..t };
        proof {
            assert(self.world@.dom() =~= old(self).world@.dom().remove(key_of(*c)));
            vstd::set_lib::lemma_len_subset(self.world@.dom(), old(self).world@.dom());
        }
        self.insert(*c, t);
    }
}

impl Editor {
    /// An editor of `world` with its `players` and the default brush.
    pub fn new(world: World, players: Vec<Player>) -> (e: Self)
        ensures
            e.world == world,
            e.players == players,
            e.brush.idx == 0,
            e.brush.layer == BrushLayer::Tile,
            e.brush.size == 1,
    {
        Editor { world, players, brush: Brush::default() }
    }

    /// Paints the chosen terrain at `cube`, or removes the tile when the
    /// brush is past the last terrain.
    pub fn paint_tile(&mut self, cube: &Cube<i32>)
        requires
            old(self).world.wf(),
            old(self).world.has(*cube) || old(self).world.world@.len() < MAX_TILES,
        ensures
            final(self).world.wf(),
            final(self).world.world@ == match tile_category_at(old(self).brush.idx as int) {
                Some(category) => terrain_painted(old(self).world.world@, key_of(*cube), category),
                None => old(self).world.world@.remove(key_of(*cube)),
            },
            final(self).players == old(self).players,
            final(self).brush == old(self).brush,
    {
        let category = if self.brush.idx == 0 {
            Some(TileCategory::Farmland)
        } else if self.brush.idx == 1 {
            Some(TileCategory::Water)
        } else {
            None
        };
        match category {
            Some(category) => {
                let t = match self.world.remove(cube) {
                    Some(t) => Tile { category, ..t },
                    None => Tile::new(category),
                };
                proof {
                    vstd::set_lib::lemma_len_subset(self.world.world@.dom(), old(self).world.world@.dom());
                    assert(self.world.world@.dom() =~= old(self).world.world@.dom().remove(key_of(*cube)));
                }
                self.world.insert(*cube, t);
                assert(self.world.world@ =~= terrain_painted(old(self).world.world@, key_of(*cube), category));
            },
            None => {
                self.world.remove(cube);
            },
        }
    }

    /// Paints the chosen locality at `cube`: a tile without a locality gets
    /// a new unnamed one, and a capital also brings a new player who owns
    /// it; a tile that has a locality keeps it. Past the last locality, the
    /// brush removes the locality of the tile.
    pub fn paint_locality(&mut self, cube: &Cube<i32>)
        requires
            old(self).world.wf(),
        ensures
            final(self).world.wf(),
            final(self).brush == old(self).brush,
            final(self).world.world@.dom() == old(self).world.world@.dom(),
            ({
                let m = old(self).world.world@;
                let k = key_of(*cube);
                match locality_category_at(old(self).brush.idx as int) {
                    Some(category) => if m.contains_key(k) && m[k].locality is None {
                        &&& locality_painted(final(self).world.world@[k], m[k], category, old(self).players.len() as usize)
                        &&& forall|k2: u64| #[trigger] m.contains_key(k2) && k2 != k ==> final(self).world.world@[k2] == m[k2]
                        &&& final(self).players@.len() == old(self).players@.len()
                            + if category == LocalityCategory::Capital { 1int } else { 0int }
                        &&& forall|i: int| 0 <= i < old(self).players@.len() ==> #[trigger] final(self).players@[i] == old(self).players@[i]
                        &&& category == LocalityCategory::Capital ==> ({
                            let p = final(self).players@[old(self).players@.len() as int];
                            &&& p.name@ == Seq::<char>::empty()
                            &&& p.actions == crate::world::ACTIONS_PER_TURN
                            &&& p.ai is None
                            &&& p.selection is None
                            &&& p.capital_pos is None
                        })
                    } else {
                        final(self).world.world@ == m && final(self).players == old(self).players
                    },
                    None => final(self).players == old(self).players && final(self).world.world@ == if m.contains_key(k) {
                        m.insert(k, Tile { locality: None, ..m[k] })
                    } else {
                        m
                    },
                }
            }),
    {
        let idx = self.brush.idx;
        let category = if idx == 0 {
            Some(LocalityCategory::City)
        } else if idx == 1 {
            Some(LocalityCategory::PortCity)
        } else if idx == 2 {
            Some(LocalityCategory::Capital)
        } else if idx == 3 {
            Some(LocalityCategory::SatelliteCapital)
        } else if idx == 4 {
            Some(LocalityCategory::Airport)
        } else {
            None
        };
        let has_tile = self.world.get(cube).is_some();
        if !has_tile {
            return;
        }
        let ghost m = self.world.world@;
        let t = self.world.remove(cube).unwrap();
        proof {
            vstd::set_lib::lemma_len_subset(self.world.world@.dom(), m.dom());
            assert(self.world.world@.dom() =~= m.dom().remove(key_of(*cube)));
        }
        match category {
            Some(category) => {
                if t.locality.is_some() {
                    self.world.insert(*cube, t);
                    assert(self.world.world@ =~= m);
                    return;
                }
                let locality = Locality::new("", category);
                proof {
                    reveal_strlit("");
                    assert(locality.name@ =~= Seq::<char>::empty());
                }
                let mut t = Tile { locality: Some(locality), ..t };
                if category == LocalityCategory::Capital {
                    let player_count = self.players.len();
                    self.players.push(Player::new("", None));
                    t = Tile { owner_index: Some(player_count), ..t };
                }
                self.world.insert(*cube, t);
            },
            None => {
                let t = Tile { locality: None, ..t };
                self.world.insert(*cube, t);
                assert(self.world.world@ =~= m.insert(key_of(*cube), Tile { locality: None, ..m[key_of(*cube)] }));
            },
        }
        assert(self.world.world@.dom() =~= m.dom());
    }

    /// Paints with the brush at `cube`, on its current layer: terrain,
    /// locality, or the chosen player as owner of an existing tile.
    pub fn click(&mut self, cube: &Cube<i32>)
        requires
            old(self).world.wf(),
            old(self).brush.layer == BrushLayer::Tile ==> old(self).world.has(*cube)
                || old(self).world.world@.len() < MAX_TILES,
        ensures
            final(self).world.wf(),
            final(self).brush == old(self).brush,
            old(self).brush.layer == BrushLayer::Owner ==> final(self).players == old(self).players
                && final(self).world.world@ == if old(self).world.has(*cube) {
                    old(self).world.world@.insert(key_of(*cube), Tile { owner_index: Some(old(self).brush.idx), ..old(self).world.at(*cube) })
                } else {
                    old(self).world.world@
                },
    {
        match self.brush.layer {
            BrushLayer::Tile => self.paint_tile(cube),
            BrushLayer::Locality => self.paint_locality(cube),
            BrushLayer::Owner => {
                if self.world.get(cube).is_some() {
                    let owner = self.brush.idx;
                    self.world.set_tile_owner(cube, owner);
                }
            },
        }
    }

    /// Moves the brush to the next item of its layer, wrapping round after
    /// one step past the last (the step that removes).
    pub fn right_click(&mut self)
        requires
            old(self).brush.idx < usize::MAX,
            old(self).players.len() < usize::MAX,
        ensures
            final(self).brush.idx == (old(self).brush.idx + 1) % (layer_items(old(self).brush.layer, old(self).players@.len()) + 1),
            final(self).brush.layer == old(self).brush.layer,
            final(self).brush.size == old(self).brush.size,
            final(self).world == old(self).world,
            final(self).players == old(self).players,
    {
        self.brush.idx = self.brush.idx + 1;
        let max: usize = match self.brush.layer {
            BrushLayer::Tile => 2,
            BrushLayer::Locality => 5,
            BrushLayer::Owner => self.players.len(),
        };
        self.brush.idx = self.brush.idx % (max + 1);
    }

    /// Moves the brush to the next layer, on its first item.
    pub fn toggle_layer(&mut self)
        ensures
            final(self).brush.layer == next_layer(old(self).brush.layer),
            final(self).brush.idx == 0,
            final(self).brush.size == old(self).brush.size,
            final(self).world == old(self).world,
            final(self).players == old(self).players,
    {
        self.brush.layer = match self.brush.layer {
            BrushLayer::Tile => BrushLayer::Locality,
            BrushLayer::Locality => BrushLayer::Owner,
            BrushLayer::Owner => BrushLayer::Tile,
        };
        self.brush.idx = 0;
    }
}

} // verus!
