use honeycomb::cubic::Cube;
use honeycomb::editor::{BrushLayer, Editor};
use honeycomb::world::{LocalityCategory, Player, Tile, TileCategory, World};

fn editor_with(cubes: &[(i32, i32)]) -> Editor {
    let mut w = World::new();
    for &(q, r) in cubes {
        w.insert(Cube::new(q, r), Tile::new(TileCategory::Farmland));
    }
    Editor::new(w, vec![Player::new("a", None)])
}

#[test]
fn new_editor_paints_farmland() {
    let e = editor_with(&[]);
    assert_eq!(e.brush.idx, 0);
    assert_eq!(e.brush.layer, BrushLayer::Tile);
    assert_eq!(e.brush.size, 1);
}

#[test]
fn paint_tile_creates_changes_and_removes() {
    let mut e = editor_with(&[(0, 0)]);
    e.click(&Cube::new(1, 0));
    assert_eq!(e.world.len(), 2);
    assert_eq!(e.world.get(&Cube::new(1, 0)).unwrap().category, TileCategory::Farmland);
    e.right_click();
    e.click(&Cube::new(0, 0));
    assert_eq!(e.world.get(&Cube::new(0, 0)).unwrap().category, TileCategory::Water);
    e.right_click();
    e.click(&Cube::new(0, 0));
    assert!(e.world.get(&Cube::new(0, 0)).is_none());
    assert_eq!(e.world.len(), 1);
}

#[test]
fn right_click_wraps_after_the_removing_step() {
    let mut e = editor_with(&[]);
    e.right_click();
    e.right_click();
    assert_eq!(e.brush.idx, 2);
    e.right_click();
    assert_eq!(e.brush.idx, 0);
    e.toggle_layer();
    for _ in 0..5 {
        e.right_click();
    }
    assert_eq!(e.brush.idx, 5);
    e.right_click();
    assert_eq!(e.brush.idx, 0);
    e.toggle_layer();
    e.right_click();
    assert_eq!(e.brush.idx, 1);
    e.right_click();
    assert_eq!(e.brush.idx, 0);
}

#[test]
fn toggle_layer_cycles() {
    let mut e = editor_with(&[]);
    e.right_click();
    e.toggle_layer();
    assert_eq!(e.brush.layer, BrushLayer::Locality);
    assert_eq!(e.brush.idx, 0);
    e.toggle_layer();
    assert_eq!(e.brush.layer, BrushLayer::Owner);
    e.toggle_layer();
    assert_eq!(e.brush.layer, BrushLayer::Tile);
}

#[test]
fn painting_a_capital_adds_its_owner() {
    let mut e = editor_with(&[(0, 0), (1, 0)]);
    e.toggle_layer();
    e.right_click();
    e.right_click();
    e.click(&Cube::new(0, 0));
    assert_eq!(e.players.len(), 2);
    let t = e.world.get(&Cube::new(0, 0)).unwrap();
    assert_eq!(t.owner_index, Some(1));
    assert_eq!(t.locality.as_ref().unwrap().category, LocalityCategory::Capital);
    assert_eq!(e.players[1].actions, honeycomb::world::ACTIONS_PER_TURN);
    // A tile with a locality keeps it.
    e.click(&Cube::new(0, 0));
    assert_eq!(e.players.len(), 2);
    // A missing tile is left alone.
    e.click(&Cube::new(5, 5));
    assert!(e.world.get(&Cube::new(5, 5)).is_none());
}

#[test]
fn painting_past_the_last_locality_removes_it() {
    let mut e = editor_with(&[(0, 0)]);
    e.toggle_layer();
    e.click(&Cube::new(0, 0));
    assert_eq!(e.world.get(&Cube::new(0, 0)).unwrap().locality.as_ref().unwrap().category, LocalityCategory::City);
    for _ in 0..5 {
        e.right_click();
    }
    e.click(&Cube::new(0, 0));
    assert!(e.world.get(&Cube::new(0, 0)).unwrap().locality.is_none());
    assert_eq!(e.players.len(), 1);
}

#[test]
fn owner_layer_hands_tiles_over() {
    let mut e = editor_with(&[(0, 0)]);
    e.toggle_layer();
    e.toggle_layer();
    e.click(&Cube::new(0, 0));
    assert_eq!(e.world.get(&Cube::new(0, 0)).unwrap().owner_index, Some(0));
    e.click(&Cube::new(2, 2));
    assert_eq!(e.world.len(), 1);
}

#[test]
fn set_tile_owner_changes_only_the_owner() {
    let mut w = World::new();
    w.insert(Cube::new(0, 0), Tile::new(TileCategory::Water));
    w.set_tile_owner(&Cube::new(0, 0), 3);
    let t = w.get(&Cube::new(0, 0)).unwrap();
    assert_eq!(t.owner_index, Some(3));
    assert_eq!(t.category, TileCategory::Water);
}

#[test]
fn from_tiles_keeps_the_last_entry_per_cube() {
    let tiles = vec![
        (Cube::new(0, 0), Tile::new(TileCategory::Farmland)),
        (Cube::new(1, 0), Tile::new(TileCategory::Farmland)),
        (Cube::new(0, 0), Tile::new(TileCategory::Water)),
    ];
    let w = World::from_tiles(tiles);
    assert_eq!(w.len(), 2);
    assert_eq!(w.get(&Cube::new(0, 0)).unwrap().category, TileCategory::Water);
}
