use honeycomb::cubic::Cube;
use honeycomb::rules::default_fog_of_war;
use honeycomb::world::{Locality, LocalityCategory, Player, Tile, TileCategory, World};

#[test]
fn fog_of_war_covers_every_player_and_the_spectator() {
    let m = default_fog_of_war(3);
    assert_eq!(m.len(), 4);
    for i in 0..=3 {
        assert_eq!(m.get(&i), Some(&true));
    }
    assert!(m.get(&4).is_none());
    assert_eq!(default_fog_of_war(0).len(), 1);
}

#[test]
fn owned_tile_count_counts_one_players_tiles() {
    let mut w = World::new();
    assert_eq!(w.owned_tile_count(0), 0);
    w.insert(Cube::new(0, 0), Tile { owner_index: Some(0), category: TileCategory::Farmland, locality: None, army: None });
    w.insert(Cube::new(1, 0), Tile { owner_index: Some(0), category: TileCategory::Water, locality: None, army: None });
    w.insert(Cube::new(2, 0), Tile { owner_index: Some(1), category: TileCategory::Farmland, locality: None, army: None });
    w.insert(Cube::new(3, 0), Tile::new(TileCategory::Farmland));
    assert_eq!(w.owned_tile_count(0), 2);
    assert_eq!(w.owned_tile_count(1), 1);
    assert_eq!(w.owned_tile_count(2), 0);
    w.set_tile_owner(&Cube::new(2, 0), 0);
    assert_eq!(w.owned_tile_count(0), 3);
    assert_eq!(w.owned_tile_count(1), 0);
}

#[test]
fn gen_water_only_floods_tiles() {
    let mut w = World::new();
    w.gen_hexagonal_shape(6);
    let c = Cube::new(1, -1);
    w.remove(&c);
    w.insert(c, Tile {
        owner_index: Some(2),
        category: TileCategory::Farmland,
        locality: Some(Locality::new("Kyiv", LocalityCategory::City)),
        army: None,
    });
    let n = w.len();
    w.gen_water();
    assert_eq!(w.len(), n);
    let t = w.get(&c).unwrap();
    assert_eq!(t.owner_index, Some(2));
    assert_eq!(t.locality.as_ref().unwrap().name, "Kyiv");
    let water = w.world.values().filter(|t| t.category == TileCategory::Water).count();
    assert!(water > 0 && water < n);
}

#[test]
fn flood_where_floods_exactly_the_rolled_tiles() {
    let mut w = World::new();
    for q in 0..4 {
        w.insert(Cube::new(q, 0), Tile { owner_index: Some(1), category: TileCategory::Farmland, locality: None, army: None });
    }
    let keys = vec![Cube::new(0, 0).key(), Cube::new(1, 0).key(), Cube::new(9, 9).key(), Cube::new(3, 0).key()];
    let rolls = vec![true, false, true, true];
    w.flood_where(&keys, &rolls);
    assert_eq!(w.len(), 4);
    assert_eq!(w.get(&Cube::new(0, 0)).unwrap().category, TileCategory::Water);
    assert_eq!(w.get(&Cube::new(1, 0)).unwrap().category, TileCategory::Farmland);
    assert_eq!(w.get(&Cube::new(2, 0)).unwrap().category, TileCategory::Farmland);
    assert_eq!(w.get(&Cube::new(3, 0)).unwrap().category, TileCategory::Water);
    assert_eq!(w.get(&Cube::new(3, 0)).unwrap().owner_index, Some(1));
    assert!(w.get(&Cube::new(9, 9)).is_none());
}

#[test]
fn place_localities_follows_the_rolls() {
    let mut w = World::new();
    for q in 0..4 {
        w.insert(Cube::new(q, 0), Tile::new(TileCategory::Farmland));
    }
    w.insert(Cube::new(0, 1), Tile::new(TileCategory::Water));
    w.insert(Cube::new(9, 9), Tile::new(TileCategory::Water));
    let chosen = vec![
        Cube::new(0, 0).key(),
        Cube::new(1, 0).key(),
        Cube::new(3, 0).key(),
        Cube::new(2, 0).key(),
        Cube::new(9, 9).key(),
    ];
    let ports = vec![true, true, true, false, true];
    let airports = vec![false, false, false, true, false];
    let mut names = vec!["Lviv", "Odesa", "Kyiv"];
    w.place_localities(&chosen, &ports, &airports, &mut names);
    let l = |q: i32, r: i32| w.get(&Cube::new(q, r)).unwrap().locality.as_ref().unwrap();
    // (0, 0) borders the water at (0, 1): a port; (1, 0) borders it too.
    assert_eq!(l(0, 0).category, LocalityCategory::PortCity);
    assert_eq!(l(0, 0).name, "Kyiv");
    assert_eq!(l(1, 0).category, LocalityCategory::PortCity);
    assert_eq!(l(1, 0).name, "Odesa");
    assert_eq!(l(3, 0).category, LocalityCategory::City);
    assert_eq!(l(3, 0).name, "Lviv");
    assert_eq!(l(2, 0).category, LocalityCategory::Airport);
    assert_eq!(l(2, 0).name, "city");
    assert!(w.get(&Cube::new(9, 9)).unwrap().locality.is_none());
    assert!(names.is_empty());
}

#[test]
fn place_capitals_hands_each_player_its_city() {
    let mut w = World::new();
    for q in 0..3 {
        w.insert(Cube::new(q, 0), Tile {
            owner_index: None,
            category: TileCategory::Farmland,
            locality: Some(Locality::new("town", LocalityCategory::City)),
            army: None,
        });
    }
    let mut players = vec![Player::new("a", None), Player::new("b", None)];
    let chosen = vec![Cube::new(2, 0).key(), Cube::new(0, 0).key()];
    w.place_capitals(&mut players, &chosen);
    assert_eq!(players[0].capital_pos, Some(Cube::new(2, 0)));
    assert_eq!(players[1].capital_pos, Some(Cube::new(0, 0)));
    let t = w.get(&Cube::new(2, 0)).unwrap();
    assert_eq!(t.owner_index, Some(0));
    assert_eq!(t.locality.as_ref().unwrap().category, LocalityCategory::Capital);
    assert_eq!(w.get(&Cube::new(0, 0)).unwrap().owner_index, Some(1));
    assert_eq!(w.get(&Cube::new(1, 0)).unwrap().locality.as_ref().unwrap().category, LocalityCategory::City);
    assert_eq!(w.owned_tile_count(0), 1);
}
