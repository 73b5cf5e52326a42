use honeycomb::cubic::Cube;
use honeycomb::world::gen::{CapitalsGen, LocalitiesGen};
use honeycomb::world::{Army, Locality, LocalityCategory, Player, Tile, TileCategory, World};

fn army(manpower: i32, morale: i32, owner: usize) -> Army {
    Army { manpower, morale, owner_index: Some(owner), can_move: true }
}

fn tile(owner: Option<usize>, army: Option<Army>) -> Tile {
    Tile { owner_index: owner, category: TileCategory::Farmland, locality: None, army }
}

fn locality(owner: Option<usize>, category: LocalityCategory, army: Option<Army>) -> Tile {
    Tile { owner_index: owner, category: TileCategory::Farmland, locality: Some(Locality::new("town", category)), army }
}

fn at(w: &World, q: i32, r: i32) -> &Tile {
    w.get(&Cube::new(q, r)).unwrap()
}

fn line(n: i32) -> World {
    let mut w = World::new();
    for q in 0..n {
        w.insert(Cube::new(q, 0), tile(None, None));
    }
    w
}

#[test]
fn reach_of_an_army() {
    let mut w = line(5);
    w.insert(Cube::new(0, 0), tile(Some(0), Some(army(10, 5, 0))));
    let r = w.get_reachable_cubes(&Cube::new(0, 0));
    assert_eq!(r.len(), 2);
    assert!(r.contains(&Cube::new(1, 0).key()) && r.contains(&Cube::new(2, 0).key()));
    // a hostile army stops the way, but can itself be reached
    w.insert(Cube::new(1, 0), tile(Some(1), Some(army(10, 5, 1))));
    let r = w.get_reachable_cubes(&Cube::new(0, 0));
    assert_eq!(r.len(), 1);
    assert!(r.contains(&Cube::new(1, 0).key()));
}

#[test]
fn reach_on_open_land_is_the_disc_of_radius_two() {
    let mut w = World::new();
    w.gen_hexagonal_shape(3);
    w.insert(Cube::new(0, 0), tile(Some(0), Some(army(10, 5, 0))));
    let r = w.get_reachable_cubes(&Cube::new(0, 0));
    assert_eq!(r.len(), 18);
    assert!(!r.contains(&Cube::new(0, 0).key()));
}

#[test]
fn passable_and_targetable() {
    let mut w = line(4);
    w.insert(Cube::new(0, 0), tile(Some(0), Some(army(10, 5, 0))));
    w.insert(Cube::new(1, 0), Tile::new(TileCategory::Water));
    w.insert(Cube::new(2, 0), locality(Some(1), LocalityCategory::City, None));
    w.insert(Cube::new(3, 0), tile(Some(0), Some(army(10, 5, 0))));
    assert!(!w.is_cube_passable(&Cube::new(0, 0), &Cube::new(1, 0)));
    assert!(!w.is_cube_targetable(&Cube::new(0, 0), &Cube::new(1, 0)));
    assert!(!w.is_cube_passable(&Cube::new(0, 0), &Cube::new(2, 0)));
    assert!(w.is_cube_targetable(&Cube::new(0, 0), &Cube::new(2, 0)));
    assert!(w.is_cube_passable(&Cube::new(0, 0), &Cube::new(3, 0)));
    assert!(!w.is_cube_passable(&Cube::new(0, 0), &Cube::new(9, 9)));
    // from a port, water can be sailed
    w.insert(Cube::new(0, 0), locality(Some(0), LocalityCategory::PortCity, Some(army(10, 5, 0))));
    assert!(w.is_cube_passable(&Cube::new(0, 0), &Cube::new(1, 0)));
    assert!(w.is_cube_targetable(&Cube::new(0, 0), &Cube::new(1, 0)));
}

#[test]
fn legal_moves_include_own_airports() {
    let mut w = line(3);
    w.insert(Cube::new(0, 0), locality(Some(0), LocalityCategory::Airport, Some(army(10, 5, 0))));
    w.insert(Cube::new(1, 0), Tile::new(TileCategory::Water));
    w.insert(Cube::new(10, 10), locality(Some(0), LocalityCategory::Airport, None));
    w.insert(Cube::new(20, 20), locality(Some(1), LocalityCategory::Airport, None));
    let moves = w.get_all_legal_moves(&Cube::new(0, 0), &0);
    assert!(moves.contains(&Cube::new(10, 10).key()));
    assert!(!moves.contains(&Cube::new(20, 20).key()));
    assert!(!moves.contains(&Cube::new(0, 0).key()));
    assert!(!moves.contains(&Cube::new(1, 0).key()));
    assert_eq!(moves.len(), 1);
    // without the airport only land within reach remains
    w.insert(Cube::new(1, 0), tile(None, None));
    w.insert(Cube::new(0, 0), tile(Some(0), Some(army(10, 5, 0))));
    let moves = w.get_all_legal_moves(&Cube::new(0, 0), &0);
    assert_eq!(moves.len(), 2);
}

#[test]
fn capturable_tile_within_range() {
    let mut w = line(4);
    for q in 0..4 {
        w.insert(Cube::new(q, 0), tile(Some(0), None));
    }
    w.insert(Cube::new(0, 0), tile(Some(0), Some(army(10, 5, 0))));
    assert!(!w.is_there_capturable_tile_within_range(&Cube::new(0, 0)));
    w.insert(Cube::new(2, 0), tile(Some(1), None));
    assert!(w.is_there_capturable_tile_within_range(&Cube::new(0, 0)));
}

#[test]
fn commands_left_to_a_player() {
    let mut w = line(3);
    w.insert(Cube::new(0, 0), tile(Some(0), Some(army(10, 5, 0))));
    assert!(w.can_player_issue_a_command(&0));
    assert!(!w.can_player_issue_a_command(&1));
    let mut a = army(10, 5, 0);
    a.can_move = false;
    w.insert(Cube::new(0, 0), tile(Some(0), Some(a)));
    assert!(!w.can_player_issue_a_command(&0));
}

#[test]
fn idle_armies_lose_morale() {
    let mut w = line(3);
    w.insert(Cube::new(0, 0), tile(Some(0), Some(army(60, 10, 0))));
    let mut tired = army(40, 10, 0);
    tired.can_move = false;
    w.insert(Cube::new(1, 0), tile(Some(0), Some(tired)));
    w.insert(Cube::new(2, 0), tile(Some(1), Some(army(60, 10, 1))));
    w.apply_idle_morale_penalty(0);
    assert_eq!(at(&w, 0, 0).army.as_ref().unwrap().morale, 9);
    assert_eq!(at(&w, 1, 0).army.as_ref().unwrap().morale, 10);
    assert_eq!(at(&w, 2, 0).army.as_ref().unwrap().morale, 10);
    // the floor is one point per fifty men of the owner (here 100 men)
    let mut w = line(2);
    w.insert(Cube::new(0, 0), tile(Some(0), Some(army(50, 2, 0))));
    w.insert(Cube::new(1, 0), tile(Some(0), Some(army(50, 2, 0))));
    w.apply_idle_morale_penalty(0);
    assert_eq!(at(&w, 0, 0).army.as_ref().unwrap().morale, 2);
}

#[test]
fn surrender_hands_over_every_tile() {
    let mut w = line(4);
    w.insert(Cube::new(0, 0), tile(Some(0), Some(army(60, 10, 0))));
    w.insert(Cube::new(1, 0), tile(Some(0), None));
    w.insert(Cube::new(2, 0), tile(Some(1), Some(army(60, 10, 1))));
    w.surrender_to_player(&0, &1);
    assert_eq!(at(&w, 0, 0).owner_index, Some(1));
    assert!(at(&w, 0, 0).army.is_none());
    assert_eq!(at(&w, 1, 0).owner_index, Some(1));
    assert_eq!(at(&w, 2, 0).army.as_ref().unwrap().manpower, 60);
    assert_eq!(at(&w, 3, 0).owner_index, None);
    assert_eq!(w.player_keys(0).len(), 0);
    assert_eq!(w.player_keys(1).len(), 3);
}

#[test]
fn split_fields_hands_out_both_tables() {
    let mut w = line(2);
    let (tiles, cubes) = w.split_fields();
    assert_eq!(tiles.len(), 2);
    assert!(cubes.is_empty());
}

#[test]
fn training_grows_localities_then_spreads_the_bonus() {
    let mut w = World::new();
    w.insert(Cube::new(0, 0), locality(Some(0), LocalityCategory::City, None));
    w.insert(Cube::new(1, 0), locality(Some(0), LocalityCategory::Capital, Some(army(95, 90, 0))));
    w.insert(Cube::new(2, 0), tile(Some(0), None));
    w.insert(Cube::new(3, 0), locality(Some(1), LocalityCategory::City, None));
    w.train_armies(&0);
    // the city raised five men, then took the bonus of three tiles, two at a time
    let c = at(&w, 0, 0).army.as_ref().unwrap();
    assert_eq!((c.manpower, c.morale, c.owner_index, c.can_move), (9, 5, Some(0), true));
    let k = at(&w, 1, 0).army.as_ref().unwrap();
    assert_eq!((k.manpower, k.morale), (99, 95));
    assert!(at(&w, 2, 0).army.is_none());
    assert!(at(&w, 3, 0).army.is_none());
}

#[test]
fn training_port_and_satellite() {
    let mut w = World::new();
    w.insert(Cube::new(0, 0), locality(Some(2), LocalityCategory::PortCity, Some(army(10, 10, 2))));
    w.insert(Cube::new(1, 0), locality(Some(2), LocalityCategory::SatelliteCapital, None));
    w.train_armies(&2);
    // base growth: the port trains nobody, the satellite capital seven men;
    // then two men of bonus go to the first army visited
    let p = at(&w, 0, 0).army.as_ref().unwrap();
    let s = at(&w, 1, 0).army.as_ref().unwrap();
    assert_eq!(p.manpower + s.manpower, 10 + 7 + 2);
    assert!((p.manpower, s.manpower) == (12, 7) || (p.manpower, s.manpower) == (10, 9));
}

#[test]
fn classic_map_shape() {
    let mut w = World::new();
    w.gen_classic_shape();
    assert_eq!(w.len(), 220);
    assert!(w.get(&Cube::new(0, 0)).is_some());
    assert!(w.get(&Cube::new(19, -9)).is_some());
    assert!(w.get(&Cube::new(19, 1)).is_some());
    assert!(w.get(&Cube::new(19, 2)).is_none());
    assert!(w.get(&Cube::new(20, 0)).is_none());
}

#[test]
fn hexagonal_map_shape() {
    let mut w = World::new();
    w.gen_hexagonal_shape(2);
    assert_eq!(w.len(), 19);
    assert!(w.get(&Cube::new(2, -2)).is_some());
    assert!(w.get(&Cube::new(2, 1)).is_none());
    let mut e = World::new();
    e.gen_hexagonal_shape(-1);
    assert_eq!(e.len(), 0);
}

#[test]
fn custom_map_shape() {
    let mut w = World::new();
    w.insert(Cube::new(0, 0), tile(Some(0), Some(army(10, 5, 0))));
    w.gen_custom_shape(&vec![Cube::new(0, 0), Cube::new(5, 5), Cube::new(5, 5)]);
    assert_eq!(w.len(), 2);
    assert!(at(&w, 0, 0).army.is_none());
    assert_eq!(at(&w, 0, 0).owner_index, None);
}

#[test]
fn classic_capitals() {
    let mut w = World::new();
    w.gen_classic_shape();
    let names = vec!["Redgrad", "Blueburg", "Greenham"];
    let mut players = vec![Player::new("a", None), Player::new("b", None)];
    w.gen_classic_capitals(&names, &mut players);
    let c0 = at(&w, 1, 1);
    assert_eq!(c0.owner_index, Some(0));
    let l0 = c0.locality.as_ref().unwrap();
    assert_eq!(l0.name, "Redgrad");
    assert!(l0.category == LocalityCategory::Capital);
    let c1 = at(&w, 1, 9);
    assert_eq!(c1.owner_index, Some(1));
    assert_eq!(c1.locality.as_ref().unwrap().name, "Blueburg");
    assert!(at(&w, 18, -8).locality.is_none());
    assert_eq!(players[0].capital_pos, Some(Cube::new(1, 1)));
    assert_eq!(players[1].capital_pos, Some(Cube::new(1, 9)));
    // each capital comes with its six neighbours
    assert_eq!(w.player_keys(0).len(), 7);
    assert_eq!(w.player_keys(1).len(), 7);
    assert_eq!(at(&w, 2, 1).owner_index, Some(0));
}

#[test]
fn random_capitals_take_distinct_cities() {
    let mut w = World::new();
    w.gen_hexagonal_shape(3);
    for q in [0, 1, 2] {
        w.insert(Cube::new(q, 0), locality(None, LocalityCategory::City, None));
    }
    let mut players = vec![Player::new("a", None), Player::new("b", None)];
    w.gen_random_capitals(&mut players);
    let p0 = players[0].capital_pos.unwrap();
    let p1 = players[1].capital_pos.unwrap();
    assert_ne!(p0, p1);
    for (i, p) in [p0, p1].iter().enumerate() {
        let t = w.get(p).unwrap();
        assert_eq!(t.owner_index, Some(i));
        assert!(t.locality.as_ref().unwrap().category == LocalityCategory::Capital);
        assert_eq!(t.locality.as_ref().unwrap().name, "town");
        assert_eq!(p.r(), 0);
    }
    assert_eq!(w.player_keys(0).len(), 1);
    assert_eq!(w.player_keys(1).len(), 1);
}

#[test]
fn random_localities_cover_a_tenth_of_the_land() {
    let mut w = World::new();
    w.gen_classic_shape();
    let mut names = vec!["Alpha", "Beta", "Gamma"];
    w.gen_random_localities(&mut names);
    let mut count = 0;
    let mut named_city = 0;
    for k in w.keys_vec() {
        let t = w.get(&Cube::from_key(k)).unwrap();
        if let Some(l) = &t.locality {
            count += 1;
            assert!(l.category == LocalityCategory::City || l.category == LocalityCategory::Airport);
            if l.name == "city" {
                named_city += 1;
            } else {
                assert!(l.name == "Alpha" || l.name == "Beta" || l.name == "Gamma");
            }
        }
    }
    assert_eq!(count, 22);
    assert_eq!(named_city, 19);
    assert!(names.is_empty());
}

#[test]
fn localities_and_capitals_by_choice() {
    let mut w = World::new();
    w.gen_classic_shape();
    let mut names = vec!["Alpha"];
    w.choose_localities_gen(LocalitiesGen::Random, &mut names);
    let mut players = vec![Player::new("a", None)];
    w.choose_capitals_gen(CapitalsGen::Classic, &mut players, &vec!["Capitol"]);
    assert_eq!(players[0].capital_pos, Some(Cube::new(1, 1)));
    assert_eq!(at(&w, 1, 1).locality.as_ref().unwrap().name, "Capitol");
}
