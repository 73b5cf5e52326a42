use honeycomb::ai::{default_scores, sort_by_score, ScoredMove, AI};
use honeycomb::cubic::Cube;
use honeycomb::world::{Army, Locality, LocalityCategory, Tile, TileCategory, World};

fn army(manpower: i32, morale: i32, owner: usize) -> Army {
    Army { manpower, morale, owner_index: Some(owner), can_move: true }
}

fn tile(owner: Option<usize>, army: Option<Army>) -> Tile {
    Tile { owner_index: owner, category: TileCategory::Farmland, locality: None, army }
}

fn locality(owner: Option<usize>, category: LocalityCategory) -> Tile {
    Tile { owner_index: owner, category: TileCategory::Farmland, locality: Some(Locality::new("town", category)), army: None }
}

#[test]
fn default_weights() {
    let s = default_scores();
    assert_eq!((s.water, s.manpower, s.farmland, s.port_city, s.airport, s.city, s.satellite_capital, s.capital),
        (0, 1, 1, 8, 9, 10, 15, 100));
    let ai = AI::new();
    assert_eq!(ai.scores.capital, 100);
}

#[test]
fn tile_values() {
    let ai = AI::new();
    assert_eq!(ai.match_tile_category_score(&TileCategory::Farmland), 1);
    assert_eq!(ai.match_tile_category_score(&TileCategory::Water), 0);
    assert_eq!(ai.match_locality_category_score(&LocalityCategory::City), 10);
    assert_eq!(ai.match_locality_category_score(&LocalityCategory::PortCity), 8);
    assert_eq!(ai.match_locality_category_score(&LocalityCategory::Airport), 9);
    assert_eq!(ai.match_locality_category_score(&LocalityCategory::Capital), 100);
    assert_eq!(ai.match_locality_category_score(&LocalityCategory::SatelliteCapital), 15);
    assert_eq!(ai.match_tile_score(&locality(None, LocalityCategory::City)), 10);
    assert_eq!(ai.match_tile_score(&tile(None, None)), 1);
}

#[test]
fn border_value() {
    let ai = AI::new();
    let mut w = World::new();
    w.gen_hexagonal_shape(2);
    w.insert(Cube::new(1, 0), tile(Some(0), None));
    w.insert(Cube::new(0, 1), Tile::new(TileCategory::Water));
    w.insert(Cube::new(-1, 0), locality(None, LocalityCategory::City));
    // six neighbours: one owned already, one water, one with a locality
    assert_eq!(ai.calculate_extended_border_score(&0, &w, &Cube::new(0, 0)), 3);
    // from water nothing can be extended
    w.insert(Cube::new(0, 0), Tile::new(TileCategory::Water));
    assert_eq!(ai.calculate_extended_border_score(&0, &w, &Cube::new(0, 0)), 0);
}

#[test]
fn combat_value_rounds_towards_zero() {
    let ai = AI::new();
    let mut w = World::new();
    w.insert(Cube::new(0, 0), tile(Some(0), Some(army(30, 20, 0))));
    w.insert(Cube::new(1, 0), tile(Some(1), Some(army(50, 40, 1))));
    assert_eq!(ai.calculate_combat_score(&w, &Cube::new(0, 0), &Cube::new(1, 0)), -7);
    w.insert(Cube::new(0, 0), tile(Some(0), Some(army(10, 5, 0))));
    w.insert(Cube::new(1, 0), tile(Some(1), Some(army(10, 10, 1))));
    assert_eq!(ai.calculate_combat_score(&w, &Cube::new(0, 0), &Cube::new(1, 0)), -1);
    w.insert(Cube::new(0, 0), tile(Some(0), Some(army(90, 80, 0))));
    w.insert(Cube::new(1, 0), tile(Some(1), Some(army(30, 5, 1))));
    assert_eq!(ai.calculate_combat_score(&w, &Cube::new(0, 0), &Cube::new(1, 0)), 13 + 3);
}

#[test]
fn move_values() {
    let ai = AI::new();
    let mut w = World::new();
    w.insert(Cube::new(0, 0), tile(Some(0), Some(army(90, 80, 0))));
    w.insert(Cube::new(1, 0), locality(Some(1), LocalityCategory::City));
    w.insert(Cube::new(2, 0), tile(None, None));
    w.insert(Cube::new(0, 1), tile(Some(0), None));
    // an enemy city with one empty field behind it
    assert_eq!(ai.calculate_score(&0, &w, &Cube::new(0, 0), &Cube::new(1, 0)), 11);
    // a field of its own is worth its border
    assert_eq!(ai.calculate_score(&0, &w, &Cube::new(0, 0), &Cube::new(0, 1)), 0);
    // an enemy army that would win is worth only the combat
    w.insert(Cube::new(1, 0), tile(Some(1), Some(army(99, 99, 1))));
    assert_eq!(ai.calculate_score(&0, &w, &Cube::new(0, 0), &Cube::new(1, 0)), -2 - 9);
}

#[test]
fn targets_for_a_lone_army() {
    let ai = AI::new();
    let mut w = World::new();
    w.gen_hexagonal_shape(3);
    w.insert(Cube::new(0, 0), tile(Some(0), Some(army(20, 10, 0))));
    w.insert(Cube::new(2, 0), locality(None, LocalityCategory::City));
    let subset = ai.create_owned_armies_world_subset(&0, &w);
    assert_eq!(subset.len(), 1);
    assert!(subset.contains(&Cube::new(0, 0).key()));
    let best = ai.explore_targets(&0, &w, &Cube::new(0, 0)).unwrap();
    assert_eq!(best.origin, Cube::new(0, 0));
    assert!(best.score > 0);
    assert!(best.target.distance(&Cube::new(0, 0)) <= 2);
    let targets = ai.generate_targets(&0, &w);
    assert_eq!(targets.len(), 1);
    assert_eq!(targets[0].origin, Cube::new(0, 0));
    let list = ai.create_target_list(&0, &w);
    assert_eq!(list.len(), 1);
}

#[test]
fn armies_that_can_not_move_are_left_out() {
    let ai = AI::new();
    let mut w = World::new();
    w.gen_hexagonal_shape(3);
    let mut tired = army(20, 10, 0);
    tired.can_move = false;
    w.insert(Cube::new(0, 0), tile(Some(0), Some(tired)));
    w.insert(Cube::new(1, 0), tile(Some(0), Some(army(20, 10, 0))));
    let subset = ai.create_owned_armies_world_subset(&0, &w);
    assert_eq!(subset.len(), 1);
    assert!(subset.contains(&Cube::new(1, 0).key()));
}

#[test]
fn sorting_keeps_equal_scores_in_order() {
    let m = |score: i32, q: i32| ScoredMove { score, origin: Cube::new(q, 0), target: Cube::new(q, 1) };
    let sorted = sort_by_score(&vec![m(3, 0), m(7, 1), m(3, 2), m(9, 3), m(7, 4)]);
    let order: Vec<(i32, i32)> = sorted.iter().map(|x| (x.score, x.origin.q())).collect();
    assert_eq!(order, vec![(9, 3), (7, 1), (7, 4), (3, 0), (3, 2)]);
    assert!(sort_by_score(&vec![]).is_empty());
}
