use honeycomb::cubic::Cube;
use honeycomb::world::army::{half_ceil, half_round};
use honeycomb::world::orders::{attack, capture_tile, extend_borders, move_to, regroup};
use honeycomb::world::turn::{calculate_minimum_morale, issue_order};
use honeycomb::world::{Army, Locality, LocalityCategory, Player, Tile, TileCategory, World, ACTIONS_PER_TURN};

fn army(manpower: i32, morale: i32, owner: usize) -> Army {
    Army { manpower, morale, owner_index: Some(owner), can_move: true }
}

fn tile(owner: Option<usize>, army: Option<Army>) -> Tile {
    Tile { owner_index: owner, category: TileCategory::Farmland, locality: None, army }
}

fn city(owner: Option<usize>, category: LocalityCategory, army: Option<Army>) -> Tile {
    Tile { owner_index: owner, category: TileCategory::Farmland, locality: Some(Locality::new("town", category)), army }
}

fn water() -> Tile {
    Tile::new(TileCategory::Water)
}

fn at(w: &World, q: i32, r: i32) -> &Tile {
    w.get(&Cube::new(q, r)).unwrap()
}

fn army_at(w: &World, q: i32, r: i32) -> &Army {
    at(w, q, r).army.as_ref().unwrap()
}

#[test]
fn new_army_morale_is_half_its_manpower_rounded() {
    let a = Army::new(5, Some(0));
    assert_eq!((a.manpower, a.morale, a.owner_index, a.can_move), (5, 3, Some(0), true));
    let b = Army::new(4, None);
    assert_eq!((b.manpower, b.morale, b.owner_index), (4, 2, None));
}

#[test]
fn halves_round_away_from_zero_or_up() {
    assert_eq!(half_round(3), 2);
    assert_eq!(half_round(-3), -2);
    assert_eq!(half_round(4), 2);
    assert_eq!(half_ceil(3), 2);
    assert_eq!(half_ceil(-3), -1);
    assert_eq!(half_ceil(-4), -2);
}

#[test]
fn army_grows_up_to_the_stack_limit() {
    let mut a = army(95, 90, 0);
    let overflow = a.grow(10);
    assert_eq!((a.manpower, a.morale, overflow), (99, 95, 6));
    let mut b = army(10, 98, 0);
    assert_eq!(b.grow(4), 0);
    assert_eq!((b.manpower, b.morale), (14, 99));
}

#[test]
fn morale_bonus_and_penalty() {
    let mut a = army(50, 45, 0);
    a.apply_morale_bonus(10);
    assert_eq!(a.morale, 50);
    let mut b = army(50, 45, 0);
    b.apply_morale_penalty(10, 1000);
    assert_eq!(b.morale, 35);
    let mut c = army(50, 45, 0);
    c.apply_morale_penalty(30, 1000);
    assert_eq!(c.morale, 20);
    let mut d = army(10, 45, 0);
    d.apply_morale_penalty(40, 1000);
    assert_eq!(d.morale, 10);
    assert_eq!(army(50, 45, 0).combat_strength(), 95);
}

#[test]
fn tiles_and_capture() {
    let t = Tile::new(TileCategory::Farmland);
    assert!(t.owner_index.is_none() && t.locality.is_none() && t.army.is_none());
    assert!(t.is_capturable());
    assert!(!water().is_capturable());
    let l = Locality::new("Kyiv", LocalityCategory::Capital);
    assert_eq!(l.name, "Kyiv");
    assert!(l.category == LocalityCategory::Capital && l.starting_owner_index.is_none());
}

#[test]
fn players() {
    let mut p = Player::new("Redosia", None);
    assert_eq!(p.name, "Redosia");
    assert_eq!(p.actions, ACTIONS_PER_TURN);
    assert!(p.selection.is_none() && p.capital_pos.is_none() && p.ai.is_none());
    p.skip_turn();
    assert_eq!(p.actions, 0);
}

#[test]
fn world_insert_get_remove_keeps_its_indexes() {
    let mut w = World::new();
    assert_eq!(w.len(), 0);
    w.insert(Cube::new(0, 0), tile(Some(0), None));
    w.insert(Cube::new(1, 0), city(Some(0), LocalityCategory::Airport, None));
    w.insert(Cube::new(2, 0), tile(Some(1), None));
    assert_eq!(w.len(), 3);
    assert_eq!(w.player_keys(0).len(), 2);
    assert_eq!(w.player_keys(1).len(), 1);
    assert!(w.cubes_with_airport.contains(&Cube::new(1, 0).key()));
    // overwrite: the tile at (0,0) passes to player 1
    w.insert(Cube::new(0, 0), tile(Some(1), None));
    assert_eq!(w.len(), 3);
    assert_eq!(w.player_keys(0).len(), 1);
    assert_eq!(w.player_keys(1).len(), 2);
    let removed = w.remove(&Cube::new(1, 0)).unwrap();
    assert_eq!(removed.owner_index, Some(0));
    assert!(w.get(&Cube::new(1, 0)).is_none());
    assert!(w.remove(&Cube::new(1, 0)).is_none());
    assert!(!w.cubes_with_airport.contains(&Cube::new(1, 0).key()));
    assert_eq!(w.player_keys(0).len(), 0);
    assert_eq!(w.keys_vec().len(), 2);
}

#[test]
fn total_manpower_and_minimum_morale() {
    let mut w = World::new();
    w.insert(Cube::new(0, 0), tile(Some(0), Some(army(60, 10, 0))));
    w.insert(Cube::new(1, 0), tile(Some(0), Some(army(45, 10, 0))));
    w.insert(Cube::new(2, 0), tile(Some(0), None));
    w.insert(Cube::new(3, 0), tile(Some(1), Some(army(99, 10, 1))));
    assert_eq!(w.player_total_manpower(0), 105);
    assert_eq!(w.player_total_manpower(1), 99);
    assert_eq!(w.player_total_manpower(7), 0);
    assert_eq!(calculate_minimum_morale(&w, 0), 2);
    assert_eq!(calculate_minimum_morale(&w, 1), 1);
}

#[test]
fn move_onto_an_empty_tile() {
    let mut w = World::new();
    w.insert(Cube::new(0, 0), tile(Some(0), Some(army(50, 40, 0))));
    w.insert(Cube::new(1, 0), tile(Some(0), None));
    move_to(&mut w, &Cube::new(0, 0), &Cube::new(1, 0));
    assert!(at(&w, 0, 0).army.is_none());
    let a = army_at(&w, 1, 0);
    assert_eq!((a.manpower, a.morale, a.can_move), (50, 40, false));
}

#[test]
fn regroup_within_one_stack() {
    let mut w = World::new();
    w.insert(Cube::new(0, 0), tile(Some(0), Some(army(60, 40, 0))));
    w.insert(Cube::new(1, 0), tile(Some(0), Some(army(30, 21, 0))));
    regroup(&mut w, &Cube::new(0, 0), &Cube::new(1, 0));
    assert!(at(&w, 0, 0).army.is_none());
    let a = army_at(&w, 1, 0);
    assert_eq!((a.manpower, a.morale, a.can_move), (90, 31, false));
}

#[test]
fn regroup_over_the_stack_limit_leaves_the_surplus() {
    let mut w = World::new();
    w.insert(Cube::new(0, 0), tile(Some(0), Some(army(60, 40, 0))));
    w.insert(Cube::new(1, 0), tile(Some(0), Some(army(60, 20, 0))));
    regroup(&mut w, &Cube::new(0, 0), &Cube::new(1, 0));
    let o = army_at(&w, 0, 0);
    assert_eq!((o.manpower, o.morale, o.can_move), (21, 14, true));
    let t = army_at(&w, 1, 0);
    assert_eq!((t.manpower, t.morale, t.can_move), (99, 23, false));
    // no man is lost
    assert_eq!(o.manpower + t.manpower, 120);
}

#[test]
fn attack_won_captures_and_moves() {
    let mut w = World::new();
    w.insert(Cube::new(0, 0), tile(Some(0), Some(army(50, 40, 0))));
    w.insert(Cube::new(1, 0), tile(Some(1), Some(army(30, 20, 1))));
    let losing = attack(&mut w, &Cube::new(0, 0), &Cube::new(1, 0));
    assert_eq!(losing, Some(1));
    assert!(at(&w, 0, 0).army.is_none());
    assert_eq!(at(&w, 1, 0).owner_index, Some(0));
    let a = army_at(&w, 1, 0);
    assert_eq!((a.manpower, a.morale, a.owner_index, a.can_move), (20, 20, Some(0), false));
    assert_eq!(w.player_keys(1).len(), 0);
}

#[test]
fn attack_lost_leaves_the_defender_and_penalizes() {
    let mut w = World::new();
    w.insert(Cube::new(0, 0), tile(Some(0), Some(army(10, 5, 0))));
    w.insert(Cube::new(1, 0), tile(Some(1), Some(army(30, 20, 1))));
    w.insert(Cube::new(-1, 0), tile(Some(0), Some(army(40, 30, 0))));
    let losing = attack(&mut w, &Cube::new(0, 0), &Cube::new(1, 0));
    assert_eq!(losing, Some(0));
    assert!(at(&w, 0, 0).army.is_none());
    assert_eq!(at(&w, 0, 0).owner_index, Some(0));
    let d = army_at(&w, 1, 0);
    assert_eq!((d.manpower, d.morale, d.owner_index), (17, 17, Some(1)));
    // ten men lost: one point of morale off the loser's other armies
    assert_eq!(army_at(&w, -1, 0).morale, 29);
}

#[test]
fn capture_of_a_city() {
    let mut w = World::new();
    w.insert(Cube::new(0, 0), tile(Some(0), Some(army(50, 40, 0))));
    w.insert(Cube::new(1, 0), city(Some(1), LocalityCategory::City, None));
    w.insert(Cube::new(-1, 0), tile(Some(0), Some(army(40, 25, 0))));
    w.insert(Cube::new(2, 0), tile(Some(1), Some(army(60, 50, 1))));
    capture_tile(&mut w, &Cube::new(0, 0), &Cube::new(1, 0));
    assert_eq!(at(&w, 1, 0).owner_index, Some(0));
    // the capturing army gains twenty, up to its manpower
    assert_eq!(army_at(&w, 0, 0).morale, 50);
    // the other armies of the captor gain ten
    assert_eq!(army_at(&w, -1, 0).morale, 35);
    // the former owner loses ten
    assert_eq!(army_at(&w, 2, 0).morale, 40);
    assert_eq!(w.player_keys(0).len(), 3);
    assert_eq!(w.player_keys(1).len(), 1);
}

#[test]
fn capture_of_water_changes_nothing() {
    let mut w = World::new();
    w.insert(Cube::new(0, 0), tile(Some(0), Some(army(50, 40, 0))));
    w.insert(Cube::new(1, 0), water());
    capture_tile(&mut w, &Cube::new(0, 0), &Cube::new(1, 0));
    assert_eq!(at(&w, 1, 0).owner_index, None);
    assert_eq!(army_at(&w, 0, 0).morale, 40);
}

#[test]
fn borders_extend_over_empty_land() {
    let mut w = World::new();
    w.insert(Cube::new(1, 0), tile(Some(0), Some(army(20, 10, 0))));
    w.insert(Cube::new(2, 0), tile(None, None));
    w.insert(Cube::new(1, 1), water());
    w.insert(Cube::new(2, -1), tile(Some(1), Some(army(20, 10, 1))));
    w.insert(Cube::new(0, 0), city(Some(1), LocalityCategory::City, None));
    assert!(w.is_cube_extendable(&Cube::new(1, 0), &Cube::new(2, 0)));
    assert!(!w.is_cube_extendable(&Cube::new(1, 0), &Cube::new(1, 1)));
    assert!(!w.is_cube_extendable(&Cube::new(1, 0), &Cube::new(2, -1)));
    assert!(!w.is_cube_extendable(&Cube::new(1, 0), &Cube::new(0, 0)));
    extend_borders(&mut w, &Cube::new(1, 0));
    assert_eq!(at(&w, 2, 0).owner_index, Some(0));
    assert_eq!(at(&w, 1, 1).owner_index, None);
    assert_eq!(at(&w, 2, -1).owner_index, Some(1));
    assert_eq!(at(&w, 0, 0).owner_index, Some(1));
    assert_eq!(army_at(&w, 1, 0).morale, 11);
}

#[test]
fn an_order_moves_and_extends() {
    let mut w = World::new();
    w.insert(Cube::new(0, 0), tile(Some(0), Some(army(50, 40, 0))));
    w.insert(Cube::new(1, 0), tile(Some(0), None));
    w.insert(Cube::new(2, 0), tile(None, None));
    w.execute_army_order(&Cube::new(0, 0), &Cube::new(1, 0));
    assert!(at(&w, 0, 0).army.is_none());
    assert_eq!(army_at(&w, 1, 0).morale, 41);
    assert_eq!(at(&w, 2, 0).owner_index, Some(0));
}

#[test]
fn issuing_an_order_costs_an_action() {
    let mut w = World::new();
    w.insert(Cube::new(0, 0), tile(Some(1), Some(army(50, 40, 1))));
    w.insert(Cube::new(1, 0), tile(None, None));
    let mut players = vec![Player::new("a", None), Player::new("b", None)];
    issue_order(&mut w, &mut players, &Cube::new(0, 0), &Cube::new(1, 0));
    assert_eq!(players[0].actions, ACTIONS_PER_TURN);
    assert_eq!(players[1].actions, ACTIONS_PER_TURN - 1);
    assert_eq!(at(&w, 1, 0).owner_index, Some(1));
    assert_eq!(army_at(&w, 1, 0).manpower, 50);
}

#[test]
fn owner_of_a_tile() {
    let mut players = vec![Player::new("a", None), Player::new("b", None)];
    let t = tile(Some(1), None);
    t.owner(&mut players).unwrap().actions = 2;
    assert_eq!(players[1].actions, 2);
    assert!(tile(None, None).owner(&mut players).is_none());
}

#[test]
fn the_order_is_charged_to_the_origin_tile_owner_before_the_order() {
    let mut w = World::new();
    w.insert(Cube::new(0, 0), tile(Some(0), Some(army(30, 20, 1))));
    w.insert(Cube::new(1, 0), tile(Some(1), None));
    let mut players = vec![Player::new("a", None), Player::new("b", None)];
    issue_order(&mut w, &mut players, &Cube::new(0, 0), &Cube::new(1, 0));
    assert_eq!(at(&w, 0, 0).owner_index, Some(1));
    assert_eq!(players[0].actions, ACTIONS_PER_TURN - 1);
    assert_eq!(players[1].actions, ACTIONS_PER_TURN);
}

#[test]
fn an_order_returns_the_captured_tiles() {
    let mut w = World::new();
    w.insert(Cube::new(0, 0), tile(Some(0), Some(army(10, 5, 0))));
    w.insert(Cube::new(1, 0), tile(None, None));
    w.insert(Cube::new(2, 0), tile(None, None));
    let captured = w.execute_army_order(&Cube::new(0, 0), &Cube::new(1, 0));
    assert_eq!(captured.len(), 2);
    assert!(captured.contains(&Cube::new(1, 0).key()));
    assert!(captured.contains(&Cube::new(2, 0).key()));
    assert_eq!(at(&w, 1, 0).owner_index, Some(0));
    assert_eq!(army_at(&w, 1, 0).morale, 7);
    assert!(!army_at(&w, 1, 0).can_move);
    assert!(at(&w, 0, 0).army.is_none());
    let none = w.execute_army_order(&Cube::new(1, 0), &Cube::new(0, 0));
    assert!(none.is_empty());
}

#[test]
fn a_new_world_has_empty_indexes() {
    let w = World::new();
    assert_eq!(w.len(), 0);
    assert!(w.cubes_by_ownership.is_empty());
    assert!(w.cubes_with_airport.is_empty());
}
