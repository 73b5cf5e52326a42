use honeycomb::ai::AI;
use honeycomb::cubic::Cube;
use honeycomb::fog::{Fog, Visibility, VisibilityMask};
use honeycomb::game::Game;
use honeycomb::network::Command;
use honeycomb::world::{Army, Player, Tile, TileCategory, World, ACTIONS_PER_TURN};

fn army(manpower: i32, morale: i32, owner: usize) -> Army {
    Army { manpower, morale, owner_index: Some(owner), can_move: true }
}

fn tile(owner: Option<usize>, army: Option<Army>) -> Tile {
    Tile { owner_index: owner, category: TileCategory::Farmland, locality: None, army }
}

fn two_player_game(second_ai: bool) -> Game {
    let mut world = World::new();
    world.gen_hexagonal_shape(4);
    world.insert(Cube::new(0, 0), tile(Some(0), Some(army(30, 20, 0))));
    world.insert(Cube::new(3, 0), tile(Some(1), Some(army(30, 20, 1))));
    let ai = if second_ai { Some(AI::new()) } else { None };
    Game { turn: 1, players: vec![Player::new("Redosia", None), Player::new("Bluegaria", ai)], world }
}

#[test]
fn player_to_move_follows_the_turn() {
    let mut g = two_player_game(false);
    assert_eq!(g.current_player_index(), 0);
    assert_eq!(g.current_player().name, "Redosia");
    g.turn = 2;
    assert_eq!(g.current_player_index(), 1);
    g.turn = 3;
    assert_eq!(g.current_player_index(), 0);
    g.current_player_mut().actions = 1;
    assert_eq!(g.players[0].actions, 1);
}

#[test]
fn clicking_selects_and_deselects() {
    let mut g = two_player_game(false);
    g.click(&Cube::new(0, 0));
    assert_eq!(g.players[0].selection, Some(Cube::new(0, 0)));
    // clicking on the selected tile deselects it
    g.click(&Cube::new(0, 0));
    assert_eq!(g.players[0].selection, None);
    // an army of another player can not be selected
    g.click(&Cube::new(3, 0));
    assert_eq!(g.players[0].selection, None);
}

#[test]
fn clicking_a_target_gives_the_order() {
    let mut g = two_player_game(false);
    g.click(&Cube::new(0, 0));
    g.click(&Cube::new(1, 0));
    assert_eq!(g.players[0].selection, None);
    assert_eq!(g.players[0].actions, ACTIONS_PER_TURN - 1);
    let t = g.world.get(&Cube::new(1, 0)).unwrap();
    assert_eq!(t.owner_index, Some(0));
    let a = t.army.as_ref().unwrap();
    assert_eq!((a.manpower, a.can_move), (30, false));
    assert!(g.world.get(&Cube::new(0, 0)).unwrap().army.is_none());
    // the moved army can not be selected again this turn
    g.click(&Cube::new(1, 0));
    assert_eq!(g.players[0].selection, None);
}

#[test]
fn clicking_out_of_reach_only_changes_the_selection() {
    let mut g = two_player_game(false);
    g.click(&Cube::new(0, 0));
    g.click(&Cube::new(4, -4));
    assert_eq!(g.players[0].selection, None);
    assert_eq!(g.players[0].actions, ACTIONS_PER_TURN);
    assert!(g.world.get(&Cube::new(0, 0)).unwrap().army.is_some());
}

#[test]
fn the_turn_passes() {
    let mut g = two_player_game(false);
    g.click(&Cube::new(0, 0));
    g.players[0].actions = 2;
    g.next_turn();
    assert_eq!(g.turn, 2);
    assert_eq!(g.current_player_index(), 1);
    assert_eq!(g.players[0].actions, ACTIONS_PER_TURN);
    assert_eq!(g.players[0].selection, None);
    let a = g.world.get(&Cube::new(0, 0)).unwrap().army.as_ref().unwrap();
    // player 0 owned one tile and had one idle army: one point of bonus
    // could not be spent on a field, and idling cost a point of morale
    assert_eq!((a.manpower, a.morale, a.can_move), (30, 19, true));
}

#[test]
fn update_ends_a_turn_without_actions() {
    let mut g = two_player_game(false);
    g.players[0].actions = 0;
    g._update();
    assert_eq!(g.turn, 2);
}

#[test]
fn update_leaves_a_human_turn_alone() {
    let mut g = two_player_game(false);
    g._update();
    assert_eq!(g.turn, 1);
    assert_eq!(g.players[0].actions, ACTIONS_PER_TURN);
}

#[test]
fn the_computer_plays_its_turn() {
    let mut g = two_player_game(true);
    g.turn = 2;
    g._update();
    assert_eq!(g.turn, 2);
    assert_eq!(g.players[1].actions, 0);
    // its army went for something within reach
    assert!(g.world.get(&Cube::new(3, 0)).unwrap().army.is_none());
    assert!(g.world.player_keys(1).len() > 1);
}

#[test]
fn visibility_from_owned_tiles() {
    let mut w = World::new();
    w.gen_hexagonal_shape(3);
    w.insert(Cube::new(0, 0), tile(Some(0), None));
    w.insert(Cube::new(3, 0), tile(None, Some(army(10, 5, 0))));
    let mut mask = VisibilityMask::new(&w, 0);
    assert_eq!(mask.0.len(), 37);
    assert_eq!(mask.0[&Cube::new(0, 0).key()], Visibility::Clear);
    assert_eq!(mask.0[&Cube::new(3, 0).key()], Visibility::Clear);
    assert_eq!(mask.0[&Cube::new(1, 0).key()], Visibility::Fog);
    mask.update(&w, 0);
    // the neighbours of an observer come into view...
    assert_eq!(mask.0[&Cube::new(1, 0).key()], Visibility::Clear);
    assert_eq!(mask.0[&Cube::new(4, -1).key()], Visibility::Clear);
    // ...the observers themselves are not their own neighbours...
    assert_eq!(mask.0[&Cube::new(0, 0).key()], Visibility::Shroud);
    // ...and the rest stays in fog
    assert_eq!(mask.0[&Cube::new(-2, 0).key()], Visibility::Fog);
}

#[test]
fn visible_subset_and_observed_commands() {
    let mut w = World::new();
    w.insert(Cube::new(0, 0), tile(Some(0), None));
    w.insert(Cube::new(1, 0), tile(Some(1), None));
    let mut fog = Fog::new();
    assert!(fog.0.is_empty());
    fog.0.insert(Cube::new(1, 0).key(), 1);
    fog.0.insert(Cube::new(7, 7).key(), 1);
    let visible = w.get_visible_subset(&fog);
    assert_eq!(visible.len(), 1);
    assert_eq!(visible[&Cube::new(1, 0).key()].owner_index, Some(1));
    let seen = Command { from: Cube::new(0, 0), to: Cube::new(1, 0) };
    let unseen = Command { from: Cube::new(5, 5), to: Cube::new(6, 6) };
    assert_eq!(seen.get_observed_sections(Some(&fog)), vec![seen]);
    assert!(unseen.get_observed_sections(Some(&fog)).is_empty());
    assert_eq!(unseen.get_observed_sections(None), vec![unseen]);
}
