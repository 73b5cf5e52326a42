use honeycomb::cubic::Cube;
use honeycomb::game::Game;
use honeycomb::world::orders::{attack, capture_tile, regroup};
use honeycomb::world::{Army, Player, Tile, TileCategory, World};

fn army(manpower: i32, morale: i32, owner: usize) -> Army {
    Army { manpower, morale, owner_index: Some(owner), can_move: true }
}

fn tile(owner: Option<usize>, army: Option<Army>) -> Tile {
    Tile { owner_index: owner, category: TileCategory::Farmland, locality: None, army }
}

#[test]
fn distance_is_symmetric_and_zero_only_at_home() {
    let cubes = [Cube::new(0, 0), Cube::new(3, -7), Cube::new(-4, 2), Cube::new(5, 5)];
    for a in &cubes {
        assert_eq!(a.distance(a), 0);
        for b in &cubes {
            assert_eq!(a.distance(b), b.distance(a));
            if a != b {
                assert!(a.distance(b) > 0);
            }
        }
    }
}

#[test]
fn read_after_write_and_remove() {
    let mut w = World::new();
    w.insert(Cube::new(1, 2), tile(Some(3), None));
    w.insert(Cube::new(2, 1), tile(Some(4), None));
    assert_eq!(w.get(&Cube::new(1, 2)).unwrap().owner_index, Some(3));
    w.insert(Cube::new(1, 2), tile(Some(5), None));
    assert_eq!(w.get(&Cube::new(1, 2)).unwrap().owner_index, Some(5));
    assert_eq!(w.get(&Cube::new(2, 1)).unwrap().owner_index, Some(4));
    w.remove(&Cube::new(1, 2));
    assert!(w.get(&Cube::new(1, 2)).is_none());
    assert_eq!(w.get(&Cube::new(2, 1)).unwrap().owner_index, Some(4));
}

#[test]
fn regrouping_keeps_every_man() {
    for (a, b) in [(60, 30), (60, 60), (99, 99), (1, 1), (50, 49), (50, 50)] {
        let mut w = World::new();
        w.insert(Cube::new(0, 0), tile(Some(0), Some(army(a, a / 2, 0))));
        w.insert(Cube::new(1, 0), tile(Some(0), Some(army(b, b / 3, 0))));
        regroup(&mut w, &Cube::new(0, 0), &Cube::new(1, 0));
        let left = w.get(&Cube::new(0, 0)).unwrap().army.as_ref().map_or(0, |x| x.manpower);
        let joined = w.get(&Cube::new(1, 0)).unwrap().army.as_ref().unwrap().manpower;
        assert_eq!(left + joined, a + b);
        assert!(joined <= 99);
    }
}

#[test]
fn after_an_attack_the_attacking_tile_is_empty() {
    for (o, t) in [((50, 40), (30, 20)), ((10, 5), (30, 20)), ((20, 20), (20, 20))] {
        let mut w = World::new();
        w.insert(Cube::new(0, 0), tile(Some(0), Some(army(o.0, o.1, 0))));
        w.insert(Cube::new(1, 0), tile(Some(1), Some(army(t.0, t.1, 1))));
        let losing = attack(&mut w, &Cube::new(0, 0), &Cube::new(1, 0));
        assert!(w.get(&Cube::new(0, 0)).unwrap().army.is_none());
        let winner = w.get(&Cube::new(1, 0)).unwrap().army.as_ref().unwrap().owner_index;
        if o.0 + o.1 > t.0 + t.1 {
            assert_eq!((winner, losing), (Some(0), Some(1)));
        } else {
            assert_eq!((winner, losing), (Some(1), Some(0)));
        }
    }
}

#[test]
fn morale_stays_between_floor_and_manpower() {
    let mut a = army(30, 25, 0);
    a.apply_morale_bonus(50);
    assert!(a.morale <= a.manpower);
    let mut b = army(30, 25, 0);
    b.apply_morale_penalty(90, 500);
    assert_eq!(b.morale, 10);
}

#[test]
fn capture_takes_the_owner_of_the_army() {
    let mut w = World::new();
    w.insert(Cube::new(0, 0), tile(Some(2), Some(army(10, 5, 0))));
    w.insert(Cube::new(1, 0), tile(Some(1), None));
    capture_tile(&mut w, &Cube::new(0, 0), &Cube::new(1, 0));
    assert_eq!(w.get(&Cube::new(1, 0)).unwrap().owner_index, Some(0));
}

#[test]
fn turns_go_round() {
    let mut world = World::new();
    world.insert(Cube::new(0, 0), tile(Some(0), None));
    let players = vec![Player::new("a", None), Player::new("b", None), Player::new("c", None)];
    let mut g = Game { turn: 1, players, world };
    let mut seen = vec![];
    for _ in 0..7 {
        seen.push(g.current_player_index());
        g.next_turn();
    }
    assert_eq!(seen, vec![0, 1, 2, 0, 1, 2, 0]);
}

#[test]
fn surrender_leaves_the_loser_nothing() {
    let mut w = World::new();
    for q in 0..4 {
        w.insert(Cube::new(q, 0), tile(Some((q % 2) as usize), Some(army(10, 5, (q % 2) as usize))));
    }
    w.surrender_to_player(&1, &0);
    assert_eq!(w.player_keys(1).len(), 0);
    assert_eq!(w.player_keys(0).len(), 4);
    assert!(w.get(&Cube::new(1, 0)).unwrap().army.is_none());
    assert!(w.get(&Cube::new(0, 0)).unwrap().army.is_some());
}
