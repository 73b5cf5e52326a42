use honeycomb::cubic::Cube;
use honeycomb::world::{Army, Locality, LocalityCategory, Player, Tile, TileCategory, World};

#[test]
fn army_text_shows_men_and_morale() {
    let a = Army { manpower: 42, morale: 7, owner_index: Some(0), can_move: true };
    assert_eq!(a.to_string(), "(42/7)");
    let b = Army { manpower: -5, morale: i32::MIN, owner_index: None, can_move: false };
    assert_eq!(b.to_string(), "(-5/-2147483648)");
}

#[test]
fn cube_text_shows_both_axes() {
    assert_eq!(Cube::new(-3, 12).to_string(), "(-3, 12)");
    assert_eq!(Cube::new(0, 0).to_string(), "(0, 0)");
}

#[test]
fn category_names() {
    assert_eq!(TileCategory::Farmland.to_string(), "Farmland");
    assert_eq!(TileCategory::Water.to_string(), "Water");
    assert_eq!(LocalityCategory::City.to_string(), "City");
    assert_eq!(LocalityCategory::PortCity.to_string(), "Port City");
    assert_eq!(LocalityCategory::Capital.to_string(), "Capital");
    assert_eq!(LocalityCategory::SatelliteCapital.to_string(), "Satellite Capital");
    assert_eq!(LocalityCategory::Airport.to_string(), "Airport");
}

#[test]
fn locality_and_tile_text() {
    let l = Locality::new("Odesa", LocalityCategory::PortCity);
    assert_eq!(l.to_string(), "(Port City of Odesa)");
    let t = Tile { owner_index: None, category: TileCategory::Farmland, locality: Some(l), army: None };
    assert_eq!(t.to_string(), "(Port City of Odesa)");
    assert_eq!(Tile::new(TileCategory::Water).to_string(), "Water");
}

#[test]
fn player_and_world_text() {
    assert_eq!(Player::new("Redosia", None).to_string(), "Redosia");
    let mut w = World::new();
    assert_eq!(w.to_string(), "(0 tile-sized world with 0 players)");
    w.insert(Cube::new(0, 0), Tile { owner_index: Some(1), category: TileCategory::Farmland, locality: None, army: None });
    w.insert(Cube::new(1, 0), Tile::new(TileCategory::Farmland));
    w.insert(Cube::new(2, 0), Tile::new(TileCategory::Water));
    assert_eq!(w.to_string(), "(3 tile-sized world with 1 players)");
}
