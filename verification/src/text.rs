//! The text in which values of the game are shown to people: an army as
//! `(men/morale)`, a cube as `(q, r)`, a locality as `(Port City of Odesa)`.

use vstd::prelude::*;
use crate::cubic::Cube;
use crate::world::{Army, Locality, LocalityCategory, Player, Tile, TileCategory, World};

verus! {

broadcast use vstd::std_specs::hash::group_hash_axioms;

/// The character of the decimal digit `d`.
pub open spec fn digit_char(d: int) -> char {
    if d == 0 {
        '0'
    } else if d == 1 {
        '1'
    } else if d == 2 {
        '2'
    } else if d == 3 {
        '3'
    } else if d == 4 {
        '4'
    } else if d == 5 {
        '5'
    } else if d == 6 {
        '6'
    } else if d == 7 {
        '7'
    } else if d == 8 {
        '8'
    } else {
        '9'
    }
}

/// The decimal digits of `n`, most significant first, without leading zeros.
pub open spec fn digit_chars(n: nat) -> Seq<char>
    decreases n,
{
    if n < 10 {
        seq![digit_char(n as int)]
    } else {
        digit_chars(n / 10).push(digit_char((n % 10) as int))
    }
}

/// `v` in decimal, with a minus sign when negative.
pub open spec fn decimal_chars(v: int) -> Seq<char> {
    if v < 0 {
        seq!['-'] + digit_chars((-v) as nat)
    } else {
        digit_chars(v as nat)
    }
}

/// The name of a terrain.
pub open spec fn tile_category_text(c: TileCategory) -> Seq<char> {
    match c {
        TileCategory::Farmland => "Farmland"@,
        TileCategory::Water => "Water"@,
    }
}

/// The name of a kind of locality.
pub open spec fn locality_category_text(c: LocalityCategory) -> Seq<char> {
    match c {
        LocalityCategory::City => "City"@,
        LocalityCategory::PortCity => "Port City"@,
        LocalityCategory::Capital => "Capital"@,
        LocalityCategory::SatelliteCapital => "Satellite Capital"@,
        LocalityCategory::Airport => "Airport"@,
    }
}

/// A locality: its kind and its name, in brackets.
pub open spec fn locality_text(l: Locality) -> Seq<char> {
    "("@ + locality_category_text(l.category) + " of "@ + l.name@ + ")"@
}

/// Appends the digit `d`.
fn push_digit(s: &mut String, d: u64)
    requires
        d < 10,
    ensures
        final(s)@ == old(s)@.push(digit_char(d as int)),
{
    proof {
        reveal_strlit("0");
        reveal_strlit("1");
        reveal_strlit("2");
        reveal_strlit("3");
        reveal_strlit("4");
        reveal_strlit("5");
        reveal_strlit("6");
        reveal_strlit("7");
        reveal_strlit("8");
        reveal_strlit("9");
    }
    if d == 0 {
        s.append("0");
    } else if d == 1 {
        s.append("1");
    } else if d == 2 {
        s.append("2");
    } else if d == 3 {
        s.append("3");
    } else if d == 4 {
        s.append("4");
    } else if d == 5 {
        s.append("5");
    } else if d == 6 {
        s.append("6");
    } else if d == 7 {
        s.append("7");
    } else if d == 8 {
        s.append("8");
    } else {
        s.append("9");
    }
}

/// Appends the decimal digits of `n`.
fn push_digits(s: &mut String, n: u64)
    ensures
        final(s)@ == old(s)@ + digit_chars(n as nat),
    decreases n,
{
    if n >= 10 {
        push_digits(s, n / 10);
    }
    push_digit(s, n % 10);
    proof {
        if n >= 10 {
            assert(digit_chars(n as nat) == digit_chars((n / 10) as nat).push(digit_char((n % 10) as int)));
        }
    }
    assert(s@ =~= old(s)@ + digit_chars(n as nat));
}

/// Appends `v` in decimal.
fn push_decimal(s: &mut String, v: i32)
    ensures
        final(s)@ == old(s)@ + decimal_chars(v as int),
{
    if v < 0 {
        proof {
            reveal_strlit("-");
        }
        s.append("-");
        let magnitude: u64 = (0 - (v as i64)) as u64;
        push_digits(s, magnitude);
        assert(s@ =~= old(s)@ + decimal_chars(v as int));
    } else {
        push_digits(s, v as u64);
    }
}

impl Army {
    /// The army as `(men/morale)`.
    pub fn to_string(&self) -> (s: String)
        ensures
            s@ == "("@ + decimal_chars(self.manpower as int) + "/"@ + decimal_chars(self.morale as int) + ")"@,
    {
        let mut s = String::new();
        s.append("(");
        push_decimal(&mut s, self.manpower);
        s.append("/");
        push_decimal(&mut s, self.morale);
        s.append(")");
        s
    }
}

impl Cube<i32> {
    /// The cube as `(q, r)`.
    pub fn to_string(&self) -> (s: String)
        ensures
            s@ == "("@ + decimal_chars(self.0 as int) + ", "@ + decimal_chars(self.1 as int) + ")"@,
    {
        let mut s = String::new();
        s.append("(");
        push_decimal(&mut s, self.0);
        s.append(", ");
        push_decimal(&mut s, self.1);
        s.append(")");
        s
    }
}

impl TileCategory {
    /// The name of the terrain.
    pub fn to_string(&self) -> (s: String)
        ensures
            s@ == tile_category_text(*self),
    {
        match self {
            TileCategory::Farmland => String::from_str("Farmland"),
            TileCategory::Water => String::from_str("Water"),
        }
    }
}

impl LocalityCategory {
    /// The name of the kind of locality.
    pub fn to_string(&self) -> (s: String)
        ensures
            s@ == locality_category_text(*self),
    {
        match self {
            LocalityCategory::City => String::from_str("City"),
            LocalityCategory::PortCity => String::from_str("Port City"),
            LocalityCategory::Capital => String::from_str("Capital"),
            LocalityCategory::SatelliteCapital => String::from_str("Satellite Capital"),
            LocalityCategory::Airport => String::from_str("Airport"),
        }
    }
}

impl Locality {
    /// The locality as `(kind of name)`.
    pub fn to_string(&self) -> (s: String)
        ensures
            s@ == locality_text(*self),
    {
        let mut s = String::new();
        s.append("(");
        let category = self.category.to_string();
        s.append(category.as_str());
        s.append(" of ");
        s.append(self.name.as_str());
        s.append(")");
        s
    }
}

impl Tile {
    /// The tile as its locality, or as its terrain where it has none.
    pub fn to_string(&self) -> (s: String)
        ensures
            s@ == match self.locality {
                Some(l) => locality_text(l),
                None => tile_category_text(self.category),
            },
    {
        match &self.locality {
            Some(l) => l.to_string(),
            None => self.category.to_string(),
        }
    }
}

impl Player {
    /// The player's name.
    pub fn to_string(&self) -> (s: String)
        ensures
            s@ == self.name@,
    {
        self.name.clone()
    }
}

impl World {
    /// The world as `(n tile-sized world with p players)`, where `p` counts
    /// the players that have owned a tile.
    pub fn to_string(&self) -> (s: String)
        ensures
            s@ == "("@ + digit_chars(self.world@.len()) + " tile-sized world with "@
                + digit_chars(self.cubes_by_ownership@.len()) + " players)"@,
    {
        let mut s = String::new();
        s.append("(");
        push_digits(&mut s, self.world.len() as u64);
        s.append(" tile-sized world with ");
        push_digits(&mut s, self.cubes_by_ownership.len() as u64);
        s.append(" players)");
        s
    }
}

} // verus!
