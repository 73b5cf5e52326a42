//! Rivers run along the edges between hexagons. An edge is the midpoint of
//! two neighbouring cubes, whose coordinates are integers or halves; it is
//! stored as its whole part, which coordinates have a half, and the sign of
//! each coordinate (so that `-0.5` can be told from `0.5`).

use vstd::prelude::*;
use crate::cubic::{Cube, abs, in_i32};

verus! {

/// The edge between two neighbouring hexagons.
#[derive(Clone, Copy, PartialEq, Eq, Hash, Default, Debug, Structural)]
pub struct CubeSide {
    pub int: Cube<i32>,
    pub half: Cube<bool>,
    pub sign: Cube<bool>,
}

/// The magnitude of `v` carrying the sign `positive`.
pub open spec fn with_sign(v: i32, positive: bool) -> int {
    if positive {
        abs(v as int)
    } else {
        -abs(v as int)
    }
}

/// The whole part of the edge, with its signs applied.
pub open spec fn side_int(s: CubeSide) -> Cube<i32> {
    Cube(with_sign(s.int.0, s.sign.0) as i32, with_sign(s.int.1, s.sign.1) as i32)
}

/// `rhs` is odd.
pub open spec fn is_odd(rhs: i32) -> bool {
    rhs % 2 != 0
}

/// The edge scaled by `rhs`: the signed whole part is scaled, a half of a
/// coordinate adds one to it when `|rhs| >= 2`, a half remains only when
/// `rhs` is odd, and an odd `rhs` flips the signs.
pub open spec fn side_scaled(s: CubeSide, rhs: i32) -> CubeSide {
    let base = side_int(s);
    let carry = rhs >= 2 || rhs <= -2;
    CubeSide {
        int: Cube(
            (base.0 * rhs + if s.half.0 && carry { 1int } else { 0int }) as i32,
            (base.1 * rhs + if s.half.1 && carry { 1int } else { 0int }) as i32,
        ),
        half: Cube(is_odd(rhs) && s.half.0, is_odd(rhs) && s.half.1),
        sign: if is_odd(rhs) { Cube(!s.sign.0, !s.sign.1) } else { s.sign },
    }
}

/// Flips a sign when told to.
fn flip(b: bool, odd: bool) -> (r: bool)
    ensures
        r == if odd { !b } else { b },
{
    if odd { !b } else { b }
}

impl CubeSide {
    /// The whole part of the edge, with its signs applied.
    pub fn signed_int(self) -> (c: Cube<i32>)
        requires
            self.int.0 != i32::MIN,
            self.int.1 != i32::MIN,
        ensures
            c == side_int(self),
    {
        let q_abs = if self.int.q() < 0 { -self.int.q() } else { self.int.q() };
        let r_abs = if self.int.r() < 0 { -self.int.r() } else { self.int.r() };
        let q = if self.sign.q() { q_abs } else { -q_abs };
        let r = if self.sign.r() { r_abs } else { -r_abs };
        Cube::new(q, r)
    }

    /// The edge scaled by `rhs` (see `side_scaled`).
    pub fn mul(self, rhs: i32) -> (r: CubeSide)
        requires
            self.int.0 != i32::MIN,
            self.int.1 != i32::MIN,
            in_i32(side_int(self).0 * rhs, side_int(self).1 * rhs),
            in_i32(side_int(self).0 * rhs + 1, side_int(self).1 * rhs + 1),
        ensures
            r == side_scaled(self, rhs),
    {
        let scaled = self.signed_int().mul(rhs);
        let carry = rhs >= 2 || rhs <= -2;
        let odd = rhs % 2 != 0;
        let q = if self.half.q() && carry { scaled.q() + 1 } else { scaled.q() };
        let r = if self.half.r() && carry { scaled.r() + 1 } else { scaled.r() };
        CubeSide {
            int: Cube::new(q, r),
            half: Cube::new(odd && self.half.q(), odd && self.half.r()),
            sign: Cube::new(flip(self.sign.q(), odd), flip(self.sign.r(), odd)),
        }
    }
}

} // verus!
