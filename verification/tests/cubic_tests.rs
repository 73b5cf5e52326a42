use honeycomb::cubic::{Cube, triangular_number, directions, rev_directions, Orientation, OrientationKind};
use honeycomb::river::CubeSide;

#[test]
fn cube_coordinates() {
    let c = Cube::new(3, -5);
    assert_eq!(c.q(), 3);
    assert_eq!(c.r(), -5);
    assert_eq!(c.s(), 2);
}

#[test]
fn cube_key_round_trip() {
    for c in [Cube::new(0, 0), Cube::new(-7, 12), Cube::new(i32::MAX, i32::MIN), Cube::new(i32::MIN, i32::MAX)] {
        assert_eq!(Cube::from_key(c.key()), c);
    }
    assert_ne!(Cube::new(1, 2).key(), Cube::new(2, 1).key());
}

#[test]
fn cube_arithmetic() {
    let a = Cube::new(1, -2);
    let b = Cube::new(3, 4);
    assert_eq!(a.add(b), Cube::new(4, 2));
    assert_eq!(a.sub(b), Cube::new(-2, -6));
    assert_eq!(a.mul(3), Cube::new(3, -6));
    assert_eq!(a.neg(), Cube::new(-1, 2));
    let mut c = a;
    c.add_assign(b);
    assert_eq!(c, Cube::new(4, 2));
}

#[test]
fn cube_length_and_distance() {
    assert_eq!(Cube::new(0, 0).length(), 0);
    assert_eq!(Cube::new(2, -1).length(), 2);
    assert_eq!(Cube::new(3, 3).length(), 6);
    let a = Cube::new(1, 1);
    let b = Cube::new(18, -8);
    assert_eq!(a.distance(&b), 17);
    assert_eq!(b.distance(&a), 17);
    assert_eq!(a.distance(&a), 0);
}

#[test]
fn ring_and_disc() {
    let c = Cube::new(0, 0);
    assert!(c.ring(0).is_empty());
    let r1 = c.ring(1);
    assert_eq!(r1.len(), 6);
    assert_eq!(r1[0], Cube::new(-1, 0));
    for x in &r1 {
        assert_eq!(x.distance(&c), 1);
    }
    let r3 = Cube::new(5, -2).ring(3);
    assert_eq!(r3.len(), 18);
    for x in &r3 {
        assert_eq!(x.distance(&Cube::new(5, -2)), 3);
    }
    let d = c.disc(2);
    assert_eq!(d.len(), 18);
    for (i, x) in d.iter().enumerate() {
        let dist = x.distance(&c);
        assert!(dist == 1 || dist == 2);
        for y in &d[i + 1..] {
            assert_ne!(x, y);
        }
        assert!(!d.contains(&c));
    }
}

#[test]
fn triangular_numbers() {
    assert_eq!(triangular_number(0), 0);
    assert_eq!(triangular_number(1), 1);
    assert_eq!(triangular_number(4), 10);
    assert_eq!(triangular_number(10), 55);
    assert_eq!(triangular_number(-3), -3);
}

#[test]
fn the_six_directions() {
    let d = directions();
    let r = rev_directions();
    for i in 0..6 {
        assert_eq!(d[i].length(), 1);
        assert_eq!(d[i], r[5 - i]);
    }
}

#[test]
fn orientation_inner() {
    let o = Orientation { f0: 1, f1: 2, f2: 3, f3: 4, b0: 5, b1: 6, b2: 7, b3: 8, start_angle: 9 };
    let p = OrientationKind::Pointy(o);
    let f = OrientationKind::Flat(o);
    assert_eq!(p.inner().f1, 2);
    assert_eq!(f.inner().start_angle, 9);
}

#[test]
fn cube_side_whole_part() {
    let side = CubeSide { int: Cube::new(1, 0), half: Cube::new(false, true), sign: Cube::new(true, false) };
    assert_eq!(side.signed_int(), Cube::new(1, 0));
    let side = CubeSide { int: Cube::new(-2, 3), half: Cube::new(true, false), sign: Cube::new(false, true) };
    assert_eq!(side.signed_int(), Cube::new(-2, 3));
    let side = CubeSide { int: Cube::new(2, 3), half: Cube::new(true, false), sign: Cube::new(false, false) };
    assert_eq!(side.signed_int(), Cube::new(-2, -3));
}

#[test]
fn cube_side_scaled() {
    // the edge (0.5, -0.5), scaled by -1, is (-0.5, 0.5)
    let side = CubeSide { int: Cube::new(0, 0), half: Cube::new(true, true), sign: Cube::new(true, false) };
    let m = side.mul(-1);
    assert_eq!(m.int, Cube::new(0, 0));
    assert_eq!(m.half, Cube::new(true, true));
    assert_eq!(m.sign, Cube::new(false, true));
    // scaled by 2 it becomes the whole cube (1, 1): the halves carry
    let m2 = side.mul(2);
    assert_eq!(m2.int, Cube::new(1, 1));
    assert_eq!(m2.half, Cube::new(false, false));
    assert_eq!(m2.sign, Cube::new(true, false));
    // scaled by 3 it keeps its halves and flips its signs
    let m3 = CubeSide { int: Cube::new(1, 0), half: Cube::new(true, false), sign: Cube::new(true, true) }.mul(3);
    assert_eq!(m3.int, Cube::new(4, 0));
    assert_eq!(m3.half, Cube::new(true, false));
    assert_eq!(m3.sign, Cube::new(false, false));
}
