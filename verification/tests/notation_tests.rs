use honeycomb::cubic::Cube;
use honeycomb::notation::{cube_to_text, parse_cube, parse_int};

fn text(q: i32, r: i32) -> String {
    String::from_utf8(cube_to_text(&Cube::new(q, r))).unwrap()
}

#[test]
fn cube_text_joins_coordinates() {
    assert_eq!(text(-3, 12), "-3_12");
    assert_eq!(text(0, 0), "0_0");
    assert_eq!(text(i32::MIN, i32::MAX), "-2147483648_2147483647");
}

#[test]
fn parse_cube_reads_coordinates() {
    let c = parse_cube(b"-3_12").unwrap();
    assert_eq!((c.0, c.1), (-3, 12));
    let c = parse_cube(b"+5_0").unwrap();
    assert_eq!((c.0, c.1), (5, 0));
    let c = parse_cube(b"-2147483648_2147483647").unwrap();
    assert_eq!((c.0, c.1), (i32::MIN, i32::MAX));
}

#[test]
fn parse_cube_refuses_malformed_text() {
    assert!(parse_cube(b"12").is_none());
    assert!(parse_cube(b"1_2_3").is_none());
    assert!(parse_cube(b"_1").is_none());
    assert!(parse_cube(b"1_").is_none());
    assert!(parse_cube(b"a_1").is_none());
    assert!(parse_cube(b"2147483648_0").is_none());
    assert!(parse_cube(b"").is_none());
}

#[test]
fn cube_text_round_trips() {
    for (q, r) in [(0, 0), (-7, 4), (123, -456), (i32::MIN, i32::MIN), (i32::MAX, 1)] {
        let t = cube_to_text(&Cube::new(q, r));
        let c = parse_cube(&t).unwrap();
        assert_eq!((c.0, c.1), (q, r));
    }
}

#[test]
fn parse_int_follows_std() {
    for s in ["0", "-0", "+7", "-15", "007", "2147483647", "-2147483648", "2147483648", "", "-", "+", "1a", " 1", "--1"] {
        assert_eq!(parse_int(s.as_bytes()), s.parse::<i32>().ok(), "{}", s);
    }
}
