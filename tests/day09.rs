use aoc25_rs::day09::{parse, rect_size, valid_rect};
use aoc25_rs::intmap::Coord;
use aoc25_rs::{Day, Day9};

const TEST_INPUT: &str = "
        7,1
        11,1
        11,7
        9,7
        9,5
        2,5
        2,3
        7,3
        ";

#[test]
fn day09_tparse() {
    let r = parse(TEST_INPUT).unwrap();
    assert_eq!(r.len(), 8);
    assert_eq!(r[0], Coord::from((7, 1)));
    assert_eq!(r[7], Coord::from((7, 3)));
}

#[test]
fn trect() {
    assert_eq!(rect_size((Coord::from((2, 5)), Coord::from((9, 7)))), Some(24));
}

#[test]
fn day09_p1() {
    assert_eq!(Day9::part1(TEST_INPUT).unwrap().to_string(), "50");
}

#[test]
fn vrect() {
    assert_eq!(
        valid_rect(
            &[[Coord::from((9, 7)), Coord::from((9, 5))]],
            &Coord::from((7, 1)),
            &Coord::from((11, 7))
        ),
        false
    );
}

#[test]
fn day09_p2() {
    assert_eq!(Day9::part2(TEST_INPUT).unwrap().to_string(), "24");
}

#[test]
fn day09_edges() {
    assert_eq!(Day9::part1("1,1"), None);
    assert_eq!(Day9::part2("1,1"), Some(0));
    assert_eq!(Day9::part1(""), None);
    assert_eq!(parse("1"), None);
    assert_eq!(parse("1,2,3"), Some(vec![Coord::from((1, 2))]));
    assert_eq!(rect_size((Coord::from((isize::MIN, 0)), Coord::from((isize::MAX, 0)))), None);
    assert_eq!(rect_size((Coord::from((-3, -3)), Coord::from((-3, -3)))), Some(1));
}
