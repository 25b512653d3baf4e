use aoc25_rs::day07::{active, parse, Cell};
use aoc25_rs::{Day, Day7};

const TEST_INPUT: &str = "
    .......S.......
    ...............
    .......^.......
    ...............
    ......^.^......
    ...............
    .....^.^.^.....
    ...............
    ....^.^...^....
    ...............
    ...^.^...^.^...
    ...............
    ..^...^.....^..
    ...............
    .^.^.^.^.^...^.
    ...............
    ";

#[test]
fn day07_tparse() {
    let m = parse(TEST_INPUT).unwrap();
    assert_eq!(m.get((7, 0)), Some(&Cell::Beam));
}

#[test]
fn day07_t1() {
    let r = Day7::part1(TEST_INPUT).unwrap();
    assert_eq!(r.to_string(), "21");
}

#[test]
fn day07_t2() {
    let r = Day7::part2(TEST_INPUT).unwrap();
    assert_eq!(r.to_string(), "40");
}

#[test]
fn day07_active_columns() {
    let m = parse("S.|\n.^.").unwrap();
    assert_eq!(active(&m, 0), vec![0, 2]);
    assert_eq!(active(&m, 1), Vec::<isize>::new());
}

#[test]
fn day07_splitter_at_the_edge() {
    // a beam split at the left edge only goes right
    assert_eq!(Day7::part1("S.\n^."), Some(1));
    assert_eq!(Day7::part2("S.\n^."), Some(1));
    assert_eq!(Day7::part2(".S.\n.^.\n^.^"), Some(2));
}
