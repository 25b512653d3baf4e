use aoc25_rs::day04::{adjacent_cos, count_adjacent_paper, parse, Cell};
use aoc25_rs::{Day, Day4};

const TEST_INPUT: &str = "
        ..@@.@@@@.
        @@@.@.@.@@
        @@@@@.@.@@
        @.@@@@..@.
        @@.@@@@.@@
        .@@@@@@@.@
        .@.@.@.@@@
        @.@@@.@@@@
        .@@@@@@@@.
        @.@.@@@.@.
        ";

#[test]
fn day04_tparse() {
    let m = parse(TEST_INPUT).unwrap();
    assert_eq!(m.get((0, 0)), Some(&Cell::Empty));
    assert_eq!(m.get((0, 1)), Some(&Cell::Paper));
    assert_eq!(m.get((0, 9)), Some(&Cell::Paper));
}

#[test]
fn tadjacent() {
    assert_eq!(
        adjacent_cos((4, 0)),
        vec![
            (3, -1),
            (3, 0),
            (3, 1),
            (4, -1),
            (4, 1),
            (5, -1),
            (5, 0),
            (5, 1)
        ]
    );
}

#[test]
fn day04_tp1() {
    assert_eq!(Day4::part1(TEST_INPUT).unwrap().to_string(), 13.to_string());
}

#[test]
fn day04_tp2() {
    assert_eq!(Day4::part2(TEST_INPUT).unwrap().to_string(), 43.to_string());
}

#[test]
fn day04_neighbours_at_the_edge() {
    let m = parse("@@\n@.").unwrap();
    assert_eq!(count_adjacent_paper(&m, (0, 0)), 2);
    assert_eq!(count_adjacent_paper(&m, (1, 1)), 3);
    assert_eq!(Day4::part1("@@\n@."), Some(3));
    assert_eq!(Day4::part2("@@\n@."), Some(3));
}

#[test]
fn day04_bad_grids() {
    assert!(parse("@x\n..").is_none());
    assert!(parse("@@@").is_none());
    assert!(parse("@@\n@").is_none());
}
