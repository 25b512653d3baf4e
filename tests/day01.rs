use aoc25_rs::day01::{parse, Direction};
use aoc25_rs::{Day, Day1};

const TEST_INPUT: &str = "L68
    L30
    R48
    L5
    R60
    L55
    L1
    L99
    R14
    L82";

#[test]
fn p() {
    let steps = parse("L2\nR82\nL10").unwrap();
    assert_eq!(
        steps,
        vec![
            Direction::Left(2),
            Direction::Right(82),
            Direction::Left(10)
        ]
    );
}

#[test]
fn day01_p2() {
    let res = Day1::part2(TEST_INPUT).unwrap();
    assert_eq!(res.to_string(), "6");
}

#[test]
fn day01_p1_example() {
    assert_eq!(Day1::part1(TEST_INPUT), Some(3));
}

#[test]
fn day01_full_turns_count_each_pass() {
    // from 50, right by 1000 passes zero ten times
    assert_eq!(Day1::part2("R1000"), Some(10));
    // left by 50 lands on zero once; a further left 100 passes it again
    assert_eq!(Day1::part2("L50\nL100"), Some(2));
    assert_eq!(Day1::part1("L50\nL100"), Some(2));
}

#[test]
fn day01_negative_count_is_refused_in_part2() {
    assert_eq!(Day1::part2("R-5"), None);
    assert_eq!(Day1::part1("R-50"), Some(1));
}

#[test]
fn day01_bad_lines() {
    assert_eq!(parse("X5"), None);
    assert_eq!(parse("L"), None);
    assert_eq!(Day1::part1("L5\n\nR5"), None);
    assert_eq!(parse(""), Some(vec![]));
}
