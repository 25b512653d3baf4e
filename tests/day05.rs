use aoc25_rs::day05::parse;
use aoc25_rs::{Day, Day5};

const TEST_INPUT: &str = "
    3-5
    10-14
    16-20
    12-18

    1
    5
    8
    11
    17
    32";

#[test]
fn day05_tparse() {
    let d = parse(TEST_INPUT).unwrap();

    assert!(d.fresh_ranges.starts_with(&[(3, 5), (10, 14)]));
    assert!(d.fresh_ranges.ends_with(&[(16, 20)]));

    assert_eq!(d.ingredients, [1, 5, 8, 11, 17, 32]);
}

#[test]
fn day05_t1() {
    assert_eq!(Day5::part1(TEST_INPUT).unwrap().to_string(), "3");
}

#[test]
fn day05_t2() {
    assert_eq!(Day5::part2(TEST_INPUT).unwrap().to_string(), "14");
}

#[test]
fn day05_ranges_sorted_stably_and_swapped_as_text() {
    let d = parse("5-9\n2-3\n5-6\n\n1").unwrap();
    assert_eq!(d.fresh_ranges, vec![(2, 3), (5, 9), (5, 6)]);
    // "9" comes after "10" as text, so the sides swap
    let d = parse("9-10\n\n1").unwrap();
    assert_eq!(d.fresh_ranges, vec![(10, 9)]);
    assert_eq!(Day5::part2("9-10\n\n1"), None);
}

#[test]
fn day05_missing_blank_line_or_bad_numbers() {
    assert!(parse("1-2\n3").is_none());
    assert!(parse("1-2\n\nx").is_none());
    assert!(parse("1+2\n\n3").is_none());
    assert_eq!(Day5::part2("1-3\n2-6\n10-10\n\n4"), Some(7));
    assert_eq!(Day5::part1("1-3\n2-6\n10-10\n\n4\n7\n10"), Some(2));
}
