use aoc25_rs::day03::{max_in_slice, parse};
use aoc25_rs::{Day, Day3};

const TEST_INPUT: &str = "
        987654321111111
        811111111111119
        234234234234278
        818181911112111";

#[test]
fn day03_tparse() {
    let i = parse(TEST_INPUT).unwrap();
    assert_eq!(i[0][0], 9);
    assert_eq!(i[1][0], 8);
    assert_eq!(*i[3].last().unwrap(), 1);
    assert_eq!(i[3][0..=6], vec![8, 1, 8, 1, 8, 1, 9]);
}

#[test]
fn maxmax() {
    let max1 = max_in_slice(&[1, 2, 3, 4, 3, 2, 1]);
    assert_eq!(max1, (3, 4));

    let max2 = max_in_slice(&[1, 2, 3, 4, 3, 2, 1][max1.0 + 1..]);
    assert_eq!(max2, (0, 3));
}

#[test]
fn day03_p1() {
    assert_eq!(Day3::part1(TEST_INPUT).unwrap().to_string(), "357");
}

#[test]
fn day03_p2() {
    assert_eq!(Day3::part2(TEST_INPUT).unwrap().to_string(), "3121910778619");
}

#[test]
fn day03_first_of_equal_values_wins() {
    assert_eq!(max_in_slice(&[5, 9, 9, 1]), (1, 9));
    assert_eq!(max_in_slice(&[7]), (0, 7));
}

#[test]
fn day03_short_rows_and_bad_bytes() {
    assert_eq!(Day3::part1("9"), None);
    assert_eq!(Day3::part2("12345678901"), None);
    assert_eq!(Day3::part2("123456789012"), Some(123456789012));
    assert_eq!(Day3::part1("19\n91"), Some(19 + 91));
    assert_eq!(parse("1/2"), None);
    assert_eq!(Day3::part1(""), Some(0));
}
