use aoc25_rs::day02::{any_repeats, collect_repeats, count_digits, n_repeats, next_2_repeat, parse};
use aoc25_rs::{Day, Day2};

const TEST_INPUT: &str = "11-22,95-115,998-1012,1188511880-1188511890,222220-222224,1698522-1698528,446443-446449,38593856-38593862,565653-565659,824824821-824824827,2121212118-2121212124";

#[test]
fn parsing() {
    let v = parse(TEST_INPUT);
    assert_eq!(v[0], (11, 22));
    assert_eq!(*v.last().unwrap(), (2121212118, 2121212124));
}

#[test]
fn nexts() {
    assert_eq!(next_2_repeat(11), 11);
    assert_eq!(next_2_repeat(12), 22);
}

#[test]
fn digits() {
    assert_eq!(count_digits(99), 2);
    assert_eq!(count_digits(100), 3);
    assert_eq!(count_digits(1001), 4);
    assert_eq!(count_digits(99999), 5);
}

#[test]
fn repeats() {
    assert_eq!(collect_repeats((95, 115)), vec![99]);
    assert_eq!(collect_repeats((998, 1012)), vec![1010]);
    assert_eq!(collect_repeats((1188511880, 1188511890)), vec![1188511885]);
}

#[test]
fn sum_repeats() {
    assert_eq!(Day2::part1(TEST_INPUT).unwrap().to_string(), "1227775554");
}

#[test]
fn test_any_repeats() {
    assert_eq!(any_repeats((11, 22)), vec![11, 22]);
    assert_eq!(any_repeats((998, 1012)), vec![999, 1010]);

    assert_eq!(Day2::part2(TEST_INPUT).unwrap().to_string(), "4174379265");
}

#[test]
fn test_n_repeats() {
    assert_eq!(n_repeats(&(998, 1012), 2), vec![1010]);
    assert_eq!(n_repeats(&(998, 1012), 3), vec![999]);
}

#[test]
fn day02_digit_edges() {
    assert_eq!(count_digits(0), 1);
    assert_eq!(count_digits(9), 1);
    assert_eq!(count_digits(10), 2);
    assert_eq!(count_digits(u64::MAX), 20);
}

#[test]
fn day02_next_crosses_digit_counts() {
    assert_eq!(next_2_repeat(0), 11);
    assert_eq!(next_2_repeat(100), 1010);
    assert_eq!(next_2_repeat(99), 99);
    assert_eq!(next_2_repeat(9999999999), 9999999999);
    assert_eq!(next_2_repeat(10000000000), 100000100000);
    assert_eq!(next_2_repeat(18446744071844674407), 18446744071844674407);
}

#[test]
fn day02_ranges_near_the_top() {
    assert_eq!(collect_repeats((18446744071844674400, u64::MAX)), vec![18446744071844674407]);
    assert_eq!(collect_repeats((30, 20)), Vec::<u64>::new());
    assert_eq!(n_repeats(&(10, 12), 1), vec![10, 11, 12]);
}

#[test]
fn day02_bad_pieces_are_skipped() {
    assert_eq!(parse("1-2,x-3,4-5-6,7-8"), vec![(1, 2), (7, 8)]);
    assert_eq!(parse(" 1-2 , 3-4 "), vec![(1, 2), (3, 4)]);
    assert_eq!(Day2::part1(""), Some(0));
}
