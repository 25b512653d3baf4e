use aoc25_rs::day06::{parse, parse2, solve_and_sum, Op};
use aoc25_rs::{Day, Day6};

const TEST_INPUT: &str =
    "123 328  51 64 \n 45 64  387 23 \n  6 98  215 314\n*   +   *   +  ";

#[test]
fn day06_tparse() {
    let eqs = parse(TEST_INPUT).unwrap();
    assert_eq!(eqs.len(), 4);
    assert_eq!(eqs[0].0, Op::Mult);
}

#[test]
fn day06_t1() {
    assert_eq!(Day6::part1(TEST_INPUT).unwrap().to_string(), "4277556");
}

#[test]
fn tparse2() {
    let eqs = parse2(TEST_INPUT).unwrap();
    assert_eq!(eqs[0], (Op::Add, vec![4, 431, 623]));
}

#[test]
fn day06_t2() {
    assert_eq!(Day6::part2(TEST_INPUT).unwrap().to_string(), "3263827");
}

#[test]
fn day06_sums_and_products() {
    assert_eq!(solve_and_sum(vec![(Op::Add, vec![1, 2, 3]), (Op::Mult, vec![2, 5])]), Some(16));
    assert_eq!(solve_and_sum(vec![(Op::Mult, vec![])]), Some(1));
    assert_eq!(solve_and_sum(vec![(Op::Mult, vec![1 << 40, 1 << 40, 0])]), None);
    assert_eq!(solve_and_sum(vec![(Op::Add, vec![u64::MAX, 1])]), None);
}

#[test]
fn day06_bad_sheets() {
    assert_eq!(parse("1 2\n+ -"), None);
    assert_eq!(parse("1 2 3\n+ *"), Some(vec![(Op::Add, vec![1]), (Op::Mult, vec![2])]));
    assert_eq!(parse2("12"), None);
    assert_eq!(parse2("12\n3"), None);
}
