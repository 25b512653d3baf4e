use aoc25_rs::day10::{apply_combo_toggle, fewest_presses, parse, solve_machine_inc, solve_machine_toggle};
use aoc25_rs::{Day, Day10};

const TEST_INPUT: &str = "
    [.##.] (3) (1,3) (2) (2,3) (0,2) (0,1) {3,5,4,7}
    [...#.] (0,2,3,4) (2,3) (0,4) (0,1,2) (1,2,3,4) {7,5,12,7,2}
    [.###.#] (0,1,2,3,4) (0,3,4) (0,1,2,4,5) (1,2) {10,11,11,5,10,5}
    ";

#[test]
fn day10_tparse() {
    let ms = parse(TEST_INPUT).unwrap();
    assert_eq!(ms.len(), 3);

    let m = &ms[1];

    assert_eq!(m.target_indicators, &[0, 0, 0, 1, 0]);
    assert_eq!(m.joltages, &[7, 5, 12, 7, 2]);
    assert_eq!(m.button_combos[0], &[0, 2, 3, 4]);
}

#[test]
fn tlogic() {
    let mut ms = parse(TEST_INPUT).unwrap();
    let m = ms.get_mut(1).unwrap();

    apply_combo_toggle(&mut m.indicators, &m.button_combos[0]);
    assert_eq!(m.indicators, &[1, 0, 1, 1, 1]);
    apply_combo_toggle(&mut m.target_indicators, &m.button_combos[0]);
    assert_eq!(m.target_indicators, &[1, 0, 1, 0, 1]);
}

#[test]
fn tsolve_machine() {
    let ms = parse(TEST_INPUT).unwrap();
    let m = &ms[1];

    assert_eq!(solve_machine_toggle(m), Some(3));
}

#[test]
fn day10_tp1() {
    assert_eq!(Day10::part1(TEST_INPUT).unwrap().to_string(), "7");
}

#[test]
fn day10_tp2() {
    assert_eq!(Day10::part2(TEST_INPUT).unwrap().to_string(), "33");
}

#[test]
fn day10_counters_per_machine() {
    let ms = parse(TEST_INPUT).unwrap();
    assert_eq!(solve_machine_inc(&ms[0]), Some(10));
    assert_eq!(solve_machine_toggle(&ms[0]), Some(2));
}

#[test]
fn day10_unreachable_and_bad_machines() {
    // the one button never reaches a state with only light 1 on
    assert_eq!(fewest_presses(&vec![0, 0], &vec![0, 1], &vec![vec![0]], true, &vec![0, 1]), None);
    // lights already as wanted still take a press: two presses undo each other
    assert_eq!(fewest_presses(&vec![0], &vec![0], &vec![vec![0]], true, &vec![0]), Some(2));
    // a button that names a light that does not exist
    assert_eq!(Day10::part1("[.#] (5) {1,1}"), None);
    assert!(parse("[.x] (0) {1}").is_none());
    assert!(parse("[.#]  (0) {1}").is_none());
}

#[test]
fn day10_many_lights_one_press() {
    let n = 64;
    let all: Vec<usize> = (0..n).collect();
    assert_eq!(fewest_presses(&vec![0; n], &vec![1; n], &vec![all.clone()], true, &vec![1; n]), Some(1));
    assert_eq!(fewest_presses(&vec![0; n], &vec![1; n], &vec![all], false, &vec![1; n]), Some(1));
}

#[test]
fn day10_counters_cannot_pass_their_targets() {
    // the only button adds 2 to counter 0: 3 is never reached
    assert_eq!(fewest_presses(&vec![0], &vec![3], &vec![vec![0, 0]], false, &vec![3]), None);
    assert_eq!(fewest_presses(&vec![0], &vec![4], &vec![vec![0, 0]], false, &vec![4]), Some(2));
}
