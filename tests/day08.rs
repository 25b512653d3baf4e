use aoc25_rs::day08::{parse, solve1, V3};
use aoc25_rs::{Day, Day8};

const TEST_INPUT: &str = "
        162,817,812
        57,618,57
        906,360,560
        592,479,940
        352,342,300
        466,668,158
        542,29,236
        431,825,988
        739,650,466
        52,470,668
        216,146,977
        819,987,18
        117,168,530
        805,96,715
        346,949,466
        970,615,88
        941,993,340
        862,61,35
        984,92,344
        425,690,689
        ";

#[test]
fn day08_tparse() {
    let r = parse(TEST_INPUT).unwrap();
    assert_eq!(r.len(), 20);
    assert_eq!(*r.last().unwrap(), V3::from((425, 690, 689)));
}

#[test]
fn tsolve1() {
    assert_eq!(solve1(TEST_INPUT, 10), Some(40));
}

#[test]
fn tsolve2() {
    assert_eq!(solve1(TEST_INPUT, -1), Some(25272));
}

#[test]
fn day08_distances() {
    let a = V3::from((1, 2, 3));
    let b = V3::from((4, 6, 3));
    assert_eq!(a.dist_sq(&b), Some(25));
    let far = V3::from((isize::MAX, 0, 0));
    let near = V3::from((-1, 0, 0));
    assert_eq!(far.dist_sq(&near), None);
}

#[test]
fn day08_small_inputs() {
    // two points: one pair joins everything
    assert_eq!(Day8::part2("1,0,0\n3,0,0"), Some(3));
    // no rounds at all: no circuits, the empty product negated
    assert_eq!(solve1("1,0,0\n3,0,0\n9,9,9", 0), Some(-1));
    // the same point twice is one point: never all joined
    assert_eq!(solve1("1,0,0\n1,0,0\n2,0,0", -1), Some(2));
    assert_eq!(parse("1,2"), None);
}
