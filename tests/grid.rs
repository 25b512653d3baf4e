use aoc25_rs::day_number;
use aoc25_rs::intmap::{raw_grid_shape, Coord, IntMap};

#[test]
fn grid_from_raw_reads_rows() {
    let m: IntMap<char> = IntMap::from_raw("  ab\r\n cd \n", |c| c);
    assert_eq!(m.width, 2);
    assert_eq!(m.height, 2);
    assert_eq!(m.cells, vec!['a', 'b', 'c', 'd']);
    assert_eq!(m.get((1, 1)), Some(&'d'));
    assert_eq!(m.get((2, 0)), None);
    assert_eq!(m.get((-1, 0)), None);
}

#[test]
fn grid_shape_refusals() {
    assert_eq!(raw_grid_shape("abc"), None);
    assert_eq!(raw_grid_shape("ab\nc"), None);
    assert_eq!(raw_grid_shape("ab\ncd\nef"), Some((2, 3)));
}

#[test]
fn grid_new_and_set() {
    let mut m: IntMap<u8> = IntMap::new(3, 2);
    assert_eq!(m.cells, vec![0; 6]);
    m.set((2, 1), 7);
    assert_eq!(m.get((2, 1)), Some(&7));
    assert_eq!(m.cells[5], 7);
}

#[test]
fn grid_index_arithmetic() {
    let m: IntMap<u8> = IntMap::new(4, 3);
    assert!(m.in_bounds((3, 2)));
    assert!(!m.in_bounds((4, 0)));
    assert!(!m.in_bounds((0, -1)));
    assert_eq!(m.pt_to_idx((1, 2)), 9);
    assert_eq!(m.idx_to_pt(9), (1, 2));
    assert_eq!(m.idx_to_pt(-5), (-1, -1));
}

#[test]
fn grid_walks_row_by_row() {
    let m: IntMap<u8> = IntMap::new(2, 2);
    let mut it = m.iter();
    let mut seen = vec![];
    while let Some(co) = it.next() {
        seen.push(co);
    }
    assert_eq!(seen, vec![(0, 0), (1, 0), (0, 1), (1, 1)]);
    assert_eq!(it.next(), None);
    let empty: IntMap<u8> = IntMap::new(0, 3);
    assert_eq!(empty.iter().next(), None);
}

#[test]
fn coords() {
    let c = Coord::xy(3, -4);
    assert_eq!(c.get(), (3, -4));
    assert_eq!(Coord::wrap((3, -4)), c);
    assert_eq!(Coord::from((3, -4)), c);
}

#[test]
fn day_names() {
    assert_eq!(day_number("day05"), Some(5));
    assert_eq!(day_number("Day8"), Some(8));
    assert_eq!(day_number("12"), Some(12));
    assert_eq!(day_number("Day"), None);
    assert_eq!(day_number("day300"), None);
    assert_eq!(day_number("dax"), None);
}

#[test]
fn grid_reads_characters() {
    let m: IntMap<char> = IntMap::from_raw("ab\ncé", |c| c);
    assert_eq!(m.width, 2);
    assert_eq!(m.height, 2);
    assert_eq!(m.cells, vec!['a', 'b', 'c', 'é']);
    assert_eq!(raw_grid_shape("\u{3000}éé\nxy\u{a0}"), Some((2, 2)));
}
