//! Beams moving down a grid and splitting at splitters: how many splits,
//! and how many paths.
use crate::intmap::{grid_data, raw_grid_shape, raw_shape, trim_chars, IntMap};
use crate::Day;
use vstd::arithmetic::div_mod::{lemma_fundamental_div_mod_converse, lemma_mod_pos_bound};
use vstd::prelude::*;
use vstd::string::StringSliceAdditionalSpecFns;

verus! {

#[derive(Debug, Eq, PartialEq, Clone, Copy, Structural)]
pub enum Cell {
    Empty,
    Splitter,
    Beam,
}

/// The cell that a character stands for: `^` a splitter, `|` or `S` a
/// beam, anything else empty.
pub open spec fn cell_of_char(c: char) -> Cell {
    if c == '^' {
        Cell::Splitter
    } else if c == '|' || c == 'S' {
        Cell::Beam
    } else {
        Cell::Empty
    }
}

/// The grid of a text: width, height and cells, where the text holds a grid
/// whose count of cells fits in an `isize`.
pub open spec fn spec_parse(input: Seq<char>) -> Option<(nat, nat, Seq<Cell>)> {
    match raw_shape(input) {
        Some((w, h)) => if w <= isize::MAX && h <= isize::MAX && w * h <= isize::MAX {
            Some((w, h, grid_data(trim_chars(input)).map_values(|c: char| cell_of_char(c))))
        } else {
            None
        },
        None => None,
    }
}

/// The columns of row `row` that hold a beam, in increasing order, among
/// the first `n` columns.
pub open spec fn beams_upto(g: Seq<Cell>, w: int, row: int, n: int) -> Seq<isize>
    decreases n,
{
    if n <= 0 {
        Seq::empty()
    } else if g[row * w + n - 1] == Cell::Beam {
        beams_upto(g, w, row, n - 1).push((n - 1) as isize)
    } else {
        beams_upto(g, w, row, n - 1)
    }
}

/// The state of the first part after the first `n` cells in row order: which
/// columns carry a beam, and how many splits so far. A beam that meets a
/// splitter stops and starts beams in the columns beside it.
pub open spec fn split_state(g: Seq<Cell>, w: int, n: int) -> (Seq<bool>, nat)
    decreases n,
{
    if n <= 0 {
        (Seq::new(w as nat, |x: int| g[x] == Cell::Beam), 0)
    } else {
        let (a, k) = split_state(g, w, n - 1);
        let col = (n - 1) % w;
        if g[n - 1] == Cell::Splitter && a[col] {
            let a1 = a.update(col, false);
            let a2 = if col + 1 < w {
                a1.update(col + 1, true)
            } else {
                a1
            };
            let a3 = if col >= 1 {
                a2.update(col - 1, true)
            } else {
                a2
            };
            (a3, k + 1)
        } else {
            (a, k)
        }
    }
}

/// The state of the second part after the first `n` cells in row order: how
/// many paths reach each column; none where a count passes `i64::MAX`. A
/// splitter passes the paths that reach it to the columns beside it.
pub open spec fn path_state(g: Seq<Cell>, w: int, n: int) -> Option<Seq<int>>
    decreases n,
{
    if n <= 0 {
        Some(Seq::new(w as nat, |x: int| if g[x] == Cell::Beam { 1int } else { 0int }))
    } else {
        match path_state(g, w, n - 1) {
            Some(a) => {
                let col = (n - 1) % w;
                let v = a[col];
                if g[n - 1] == Cell::Splitter && v != 0 {
                    let a1 = a.update(col, 0);
                    let a2 = if col + 1 < w {
                        a1.update(col + 1, a1[col + 1] + v)
                    } else {
                        a1
                    };
                    let a3 = if col >= 1 {
                        a2.update(col - 1, a2[col - 1] + v)
                    } else {
                        a2
                    };
                    if (col + 1 < w ==> a3[col + 1] <= i64::MAX) && (col >= 1 ==> a3[col - 1]
                        <= i64::MAX) {
                        Some(a3)
                    } else {
                        None
                    }
                } else {
                    Some(a)
                }
            },
            None => None,
        }
    }
}

pub open spec fn sum(a: Seq<int>) -> int
    decreases a.len(),
{
    if a.len() == 0 {
        0
    } else {
        sum(a.drop_last()) + a.last()
    }
}

/// The cell that a character of the grid stands for.
fn to_cell(c: char) -> (r: Cell)
    ensures
        r == cell_of_char(c),
{
    if c == '^' {
        Cell::Splitter
    } else if c == '|' || c == 'S' {
        Cell::Beam
    } else {
        Cell::Empty
    }
}

/// The grid of a text, one row per line: `.` empty, `^` a splitter, `|` or
/// `S` a beam; any other character is read as empty.
pub fn parse(input: &str) -> (r: Option<IntMap<Cell>>)
    ensures
        match spec_parse(input@) {
            Some((w, h, g)) => r.is_some() && r.unwrap().width == w && r.unwrap().height == h
                && r.unwrap().cells@ == g && r.unwrap().wf() && w * h <= isize::MAX,
            None => r.is_none(),
        },
{
    let (w, h) = match raw_grid_shape(input) {
        Some(sh) => sh,
        None => {
            return None;
        },
    };
    match w.checked_mul(h) {
        Some(n) => {
            if n > isize::MAX as usize {
                return None;
            }
        },
        None => {
            return None;
        },
    }
    if w > isize::MAX as usize || h > isize::MAX as usize {
        return None;
    }
    let m = IntMap::from_raw(input, to_cell);
    proof {
        let data = grid_data(trim_chars(input@));
        assert(m.cells@ =~= data.map_values(|c: char| cell_of_char(c)));
    }
    Some(m)
}

/// The columns of row `row` that hold a beam, in increasing order.
pub fn active(m: &IntMap<Cell>, row: isize) -> (r: Vec<isize>)
    requires
        m.wf(),
        0 <= row < m.height,
    ensures
        r@ == beams_upto(m.cells@, m.width as int, row as int, m.width as int),
{
    let w = m.width;
    let mut out: Vec<isize> = Vec::new();
    let mut x: usize = 0;
    while x < w
        invariant
            m.wf(),
            w == m.width,
            0 <= row < m.height,
            x <= w,
            out@ == beams_upto(m.cells@, w as int, row as int, x as int),
        decreases w - x,
    {
        proof {
            assert(row * w + x < m.height * w) by (nonlinear_arith)
                requires
                    row < m.height,
                    x < w,
            ;
            assert(m.height * w == w * m.height) by (nonlinear_arith);
        }
        let c = m.get((x as isize, row));
        assert(m.index_of((x as isize, row)) == row * w + x);
        let beam = match c {
            Some(c) => *c == Cell::Beam,
            None => false,
        };
        if beam {
            out.push(x as isize);
        }
        x = x + 1;
    }
    out
}

proof fn lemma_pos(i: int, w: int, x: int, y: int)
    requires
        0 <= x < w,
        0 <= y,
        i == y * w + x,
    ensures
        i % w == x,
        i / w == y,
{
    lemma_fundamental_div_mod_converse(i, w, y, x);
}

/// Day 7: beams split by splitters.
pub struct Day7 {

}

impl Day for Day7 {
    type Output = i64;

    /// How many times a beam meets a splitter.
    open spec fn spec_part1(input: &str) -> Option<i64> {
        match spec_parse(input@) {
            Some((w, h, g)) => if h == 0 || w == 0 {
                None
            } else {
                Some(split_state(g, w as int, (w * h) as int).1 as i64)
            },
            None => None,
        }
    }

    /// How many paths reach the bottom, where no count passes `i64::MAX`.
    open spec fn spec_part2(input: &str) -> Option<i64> {
        match spec_parse(input@) {
            Some((w, h, g)) => if h == 0 || w == 0 {
                None
            } else {
                match path_state(g, w as int, (w * h) as int) {
                    Some(a) => if sum(a) <= i64::MAX {
                        Some(sum(a) as i64)
                    } else {
                        None
                    },
                    None => None,
                }
            },
            None => None,
        }
    }

    fn part1(input: &str) -> (r: Option<i64>) {
        let m = match parse(input) {
            Some(m) => m,
            None => {
                return None;
            },
        };
        let w = m.width;
        let h = m.height;
        if w == 0 || h == 0 {
            return None;
        }
        let ghost g = m.cells@;
        let mut actives: Vec<bool> = Vec::new();
        let mut x: usize = 0;
        while x < w
            invariant
                m.wf(),
                w == m.width,
                h == m.height,
                h >= 1,
                g == m.cells@,
                x <= w,
                w * h <= isize::MAX,
                actives@.len() == x,
                forall|c: int| 0 <= c < x ==> #[trigger] actives@[c] == (g[c] == Cell::Beam),
            decreases w - x,
        {
            proof {
                assert(x < w * h) by (nonlinear_arith)
                    requires
                        x < w,
                        h >= 1,
                ;
            }
            let beam = match m.get((x as isize, 0)) {
                Some(c) => *c == Cell::Beam,
                None => false,
            };
            assert(m.index_of((x as isize, 0isize)) == x);
            assert(m.cell((x as isize, 0isize)) == Some(g[x as int]));
            assert(beam == (g[x as int] == Cell::Beam));
            actives.push(beam);
            x = x + 1;
        }
        assert(actives@ =~= Seq::new(w as nat, |c: int| g[c] == Cell::Beam));
        let mut splits: i64 = 0;
        let mut y: usize = 0;
        while y < h
            invariant
                m.wf(),
                w == m.width,
                h == m.height,
                w >= 1,
                g == m.cells@,
                y <= h,
                (actives@, splits as nat) == split_state(g, w as int, (y * w) as int),
                0 <= splits <= y * w,
                w * h <= isize::MAX,
                spec_parse(input@) == Some((w as nat, h as nat, g)),
            decreases h - y,
        {
            let mut x: usize = 0;
            while x < w
                invariant
                    m.wf(),
                    w == m.width,
                    h == m.height,
                    g == m.cells@,
                    y < h,
                    x <= w,
                    (actives@, splits as nat) == split_state(g, w as int, (y * w + x) as int),
                    0 <= splits <= y * w + x,
                    w >= 1,
                    w * h <= isize::MAX,
                decreases w - x,
            {
                proof {
                    lemma_pos((y * w + x) as int, w as int, x as int, y as int);
                    assert(y * w + x < w * h) by (nonlinear_arith)
                        requires
                            y < h,
                            x < w,
                    ;
                    lemma_state_len(g, w as int, (y * w + x) as int);
                }
                let co = (x as isize, y as isize);
                let splitter = match m.get(co) {
                    Some(c) => *c == Cell::Splitter,
                    None => false,
                };
                assert(m.index_of(co) == y * w + x);
                if splitter && actives[x] {
                    splits = splits + 1;
                    actives.set(x, false);
                    if x + 1 < w {
                        actives.set(x + 1, true);
                    }
                    if x >= 1 {
                        actives.set(x - 1, true);
                    }
                }
                x = x + 1;
            }
            assert((y + 1) * w == y * w + w) by (nonlinear_arith);
            y = y + 1;
        }
        assert(h * w == w * h) by (nonlinear_arith);
        Some(splits)
    }

    fn part2(input: &str) -> (r: Option<i64>) {
        let m = match parse(input) {
            Some(m) => m,
            None => {
                return None;
            },
        };
        let w = m.width;
        let h = m.height;
        if w == 0 || h == 0 {
            return None;
        }
        let ghost g = m.cells@;
        let mut counts: Vec<i64> = Vec::new();
        let mut x: usize = 0;
        while x < w
            invariant
                m.wf(),
                w == m.width,
                h == m.height,
                h >= 1,
                g == m.cells@,
                x <= w,
                w * h <= isize::MAX,
                counts@.len() == x,
                forall|c: int|
                    0 <= c < x ==> #[trigger] counts@[c] == if g[c] == Cell::Beam {
                        1int
                    } else {
                        0int
                    },
            decreases w - x,
        {
            proof {
                assert(x < w * h) by (nonlinear_arith)
                    requires
                        x < w,
                        h >= 1,
                ;
            }
            let beam = match m.get((x as isize, 0)) {
                Some(c) => *c == Cell::Beam,
                None => false,
            };
            assert(m.index_of((x as isize, 0isize)) == x);
            assert(m.cell((x as isize, 0isize)) == Some(g[x as int]));
            assert(beam == (g[x as int] == Cell::Beam));
            counts.push(
                if beam {
                    1
                } else {
                    0
                },
            );
            x = x + 1;
        }
        assert(counts@.map_values(|v: i64| v as int) =~= Seq::new(
            w as nat,
            |c: int|
                if g[c] == Cell::Beam {
                    1int
                } else {
                    0int
                },
        ));
        let mut y: usize = 0;
        while y < h
            invariant
                m.wf(),
                w == m.width,
                h == m.height,
                w >= 1,
                g == m.cells@,
                y <= h,
                path_state(g, w as int, (y * w) as int) == Some(
                    counts@.map_values(|v: i64| v as int),
                ),
                forall|c: int| 0 <= c < counts@.len() ==> #[trigger] counts@[c] >= 0,
                w * h <= isize::MAX,
                spec_parse(input@) == Some((w as nat, h as nat, g)),
            decreases h - y,
        {
            let mut x: usize = 0;
            while x < w
                invariant
                    m.wf(),
                    w == m.width,
                    h == m.height,
                    g == m.cells@,
                    y < h,
                    x <= w,
                    path_state(g, w as int, (y * w + x) as int) == Some(
                        counts@.map_values(|v: i64| v as int),
                    ),
                    forall|c: int| 0 <= c < counts@.len() ==> #[trigger] counts@[c] >= 0,
                    w >= 1,
                    w * h <= isize::MAX,
                    spec_parse(input@) == Some((w as nat, h as nat, g)),
                decreases w - x,
            {
                proof {
                    lemma_pos((y * w + x) as int, w as int, x as int, y as int);
                    assert(y * w + x < w * h) by (nonlinear_arith)
                        requires
                            y < h,
                            x < w,
                    ;
                    lemma_path_len(g, w as int, (y * w + x) as int);
                }
                let ghost before = counts@.map_values(|v: i64| v as int);
                let co = (x as isize, y as isize);
                let splitter = match m.get(co) {
                    Some(c) => *c == Cell::Splitter,
                    None => false,
                };
                assert(m.index_of(co) == y * w + x);
                let v = counts[x];
                if splitter && v != 0 {
                    counts.set(x, 0);
                    if x + 1 < w {
                        match counts[x + 1].checked_add(v) {
                            Some(s) => {
                                counts.set(x + 1, s);
                            },
                            None => {
                                proof {
                                    lemma_path_fails(g, w as int, (y * w + x + 1) as int, (w * h) as int);
                                }
                                return None;
                            },
                        }
                    }
                    if x >= 1 {
                        match counts[x - 1].checked_add(v) {
                            Some(s) => {
                                counts.set(x - 1, s);
                            },
                            None => {
                                proof {
                                    lemma_path_fails(g, w as int, (y * w + x + 1) as int, (w * h) as int);
                                }
                                return None;
                            },
                        }
                    }
                }
                assert(counts@.map_values(|v: i64| v as int) =~= path_state(
                    g,
                    w as int,
                    (y * w + x + 1) as int,
                ).unwrap());
                x = x + 1;
            }
            assert((y + 1) * w == y * w + w) by (nonlinear_arith);
            y = y + 1;
        }
        assert(h * w == w * h) by (nonlinear_arith);
        proof {
            lemma_path_len(g, w as int, (w * h) as int);
        }
        let mut total: i64 = 0;
        let mut c: usize = 0;
        while c < w
            invariant
                c <= w == counts@.len(),
                w >= 1,
                h >= 1,
                path_state(g, w as int, (w * h) as int) == Some(counts@.map_values(|v: i64| v as int)),
                spec_parse(input@) == Some((w as nat, h as nat, g)),
                forall|p: int| 0 <= p < counts@.len() ==> #[trigger] counts@[p] >= 0,
                total == sum(counts@.map_values(|v: i64| v as int).take(c as int)),
            decreases w - c,
        {
            let ghost cv = counts@.map_values(|v: i64| v as int);
            assert(cv.take(c + 1).drop_last() =~= cv.take(c as int));
            match total.checked_add(counts[c]) {
                Some(t) => {
                    total = t;
                },
                None => {
                    proof {
                        lemma_sum_prefix(cv, c + 1);
                    }
                    return None;
                },
            }
            c = c + 1;
        }
        assert(counts@.map_values(|v: i64| v as int).take(c as int) =~= counts@.map_values(
            |v: i64| v as int,
        ));
        Some(total)
    }
}

proof fn lemma_state_len(g: Seq<Cell>, w: int, n: int)
    requires
        w > 0,
    ensures
        split_state(g, w, n).0.len() == w,
    decreases n,
{
    if n > 0 {
        lemma_state_len(g, w, n - 1);
        lemma_mod_pos_bound(n - 1, w);
    }
}

proof fn lemma_path_len(g: Seq<Cell>, w: int, n: int)
    requires
        w > 0,
    ensures
        path_state(g, w, n).is_some() ==> path_state(g, w, n).unwrap().len() == w,
    decreases n,
{
    if n > 0 {
        lemma_path_len(g, w, n - 1);
        lemma_mod_pos_bound(n - 1, w);
    }
}

proof fn lemma_path_fails(g: Seq<Cell>, w: int, n: int, n2: int)
    requires
        n <= n2,
        path_state(g, w, n).is_none(),
    ensures
        path_state(g, w, n2).is_none(),
    decreases n2,
{
    if n < n2 {
        lemma_path_fails(g, w, n, n2 - 1);
    }
}

proof fn lemma_sum_prefix(a: Seq<int>, k: int)
    requires
        0 <= k <= a.len(),
        forall|p: int| 0 <= p < a.len() ==> #[trigger] a[p] >= 0,
    ensures
        sum(a.take(k)) <= sum(a),
    decreases a.len(),
{
    if k < a.len() {
        assert(a.drop_last().take(k) =~= a.take(k));
        lemma_sum_prefix(a.drop_last(), k);
    } else {
        assert(a.take(k) =~= a);
    }
}

} // verus!
