//! Rolls of paper on a grid: which ones have fewer than four neighbouring
//! rolls, and how many can be taken away in turn.
use crate::intmap::{grid_chars, grid_data, raw_grid_shape, raw_shape, trim_chars, IntMap};
use crate::Day;
use vstd::arithmetic::div_mod::lemma_fundamental_div_mod_converse;
use vstd::prelude::*;
use vstd::string::StringSliceAdditionalSpecFns;

verus! {

#[derive(Copy, Clone, PartialEq, Eq, Debug, Structural)]
pub enum Cell {
    Empty,
    Paper,
}

/// The cell that a character stands for: `@` a roll, else empty.
pub open spec fn cell_of_char(c: char) -> Cell {
    if c == '@' {
        Cell::Paper
    } else {
        Cell::Empty
    }
}

/// Every cell of the text is `.` or `@`.
pub open spec fn cells_ok(data: Seq<char>) -> bool {
    forall|i: int| 0 <= i < data.len() ==> #[trigger] data[i] == '.' || data[i] == '@'
}

/// The grid of a text: width, height and cells, where the text holds a grid
/// of `.` and `@` whose count of cells fits in an `isize`.
pub open spec fn spec_parse(input: Seq<char>) -> Option<(nat, nat, Seq<Cell>)> {
    match raw_shape(input) {
        Some((w, h)) => {
            let data = grid_data(trim_chars(input));
            if cells_ok(data) && w <= isize::MAX && h <= isize::MAX && w * h <= isize::MAX {
                Some((w, h, data.map_values(|c: char| cell_of_char(c))))
            } else {
                None
            }
        },
        None => None,
    }
}

/// The roll at `(x, y)`, if it is inside the grid.
pub open spec fn paper_at(g: Seq<Cell>, w: int, x: int, y: int, h: int) -> bool {
    0 <= x < w && 0 <= y < h && 0 <= y * w + x < g.len() && g[y * w + x] == Cell::Paper
}

/// The eight offsets to the neighbours of a cell.
pub open spec fn neighbours() -> Seq<(int, int)> {
    seq![(-1, -1), (-1, 0), (-1, 1), (0, -1), (0, 1), (1, -1), (1, 0), (1, 1)]
}

/// How many of the first `n` neighbours of `(x, y)` hold a roll.
pub open spec fn adjacent_upto(g: Seq<Cell>, w: int, h: int, x: int, y: int, n: int) -> int
    decreases n,
{
    if n <= 0 {
        0
    } else {
        let d = neighbours()[n - 1];
        adjacent_upto(g, w, h, x, y, n - 1) + if paper_at(g, w, x + d.0, y + d.1, h) {
            1int
        } else {
            0int
        }
    }
}

/// How many neighbours of `(x, y)` hold a roll.
pub open spec fn adjacent(g: Seq<Cell>, w: int, h: int, x: int, y: int) -> int {
    adjacent_upto(g, w, h, x, y, 8)
}

/// The cell at position `i` holds a roll with fewer than four neighbouring
/// rolls.
pub open spec fn accessible(g: Seq<Cell>, w: int, h: int, i: int) -> bool {
    g[i] == Cell::Paper && adjacent(g, w, h, i % w, i / w) < 4
}

/// How many of the first `n` cells are accessible.
pub open spec fn accessible_count(g: Seq<Cell>, w: int, h: int, n: int) -> nat
    decreases n,
{
    if n <= 0 {
        0
    } else {
        accessible_count(g, w, h, n - 1) + if accessible(g, w, h, n - 1) {
            1nat
        } else {
            0nat
        }
    }
}

/// One sweep over the first `n` cells in order: each accessible roll, as
/// the grid stands when its turn comes, is taken away. The grid after, and
/// how many were taken.
pub open spec fn sweep(g: Seq<Cell>, w: int, h: int, n: int) -> (Seq<Cell>, nat)
    decreases n,
{
    if n <= 0 {
        (g, 0)
    } else {
        let (g1, k) = sweep(g, w, h, n - 1);
        if accessible(g1, w, h, n - 1) {
            (g1.update(n - 1, Cell::Empty), k + 1)
        } else {
            (g1, k)
        }
    }
}

/// Sweeps repeated until one takes nothing (at most `fuel` of them): how
/// many rolls are taken in all.
pub open spec fn removed(g: Seq<Cell>, w: int, h: int, fuel: nat) -> nat
    decreases fuel,
{
    if fuel == 0 {
        0
    } else {
        let (g1, k) = sweep(g, w, h, g.len() as int);
        if k == 0 {
            0
        } else {
            k + removed(g1, w, h, (fuel - 1) as nat)
        }
    }
}

pub open spec fn papers(g: Seq<Cell>) -> nat
    decreases g.len(),
{
    if g.len() == 0 {
        0
    } else {
        papers(g.drop_last()) + if g.last() == Cell::Paper {
            1nat
        } else {
            0nat
        }
    }
}

proof fn lemma_papers_take(g: Seq<Cell>, i: int)
    requires
        0 <= i < g.len(),
        g[i] == Cell::Paper,
    ensures
        papers(g.update(i, Cell::Empty)) + 1 == papers(g),
    decreases g.len(),
{
    let g2 = g.update(i, Cell::Empty);
    if i == g.len() - 1 {
        assert(g2.drop_last() =~= g.drop_last());
    } else {
        assert(g2.drop_last() =~= g.drop_last().update(i, Cell::Empty));
        lemma_papers_take(g.drop_last(), i);
    }
}

proof fn lemma_papers_bound(g: Seq<Cell>)
    ensures
        papers(g) <= g.len(),
    decreases g.len(),
{
    if g.len() > 0 {
        lemma_papers_bound(g.drop_last());
    }
}

proof fn lemma_sweep_takes(g: Seq<Cell>, w: int, h: int, n: int)
    requires
        0 <= n <= g.len(),
    ensures
        sweep(g, w, h, n).0.len() == g.len(),
        papers(sweep(g, w, h, n).0) + sweep(g, w, h, n).1 == papers(g),
    decreases n,
{
    if n > 0 {
        lemma_sweep_takes(g, w, h, n - 1);
        let (g1, k) = sweep(g, w, h, n - 1);
        if accessible(g1, w, h, n - 1) {
            lemma_papers_take(g1, n - 1);
        }
    }
}

/// The neighbours of `co`, in the order of `neighbours`.
pub fn adjacent_cos(co: (isize, isize)) -> (r: Vec<(isize, isize)>)
    requires
        isize::MIN < co.0 < isize::MAX,
        isize::MIN < co.1 < isize::MAX,
    ensures
        r@.len() == 8,
        forall|k: int|
            0 <= k < 8 ==> (#[trigger] r@[k]).0 == co.0 + neighbours()[k].0 && r@[k].1 == co.1
                + neighbours()[k].1,
{
    let (x, y) = co;
    let r = vec![
        (x - 1, y - 1),
        (x - 1, y),
        (x - 1, y + 1),
        (x, y - 1),
        (x, y + 1),
        (x + 1, y - 1),
        (x + 1, y),
        (x + 1, y + 1),
    ];
    assert(r@.len() == 8);
    r
}

/// How many neighbours of `co` hold a roll.
pub fn count_adjacent_paper(m: &IntMap<Cell>, co: (isize, isize)) -> (r: isize)
    requires
        isize::MIN < co.0 < isize::MAX,
        isize::MIN < co.1 < isize::MAX,
    ensures
        r == adjacent(m.cells@, m.width as int, m.height as int, co.0 as int, co.1 as int),
{
    let ns = adjacent_cos(co);
    let mut count: isize = 0;
    let mut k: usize = 0;
    while k < 8
        invariant
            k <= 8,
            ns@.len() == 8,
            forall|j: int|
                0 <= j < 8 ==> (#[trigger] ns@[j]).0 == co.0 + neighbours()[j].0 && ns@[j].1 == co.1
                    + neighbours()[j].1,
            count == adjacent_upto(
                m.cells@,
                m.width as int,
                m.height as int,
                co.0 as int,
                co.1 as int,
                k as int,
            ),
            0 <= count <= k,
        decreases 8 - k,
    {
        let n = ns[k];
        assert(n == ns@[k as int]);
        let hit = match m.get(n) {
            Some(c) => *c == Cell::Paper,
            None => false,
        };
        assert(hit == paper_at(
            m.cells@,
            m.width as int,
            n.0 as int,
            n.1 as int,
            m.height as int,
        ));
        if hit {
            count = count + 1;
        }
        k = k + 1;
    }
    count
}

/// The cell that a character of the grid stands for.
fn to_cell(c: char) -> (r: Cell)
    ensures
        r == cell_of_char(c),
{
    if c == '@' {
        Cell::Paper
    } else {
        Cell::Empty
    }
}

/// The grid of a text of `.` (empty) and `@` (a roll), one row per line.
pub fn parse(input: &str) -> (r: Option<IntMap<Cell>>)
    ensures
        match spec_parse(input@) {
            Some((w, h, g)) => r.is_some() && r.unwrap().width == w && r.unwrap().height == h
                && r.unwrap().cells@ == g && r.unwrap().wf() && w * h <= isize::MAX,
            None => r.is_none(),
        },
{
    let (w, h) = match raw_grid_shape(input) {
        Some(sh) => sh,
        None => {
            return None;
        },
    };
    if w > isize::MAX as usize || h > isize::MAX as usize {
        return None;
    }
    match w.checked_mul(h) {
        Some(n) => {
            if n > isize::MAX as usize {
                return None;
            }
        },
        None => {
            return None;
        },
    }
    let data = grid_chars(input);
    let mut i: usize = 0;
    while i < data.len()
        invariant
            i <= data@.len(),
            data@ == grid_data(trim_chars(input@)),
            forall|j: int| 0 <= j < i ==> #[trigger] data@[j] == '.' || data@[j] == '@',
        decreases data@.len() - i,
    {
        if data[i] != '.' && data[i] != '@' {
            assert(!(data@[i as int] == '.' || data@[i as int] == '@'));
            return None;
        }
        i = i + 1;
    }
    let m = IntMap::from_raw(input, to_cell);
    proof {
        assert(m.cells@ =~= data@.map_values(|c: char| cell_of_char(c)));
    }
    Some(m)
}

/// Position `i` of a grid `w` wide, row by row.
proof fn lemma_pos(i: int, w: int, x: int, y: int)
    requires
        0 <= x < w,
        0 <= y,
        i == y * w + x,
    ensures
        i % w == x,
        i / w == y,
{
    lemma_fundamental_div_mod_converse(i, w, y, x);
}

/// Day 4: rolls of paper that a forklift can reach.
pub struct Day4 {

}

impl Day for Day4 {
    type Output = usize;

    /// How many rolls have fewer than four neighbouring rolls.
    open spec fn spec_part1(input: &str) -> Option<usize> {
        match spec_parse(input@) {
            Some((w, h, g)) => Some(accessible_count(g, w as int, h as int, g.len() as int) as usize),
            None => None,
        }
    }

    /// How many rolls are taken away by sweeps repeated until one takes
    /// nothing.
    open spec fn spec_part2(input: &str) -> Option<usize> {
        match spec_parse(input@) {
            Some((w, h, g)) => Some(removed(g, w as int, h as int, (g.len() + 1) as nat) as usize),
            None => None,
        }
    }

    fn part1(input: &str) -> (r: Option<usize>) {
        let m = match parse(input) {
            Some(m) => m,
            None => {
                return None;
            },
        };
        let w = m.width;
        let h = m.height;
        let ghost g = m.cells@;
        let len = m.cells.len();
        let mut count: usize = 0;
        let mut y: usize = 0;
        while y < h
            invariant
                m.wf(),
                len == m.cells@.len(),
                w == m.width,
                h == m.height,
                g == m.cells@,
                y <= h,
                count == accessible_count(g, w as int, h as int, (y * w) as int),
                count <= y * w,
            decreases h - y,
        {
            let mut x: usize = 0;
            while x < w
                invariant
                    m.wf(),
                    len == m.cells@.len(),
                    w == m.width,
                    h == m.height,
                    g == m.cells@,
                    y < h,
                    x <= w,
                    count == accessible_count(g, w as int, h as int, (y * w + x) as int),
                    count <= y * w + x,
                decreases w - x,
            {
                proof {
                    lemma_pos((y * w + x) as int, w as int, x as int, y as int);
                    assert(y * w + x < h * w) by (nonlinear_arith)
                        requires
                            y < h,
                            x < w,
                    ;
                    assert(h * w == w * h) by (nonlinear_arith);
                }
                let co = (x as isize, y as isize);
                let c = m.get(co);
                let is_paper = match c {
                    Some(c) => *c == Cell::Paper,
                    None => false,
                };
                assert(m.index_of(co) == y * w + x);
                if is_paper && count_adjacent_paper(&m, co) < 4 {
                    count = count + 1;
                }
                x = x + 1;
            }
            assert((y + 1) * w == y * w + w) by (nonlinear_arith);
            y = y + 1;
        }
        assert(g.len() == h * w) by (nonlinear_arith)
            requires
                g.len() == w * h,
        ;
        Some(count)
    }

    fn part2(input: &str) -> (r: Option<usize>) {
        let mut m = match parse(input) {
            Some(m) => m,
            None => {
                return None;
            },
        };
        let w = m.width;
        let h = m.height;
        let ghost g0 = m.cells@;
        let n = m.cells.len();
        let ghost len = g0.len();
        proof {
            lemma_papers_bound(g0);
        }
        let mut total: usize = 0;
        let ghost mut fuel: nat = (len + 1) as nat;
        loop
            invariant
                m.wf(),
                w == m.width,
                h == m.height,
                m.cells@.len() == len,
                len == g0.len(),
                n == len,
                len <= isize::MAX,
                spec_parse(input@) == Some((w as nat, h as nat, g0)),
                total + papers(m.cells@) == papers(g0),
                papers(g0) <= len,
                fuel >= papers(m.cells@) + 1,
                total + removed(m.cells@, w as int, h as int, fuel) == removed(
                    g0,
                    w as int,
                    h as int,
                    (len + 1) as nat,
                ),
            decreases papers(m.cells@),
        {
            let ghost before = m.cells@;
            let taken = sweep_exec(&mut m);
            proof {
                lemma_sweep_takes(before, w as int, h as int, len as int);
            }
            if taken == 0 {
                return Some(total);
            }
            total = total + taken;
            proof {
                fuel = (fuel - 1) as nat;
            }
        }
    }
}

/// One sweep over the grid in row order, taking away each accessible roll;
/// how many were taken.
fn sweep_exec(m: &mut IntMap<Cell>) -> (k: usize)
    requires
        old(m).wf(),
        old(m).cells@.len() <= isize::MAX,
    ensures
        final(m).wf(),
        final(m).width == old(m).width,
        final(m).height == old(m).height,
        (final(m).cells@, k as nat) == sweep(
            old(m).cells@,
            old(m).width as int,
            old(m).height as int,
            old(m).cells@.len() as int,
        ),
{
    let w = m.width;
    let h = m.height;
    let ghost g0 = m.cells@;
    let mut k: usize = 0;
    let mut y: usize = 0;
    while y < h
        invariant
            m.wf(),
            w == m.width,
            h == m.height,
            g0.len() == w * h,
            g0.len() <= isize::MAX,
            y <= h,
            (m.cells@, k as nat) == sweep(g0, w as int, h as int, (y * w) as int),
            k <= y * w,
        decreases h - y,
    {
        let mut x: usize = 0;
        while x < w
            invariant
                m.wf(),
                w == m.width,
                h == m.height,
                g0.len() == w * h,
                g0.len() <= isize::MAX,
                y < h,
                x <= w,
                (m.cells@, k as nat) == sweep(g0, w as int, h as int, (y * w + x) as int),
                k <= y * w + x,
            decreases w - x,
        {
            proof {
                lemma_pos((y * w + x) as int, w as int, x as int, y as int);
                assert(y * w + x < w * h) by (nonlinear_arith)
                    requires
                        y < h,
                        x < w,
                ;
                assert(y * w <= y * w + x);
                lemma_sweep_takes(g0, w as int, h as int, (y * w + x) as int);
            }
            let co = (x as isize, y as isize);
            let is_paper = match m.get(co) {
                Some(c) => *c == Cell::Paper,
                None => false,
            };
            assert(m.index_of(co) == y * w + x);
            if is_paper && count_adjacent_paper(&*m, co) < 4 {
                m.set(co, Cell::Empty);
                k = k + 1;
            }
            x = x + 1;
        }
        assert((y + 1) * w == y * w + w) by (nonlinear_arith);
        y = y + 1;
    }
    assert(h * w == w * h) by (nonlinear_arith);
    k
}

} // verus!
