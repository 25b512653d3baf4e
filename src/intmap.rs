//! A rectangular grid of cells stored row by row, and a plain 2-D coordinate.
use vstd::prelude::*;
use vstd::std_specs::iter::IteratorSpec;
use vstd::string::StringSliceAdditionalSpecFns;

verus! {

/// Whitespace as `char::is_whitespace` sees it (the Unicode `White_Space`
/// property), which `str::trim` removes.
pub open spec fn is_white(c: char) -> bool {
    let u = c as u32;
    ||| 9 <= u <= 13
    ||| u == 32
    ||| u == 0x85
    ||| u == 0xa0
    ||| u == 0x1680
    ||| 0x2000 <= u <= 0x200a
    ||| u == 0x2028
    ||| u == 0x2029
    ||| u == 0x202f
    ||| u == 0x205f
    ||| u == 0x3000
}

pub open spec fn trim_start_chars(s: Seq<char>) -> Seq<char>
    decreases s.len(),
{
    if s.len() > 0 && is_white(s[0]) {
        trim_start_chars(s.drop_first())
    } else {
        s
    }
}

pub open spec fn trim_end_chars(s: Seq<char>) -> Seq<char>
    decreases s.len(),
{
    if s.len() > 0 && is_white(s.last()) {
        trim_end_chars(s.drop_last())
    } else {
        s
    }
}

/// `s` as `str::trim` leaves it.
pub open spec fn trim_chars(s: Seq<char>) -> Seq<char> {
    trim_end_chars(trim_start_chars(s))
}

/// A character that the grid reader skips: line feed, carriage return,
/// space, tab.
pub open spec fn is_grid_gap(c: char) -> bool {
    c == '\n' || c == '\r' || c == ' ' || c == '\t'
}

/// The characters of `s` that become cells, in order.
pub open spec fn grid_data(s: Seq<char>) -> Seq<char>
    decreases s.len(),
{
    if s.len() == 0 {
        s
    } else if is_grid_gap(s.last()) {
        grid_data(s.drop_last())
    } else {
        grid_data(s.drop_last()).push(s.last())
    }
}

/// How many characters of `s` are not carriage returns.
pub open spec fn non_cr_count(s: Seq<char>) -> nat
    decreases s.len(),
{
    if s.len() == 0 {
        0
    } else {
        non_cr_count(s.drop_last()) + if s.last() == '\r' {
            0nat
        } else {
            1nat
        }
    }
}

/// The position of the first line feed in `s`.
pub open spec fn first_nl(s: Seq<char>) -> Option<nat>
    decreases s.len(),
{
    if s.len() == 0 {
        None
    } else if s[0] == '\n' {
        Some(0)
    } else {
        match first_nl(s.drop_first()) {
            Some(k) => Some(k + 1),
            None => None,
        }
    }
}

/// Width and height of the grid that `s` writes: the width is the count of
/// characters of the first row (carriage returns not counted), the cells
/// are all characters but line feeds, carriage returns, spaces and tabs, and
/// they fill whole rows.
pub open spec fn raw_shape(s: Seq<char>) -> Option<(nat, nat)> {
    let t = trim_chars(s);
    match first_nl(t) {
        Some(k) => {
            let w = non_cr_count(t.take(k as int));
            let n = grid_data(t).len();
            if w > 0 && n % w == 0 {
                Some((w, n / w))
            } else {
                None
            }
        },
        None => None,
    }
}

proof fn lemma_first_nl(s: Seq<char>, i: int)
    requires
        0 <= i <= s.len(),
        forall|j: int| 0 <= j < i ==> s[j] != '\n',
    ensures
        i < s.len() && s[i] == '\n' ==> first_nl(s) == Some(i as nat),
        i == s.len() ==> first_nl(s) == None::<nat>,
    decreases i,
{
    if i > 0 {
        lemma_first_nl(s.drop_first(), i - 1);
    }
}

fn is_white_exec(c: char) -> (r: bool)
    ensures
        r == is_white(c),
{
    let u = c as u32;
    (9 <= u && u <= 13) || u == 32 || u == 0x85 || u == 0xa0 || u == 0x1680 || (0x2000 <= u
        && u <= 0x200a) || u == 0x2028 || u == 0x2029 || u == 0x202f || u == 0x205f || u == 0x3000
}

/// The characters of `input` without whitespace at either end.
pub fn trimmed_chars(input: &str) -> (r: Vec<char>)
    ensures
        r@ == trim_chars(input@),
{
    let mut it = input.chars();
    let mut all: Vec<char> = Vec::new();
    proof {
        broadcast use vstd::string::axiom_spec_iter;
    }
    loop
        invariant
            all@ + it.remaining() == input@,
            it.decrease() is Some,
        ensures
            all@ == input@,
        decreases it.decrease()->0,
    {
        let ghost before = it.remaining();
        proof {
            broadcast use vstd::string::next_postcondition;
        }
        match it.next() {
            Some(c) => {
                assert(before.len() > 0);
                all.push(c);
                assert(all@ + it.remaining() =~= input@);
            },
            None => {
                assert(all@ =~= input@);
                break;
            },
        }
    }
    let n = all.len();
    let mut a: usize = 0;
    assert(all@.subrange(0, n as int) =~= all@);
    while a < n && is_white_exec(all[a])
        invariant
            a <= n == all@.len(),
            trim_start_chars(all@.subrange(a as int, n as int)) == trim_start_chars(all@),
        decreases n - a,
    {
        assert(all@.subrange(a as int + 1, n as int) =~= all@.subrange(a as int, n as int).drop_first());
        a = a + 1;
    }
    assert(trim_start_chars(all@) == all@.subrange(a as int, n as int)) by {
        if a < n {
            assert(all@.subrange(a as int, n as int)[0] == all@[a as int]);
        }
    }
    let mut b = n;
    while b > a && is_white_exec(all[b - 1])
        invariant
            a <= b <= n == all@.len(),
            trim_start_chars(all@) == all@.subrange(a as int, n as int),
            trim_end_chars(all@.subrange(a as int, b as int)) == trim_end_chars(
                all@.subrange(a as int, n as int),
            ),
        decreases b - a,
    {
        assert(all@.subrange(a as int, b - 1) =~= all@.subrange(a as int, b as int).drop_last());
        b = b - 1;
    }
    assert(trim_end_chars(all@.subrange(a as int, b as int)) == all@.subrange(a as int, b as int))
        by {
        if b > a {
            assert(all@.subrange(a as int, b as int).last() == all@[b - 1]);
        }
    }
    let mut out: Vec<char> = Vec::new();
    let mut i = a;
    while i < b
        invariant
            a <= i <= b <= all@.len(),
            out@ =~= all@.subrange(a as int, i as int),
        decreases b - i,
    {
        out.push(all[i]);
        i = i + 1;
    }
    out
}

/// The characters of `input` that become grid cells, in order.
pub fn grid_chars(input: &str) -> (r: Vec<char>)
    ensures
        r@ == grid_data(trim_chars(input@)),
{
    let t = trimmed_chars(input);
    let mut out: Vec<char> = Vec::new();
    let mut j: usize = 0;
    while j < t.len()
        invariant
            j <= t@.len(),
            out@ == grid_data(t@.take(j as int)),
        decreases t@.len() - j,
    {
        assert(t@.take(j + 1).drop_last() =~= t@.take(j as int));
        let c = t[j];
        if !(c == '\n' || c == '\r' || c == ' ' || c == '\t') {
            out.push(c);
        }
        j = j + 1;
    }
    assert(t@.take(j as int) =~= t@);
    out
}

#[derive(Clone, Debug)]
pub struct IntMap<T> {
    pub cells: Vec<T>,
    pub width: usize,
    pub height: usize,
}

/// Where `raw_shape` says the text holds a grid, its width and height.
pub fn raw_grid_shape(input: &str) -> (r: Option<(usize, usize)>)
    ensures
        r.is_some() == raw_shape(input@).is_some(),
        r.is_some() ==> r.unwrap().0 == raw_shape(input@).unwrap().0 && r.unwrap().1 == raw_shape(
            input@,
        ).unwrap().1,
{
    let t = trimmed_chars(input);
    let n = t.len();
    let mut i: usize = 0;
    let mut w: usize = 0;
    let mut found = false;
    while i < n
        invariant_except_break
            !found,
        invariant
            i <= n == t@.len(),
            w as nat == non_cr_count(t@.take(i as int)),
            w <= i,
            forall|j: int| 0 <= j < i ==> t@[j] != '\n',
        ensures
            i <= n,
            w as nat == non_cr_count(t@.take(i as int)),
            forall|j: int| 0 <= j < i ==> t@[j] != '\n',
            found ==> i < n && t@[i as int] == '\n',
            !found ==> i == n,
        decreases n - i,
    {
        if t[i] == '\n' {
            found = true;
            break;
        }
        assert(t@.take(i + 1).drop_last() =~= t@.take(i as int));
        if t[i] != '\r' {
            w = w + 1;
        }
        i = i + 1;
    }
    proof {
        lemma_first_nl(t@, i as int);
    }
    if !found || w == 0 {
        return None;
    }
    let cells = grid_chars(input);
    let count = cells.len();
    if count % w == 0 {
        Some((w, count / w))
    } else {
        None
    }
}

impl<T: Copy> IntMap<T> {
    /// The cell count matches the shape, and coordinates fit in `isize`.
    pub open spec fn wf(&self) -> bool {
        &&& self.cells@.len() == self.width * self.height
        &&& self.width <= isize::MAX
        &&& self.height <= isize::MAX
    }

    pub open spec fn spec_in_bounds(&self, co: (isize, isize)) -> bool {
        0 <= co.0 < self.width && 0 <= co.1 < self.height
    }

    /// The position in `cells` of a coordinate, row by row.
    pub open spec fn index_of(&self, co: (isize, isize)) -> int {
        co.1 * self.width + co.0
    }

    /// The cell at `co`, where `co` is inside the grid and its cell is stored.
    pub open spec fn cell(&self, co: (isize, isize)) -> Option<T> {
        if self.spec_in_bounds(co) && self.index_of(co) < self.cells@.len() {
            Some(self.cells@[self.index_of(co)])
        } else {
            None
        }
    }

    /// A grid of `width` by `height` cells, each holding what `T::default`
    /// gives.
    pub fn new(width: usize, height: usize) -> (r: IntMap<T>) where T: Default
        requires
            width * height <= usize::MAX,
        ensures
            r.width == width,
            r.height == height,
            r.cells@.len() == width * height,
            forall|i: int, j: int|
                0 <= i < r.cells@.len() && 0 <= j < r.cells@.len() ==> r.cells@[i] == r.cells@[j],
    {
        let d = T::default();
        let n = width * height;
        let mut cells: Vec<T> = Vec::new();
        let mut i: usize = 0;
        while i < n
            invariant
                i <= n,
                cells@.len() == i,
                forall|j: int| 0 <= j < i ==> cells@[j] == d,
            decreases n - i,
        {
            cells.push(d);
            i = i + 1;
        }
        IntMap { cells, width, height }
    }

    /// Reads a grid written one row per line: each character that is not
    /// whitespace becomes one cell through `mapper`.
    pub fn from_raw<F: Fn(char) -> T>(input: &str, mapper: F) -> (r: IntMap<T>)
        requires
            raw_shape(input@).is_some(),
            forall|c: char| mapper.requires((c,)),
        ensures
            r.width == raw_shape(input@).unwrap().0,
            r.height == raw_shape(input@).unwrap().1,
            r.cells@.len() == grid_data(trim_chars(input@)).len(),
            r.cells@.len() == r.width * r.height,
            forall|i: int|
                0 <= i < r.cells@.len() ==> mapper.ensures(
                    (grid_data(trim_chars(input@))[i],),
                    #[trigger] r.cells@[i],
                ),
    {
        let shape = raw_grid_shape(input);
        let (width, height) = match shape {
            Some(sh) => sh,
            None => (0, 0),
        };
        let data = grid_chars(input);
        let mut cells: Vec<T> = Vec::new();
        let mut j: usize = 0;
        while j < data.len()
            invariant
                j <= data@.len(),
                forall|c: char| mapper.requires((c,)),
                cells@.len() == j,
                forall|i: int| 0 <= i < j ==> mapper.ensures((data@[i],), #[trigger] cells@[i]),
            decreases data@.len() - j,
        {
            let c = mapper(data[j]);
            cells.push(c);
            j = j + 1;
        }
        proof {
            let sh = raw_shape(input@).unwrap();
            vstd::arithmetic::div_mod::lemma_fundamental_div_mod(data@.len() as int, sh.0 as int);
        }
        IntMap { cells, width, height }
    }

    pub fn in_bounds(&self, co: (isize, isize)) -> (r: bool)
        ensures
            r == self.spec_in_bounds(co),
    {
        0 <= co.0 && (co.0 as usize) < self.width && 0 <= co.1 && (co.1 as usize) < self.height
    }

    /// The position in `cells` of `co`, row by row.
    pub fn pt_to_idx(&self, co: (isize, isize)) -> (r: isize)
        requires
            self.width <= isize::MAX,
            isize::MIN <= co.1 * self.width <= isize::MAX,
            isize::MIN <= co.1 * self.width + co.0 <= isize::MAX,
        ensures
            r == self.index_of(co),
    {
        co.1 * self.width as isize + co.0
    }

    /// The coordinate of position `idx`: its remainder and quotient by the
    /// width, both rounded toward zero as Rust's `%` and `/` do.
    pub fn idx_to_pt(&self, idx: isize) -> (r: (isize, isize))
        requires
            0 < self.width <= isize::MAX,
        ensures
            r.1 == (if idx >= 0 {
                (idx as int) / (self.width as int)
            } else {
                -((-(idx as int)) / (self.width as int))
            }),
            r.0 == idx - r.1 * self.width,
    {
        let w = self.width as isize;
        if idx >= 0 {
            let q = idx / w;
            let rem = idx % w;
            proof {
                vstd::arithmetic::div_mod::lemma_fundamental_div_mod(idx as int, w as int);
                assert((w as int) * (q as int) == (q as int) * (w as int)) by (nonlinear_arith);
            }
            (rem, q)
        } else {
            let n = (-(idx as i128)) as u128;
            let q = (n / (w as u128)) as i128;
            let rem = (n % (w as u128)) as i128;
            proof {
                vstd::arithmetic::div_mod::lemma_fundamental_div_mod(n as int, w as int);
                vstd::arithmetic::div_mod::lemma_div_pos_is_pos(n as int, w as int);
                vstd::arithmetic::div_mod::lemma_div_is_ordered_by_denominator(n as int, 1, w as int);
                let qi = (n as int) / (w as int);
                assert((-qi) * (w as int) == -(qi * (w as int))) by (nonlinear_arith);
                assert((w as int) * qi == qi * (w as int)) by (nonlinear_arith);
            }
            ((-rem) as isize, (-q) as isize)
        }
    }

    /// The cell at `co`, if `co` lies inside the grid and its cell is stored.
    pub fn get(&self, co: (isize, isize)) -> (r: Option<&T>)
        ensures
            r.is_some() == self.cell(co).is_some(),
            r.is_some() ==> *r.unwrap() == self.cell(co).unwrap(),
    {
        let len = self.cells.len();
        if !self.in_bounds(co) {
            return None;
        }
        let x = co.0 as usize;
        let y = co.1 as usize;
        match y.checked_mul(self.width) {
            Some(row) => match row.checked_add(x) {
                Some(idx) => {
                    if idx < len {
                        Some(&self.cells[idx])
                    } else {
                        None
                    }
                },
                None => None,
            },
            None => None,
        }
    }

    /// Walks the coordinates of the grid row by row.
    pub fn iter<'a>(&'a self) -> (r: CoordIterator<'a, T>)
        requires
            self.width <= isize::MAX,
            self.height <= isize::MAX,
        ensures
            r.wf(),
            r.grid() == *self,
            r.pos() == (0isize, 0isize),
    {
        CoordIterator { m: self, x: 0, y: 0 }
    }

    /// Stores `val` at the position of `co`.
    pub fn set(&mut self, co: (isize, isize), val: T)
        requires
            old(self).width <= isize::MAX,
            isize::MIN <= co.1 * old(self).width <= isize::MAX,
            old(self).index_of(co) <= isize::MAX,
            0 <= old(self).index_of(co) < old(self).cells@.len(),
        ensures
            final(self).cells@ == old(self).cells@.update(old(self).index_of(co), val),
            final(self).width == old(self).width,
            final(self).height == old(self).height,
    {
        let idx = self.pt_to_idx(co);
        self.cells.set(idx as usize, val);
    }
}

/// The coordinates of a grid, row by row.
pub struct CoordIterator<'a, T> {
    m: &'a IntMap<T>,
    x: isize,
    y: isize,
}

impl<'a, T: Copy> CoordIterator<'a, T> {
    /// The grid walked.
    pub closed spec fn grid(&self) -> IntMap<T> {
        *self.m
    }

    /// The coordinate that the walk stands on.
    pub closed spec fn pos(&self) -> (isize, isize) {
        (self.x, self.y)
    }

    pub closed spec fn wf(&self) -> bool {
        &&& self.m.width <= isize::MAX
        &&& self.m.height <= isize::MAX
        &&& 0 <= self.x <= self.m.width
        &&& 0 <= self.y <= self.m.height
    }

    /// The next coordinate: the next one in the current row, else the first
    /// of the next row, else none.
    pub fn next(&mut self) -> (r: Option<(isize, isize)>)
        requires
            old(self).wf(),
        ensures
            final(self).wf(),
            final(self).grid() == old(self).grid(),
            ({
                let g = old(self).grid();
                let (x, y) = old(self).pos();
                if g.spec_in_bounds((x, y)) {
                    r == Some((x, y)) && final(self).pos() == ((x + 1) as isize, y)
                } else if 0 < g.width && y + 1 < g.height {
                    r == Some((0isize, (y + 1) as isize)) && final(self).pos() == (
                        1isize,
                        (y + 1) as isize,
                    )
                } else {
                    r.is_none()
                }
            }),
    {
        let x = self.x;
        let y = self.y;
        if self.m.in_bounds((x, y)) {
            self.x = x + 1;
            return Some((x, y));
        }
        if y < self.m.height as isize && self.m.in_bounds((0, y + 1)) {
            self.x = 1;
            self.y = y + 1;
            return Some((0, y + 1));
        }
        None
    }
}

/// A point in the plane.
#[derive(Debug, Copy, Clone, PartialEq, Eq, PartialOrd, Ord)]
pub struct Coord<T> {
    pub x: T,
    pub y: T,
}

impl<T: Copy> Coord<T> {
    pub fn get(&self) -> (r: (T, T))
        ensures
            r == (self.x, self.y),
    {
        (self.x, self.y)
    }

    pub fn wrap(t: (T, T)) -> (r: Self)
        ensures
            r == (Coord { x: t.0, y: t.1 }),
    {
        Coord { x: t.0, y: t.1 }
    }

    pub fn xy(x: T, y: T) -> (r: Self)
        ensures
            r == (Coord { x, y }),
    {
        Coord { x, y }
    }
}

impl<T> From<(T, T)> for Coord<T> {
    fn from(t: (T, T)) -> (r: Self) {
        Coord { x: t.0, y: t.1 }
    }
}

impl<T> vstd::std_specs::convert::FromSpecImpl<(T, T)> for Coord<T> {
    open spec fn obeys_from_spec() -> bool {
        true
    }

    open spec fn from_spec(t: (T, T)) -> Self {
        Coord { x: t.0, y: t.1 }
    }
}

} // verus!
