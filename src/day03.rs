//! Picking digits from each line, left to right, to make the largest number
//! of a given length.
use crate::text::{line_spans, lines, pieces, spans_within, trim, trim_span};
use crate::Day;
use vstd::prelude::*;
use vstd::string::StringSliceAdditionalSpecFns;

verus! {

/// The digits of a line: each byte less 48 (the byte `0`), where no byte is
/// below 48.
pub open spec fn digits_of(line: Seq<u8>) -> Option<Seq<i64>> {
    let t = trim(line);
    if forall|i: int| 0 <= i < t.len() ==> #[trigger] t[i] >= 48 {
        Some(t.map_values(|b: u8| (b - 48) as i64))
    } else {
        None
    }
}

/// The rows of digits of the lines, where every line gives one.
pub open spec fn rows_of(ls: Seq<Seq<u8>>) -> Option<Seq<Seq<i64>>>
    decreases ls.len(),
{
    if ls.len() == 0 {
        Some(Seq::empty())
    } else {
        match (rows_of(ls.drop_last()), digits_of(ls.last())) {
            (Some(p), Some(c)) => Some(p.push(c)),
            _ => None,
        }
    }
}

pub open spec fn spec_parse(input: Seq<u8>) -> Option<Seq<Seq<i64>>> {
    rows_of(lines(trim(input)))
}

/// The position of the first largest value of a non-empty `s`.
pub open spec fn max_idx(s: Seq<i64>) -> int
    decreases s.len(),
{
    if s.len() <= 1 {
        0
    } else {
        let j = max_idx(s.drop_last());
        if s.last() > s[j] {
            s.len() - 1
        } else {
            j
        }
    }
}

/// The number made by picking `k` values of `row` from position `start` on,
/// each time the first largest value that leaves room for the rest, and
/// appending each as a decimal digit to `acc`.
pub open spec fn pick(row: Seq<i64>, start: int, k: nat, acc: int) -> int
    decreases k,
{
    if k == 0 {
        acc
    } else {
        let end = row.len() - (k - 1);
        let loc = start + max_idx(row.subrange(start, end));
        pick(row, loc + 1, (k - 1) as nat, acc * 10 + row[loc])
    }
}

/// The sum over rows of the number picked with `k` digits, where every row
/// has at least `k` values.
pub open spec fn total(rows: Seq<Seq<i64>>, k: nat) -> Option<int>
    decreases rows.len(),
{
    if rows.len() == 0 {
        Some(0)
    } else {
        match total(rows.drop_last(), k) {
            Some(t) => if rows.last().len() >= k {
                Some(t + pick(rows.last(), 0, k, 0))
            } else {
                None
            },
            None => None,
        }
    }
}

/// The position and value of the first largest value of `slice`.
pub fn max_in_slice(slice: &[i64]) -> (r: (usize, i64))
    requires
        slice@.len() >= 1,
    ensures
        r.0 == max_idx(slice@),
        r.0 < slice@.len(),
        r.1 == slice@[r.0 as int],
        forall|j: int| 0 <= j < slice@.len() ==> slice@[j] <= r.1,
        forall|j: int| 0 <= j < r.0 ==> slice@[j] < r.1,
{
    let mut curr = (0usize, slice[0]);
    let mut idx: usize = 1;
    assert(slice@.take(1).len() == 1);
    while idx < slice.len()
        invariant
            1 <= idx <= slice@.len(),
            curr.0 == max_idx(slice@.take(idx as int)),
            curr.0 < idx,
            curr.1 == slice@[curr.0 as int],
            forall|j: int| 0 <= j < idx ==> slice@[j] <= curr.1,
            forall|j: int| 0 <= j < curr.0 ==> slice@[j] < curr.1,
        decreases slice@.len() - idx,
    {
        assert(slice@.take(idx + 1).drop_last() =~= slice@.take(idx as int));
        assert(slice@.take(idx as int)[curr.0 as int] == slice@[curr.0 as int]);
        let val = slice[idx];
        if val > curr.1 {
            curr = (idx, val);
        }
        idx = idx + 1;
    }
    assert(slice@.take(idx as int) =~= slice@);
    curr
}

/// The digits of the line `s[lo..hi]`.
fn parse_row(s: &[u8], lo: usize, hi: usize) -> (r: Option<Vec<i64>>)
    requires
        lo <= hi <= s@.len(),
    ensures
        match digits_of(s@.subrange(lo as int, hi as int)) {
            Some(v) => r.is_some() && r.unwrap()@ == v,
            None => r.is_none(),
        },
{
    let (a, b) = trim_span(s, lo, hi);
    let ghost t = s@.subrange(a as int, b as int);
    let mut out: Vec<i64> = Vec::new();
    let mut i = a;
    while i < b
        invariant
            lo <= a <= i <= b <= hi <= s@.len(),
            t == s@.subrange(a as int, b as int),
            t == trim(s@.subrange(lo as int, hi as int)),
            out@ =~= t.take(i - a).map_values(|x: u8| (x - 48) as i64),
            forall|j: int| 0 <= j < i - a ==> #[trigger] t[j] >= 48,
        decreases b - i,
    {
        assert(t[i - a] == s@[i as int]);
        if s[i] < 48 {
            return None;
        }
        out.push((s[i] - 48) as i64);
        i = i + 1;
    }
    assert(t.take(i - a) =~= t);
    Some(out)
}

proof fn lemma_rows_prefix(ls: Seq<Seq<u8>>, k: int)
    requires
        0 <= k <= ls.len(),
        rows_of(ls.take(k)).is_none(),
    ensures
        rows_of(ls).is_none(),
    decreases ls.len(),
{
    if k < ls.len() {
        assert(ls.drop_last().take(k) =~= ls.take(k));
        lemma_rows_prefix(ls.drop_last(), k);
    } else {
        assert(ls.take(k) =~= ls);
    }
}

/// The rows of digits of a text with one row per line.
pub fn parse(input: &str) -> (r: Option<Vec<Vec<i64>>>)
    ensures
        match spec_parse(input.spec_bytes()) {
            Some(v) => r.is_some() && r.unwrap().deep_view() == v,
            None => r.is_none(),
        },
{
    let s = input.as_bytes();
    let (lo, hi) = trim_span(s, 0, s.len());
    assert(s@.subrange(0, s@.len() as int) =~= s@);
    let ls = line_spans(s, lo, hi);
    let ghost lp = pieces(s@, ls@);
    let mut out: Vec<Vec<i64>> = Vec::new();
    let mut i: usize = 0;
    while i < ls.len()
        invariant
            i <= ls@.len(),
            lp == pieces(s@, ls@),
            lp == lines(trim(s@)),
            s@ == input.spec_bytes(),
            spans_within(ls@, lo as int, hi as int),
            hi <= s@.len(),
            rows_of(lp.take(i as int)) == Some(out.deep_view()),
        decreases ls@.len() - i,
    {
        assert(lp.take(i + 1).drop_last() =~= lp.take(i as int));
        let (a, b) = ls[i];
        assert(lp.take(i + 1).last() == s@.subrange(a as int, b as int));
        match parse_row(s, a, b) {
            Some(row) => {
                let ghost prev = out.deep_view();
                assert(row.deep_view() =~= row@);
                out.push(row);
                assert(out.deep_view() =~= prev.push(row@));
            },
            None => {
                proof {
                    assert(rows_of(lp.take(i + 1)).is_none());
                    lemma_rows_prefix(lp, i + 1);
                }
                return None;
            },
        }
        i = i + 1;
    }
    assert(lp.take(i as int) =~= lp);
    Some(out)
}

/// The number picked with `k` digits from `row` (which has at least `k`
/// values), as `pick` describes.
fn pick_digits(row: &Vec<i64>, k: usize) -> (r: i64)
    requires
        1 <= k <= 12,
        row@.len() >= k,
        forall|j: int| 0 <= j < row@.len() ==> 0 <= #[trigger] row@[j] <= 207,
    ensures
        r == pick(row@, 0, k as nat, 0),
        0 <= r < 1000000000000000,
{
    let mut s: i64 = 0;
    let mut last_loc: usize = 0;
    let mut i: usize = k;
    while i > 0
        invariant
            i <= k <= 12,
            row@.len() >= k,
            forall|j: int| 0 <= j < row@.len() ==> 0 <= #[trigger] row@[j] <= 207,
            last_loc <= row@.len() - i,
            pick(row@, last_loc as int, i as nat, s as int) == pick(row@, 0, k as nat, 0),
            0 <= s,
            s < pick_bound((k - i) as nat),
        decreases i,
    {
        let end = row.len() - (i - 1);
        let slice = vstd::slice::slice_subrange(row.as_slice(), last_loc, end);
        let (loc, n) = max_in_slice(slice);
        assert(slice@ == row@.subrange(last_loc as int, end as int));
        proof {
            assert(n == row@[last_loc + loc]);
            pick_bound_step((k - i) as nat);
            pick_bound_small((k - i) as nat);
            assert(s < 1000000000000000);
            assert(0 <= n <= 207);
        }
        s = s * 10 + n;
        last_loc = last_loc + loc + 1;
        i = i - 1;
    }
    proof {
        pick_bound_small(k as nat);
    }
    s
}

/// A bound on a number of `d` picked values, each at most 207.
pub open spec fn pick_bound(d: nat) -> int
    decreases d,
{
    if d == 0 {
        1
    } else {
        10 * pick_bound((d - 1) as nat) + 207
    }
}

proof fn pick_bound_step(d: nat)
    ensures
        pick_bound(d + 1) == 10 * pick_bound(d) + 207,
{
}

proof fn pick_bound_small(d: nat)
    requires
        d <= 12,
    ensures
        pick_bound(d) < 1000000000000000,
    decreases d,
{
    reveal_with_fuel(pick_bound, 13);
}

/// The sum over `rows` of the number picked with `k` digits, where every row
/// has at least `k` values and the sum fits.
fn total_exec(rows: &Vec<Vec<i64>>, k: usize) -> (r: Option<i64>)
    requires
        1 <= k <= 12,
        forall|i: int, j: int|
            0 <= i < rows.deep_view().len() && 0 <= j < rows.deep_view()[i].len() ==> 0
                <= #[trigger] rows.deep_view()[i][j] <= 207,
    ensures
        r == (match total(rows.deep_view(), k as nat) {
            Some(t) => if t <= i64::MAX {
                Some(t as i64)
            } else {
                None
            },
            None => None,
        }),
{
    let mut acc: i64 = 0;
    let mut i: usize = 0;
    while i < rows.len()
        invariant
            i <= rows@.len(),
            1 <= k <= 12,
            forall|p: int, j: int|
                0 <= p < rows.deep_view().len() && 0 <= j < rows.deep_view()[p].len() ==> 0
                    <= #[trigger] rows.deep_view()[p][j] <= 207,
            total(rows.deep_view().take(i as int), k as nat) == Some(acc as int),
            0 <= acc,
        decreases rows@.len() - i,
    {
        let ghost dv = rows.deep_view();
        assert(dv.take(i + 1).drop_last() =~= dv.take(i as int));
        assert(rows@[i as int].deep_view() =~= rows@[i as int]@);
        assert(dv.take(i + 1).last() == rows@[i as int]@);
        let row = &rows[i];
        if row.len() < k {
            proof {
                lemma_total_prefix(dv, i + 1, k as nat);
            }
            return None;
        }
        let v = pick_digits(row, k);
        match acc.checked_add(v) {
            Some(x) => {
                acc = x;
            },
            None => {
                proof {
                    lemma_total_grows(dv, i + 1, k as nat);
                }
                return None;
            },
        }
        i = i + 1;
    }
    assert(rows.deep_view().take(i as int) =~= rows.deep_view());
    Some(acc)
}

proof fn lemma_total_prefix(rows: Seq<Seq<i64>>, j: int, k: nat)
    requires
        0 <= j <= rows.len(),
        total(rows.take(j), k).is_none(),
    ensures
        total(rows, k).is_none(),
    decreases rows.len(),
{
    if j < rows.len() {
        assert(rows.drop_last().take(j) =~= rows.take(j));
        lemma_total_prefix(rows.drop_last(), j, k);
    } else {
        assert(rows.take(j) =~= rows);
    }
}

proof fn lemma_pick_nonneg(row: Seq<i64>, start: int, k: nat, acc: int)
    requires
        acc >= 0,
        0 <= start,
        start + k <= row.len(),
        forall|j: int| 0 <= j < row.len() ==> 0 <= #[trigger] row[j],
    ensures
        pick(row, start, k, acc) >= acc,
    decreases k,
{
    if k > 0 {
        let end = row.len() - (k - 1);
        let sub = row.subrange(start, end);
        lemma_max_idx_bounds(sub);
        let loc = start + max_idx(sub);
        lemma_pick_nonneg(row, loc + 1, (k - 1) as nat, acc * 10 + row[loc]);
    }
}

proof fn lemma_max_idx_bounds(s: Seq<i64>)
    ensures
        s.len() >= 1 ==> 0 <= max_idx(s) < s.len(),
    decreases s.len(),
{
    if s.len() > 1 {
        lemma_max_idx_bounds(s.drop_last());
    }
}

proof fn lemma_total_grows(rows: Seq<Seq<i64>>, j: int, k: nat)
    requires
        0 <= j <= rows.len(),
        forall|i: int, p: int|
            0 <= i < rows.len() && 0 <= p < rows[i].len() ==> 0 <= #[trigger] rows[i][p],
    ensures
        total(rows.take(j), k).is_some() && total(rows, k).is_some() ==> total(rows.take(j), k).unwrap()
            <= total(rows, k).unwrap(),
    decreases rows.len(),
{
    if j < rows.len() {
        assert(rows.drop_last().take(j) =~= rows.take(j));
        lemma_total_grows(rows.drop_last(), j, k);
        let last = rows.last();
        assert(forall|p: int| 0 <= p < last.len() ==> 0 <= #[trigger] last[p]) by {
            assert forall|p: int| 0 <= p < last.len() implies 0 <= #[trigger] last[p] by {
                assert(last[p] == rows[rows.len() - 1][p]);
            }
        }
        if last.len() >= k {
            lemma_pick_nonneg(last, 0, k, 0);
        }
    } else {
        assert(rows.take(j) =~= rows);
    }
}

/// Day 3: the largest numbers picked from rows of digits.
pub struct Day3 {

}

impl Day for Day3 {
    type Output = i64;

    /// The sum over rows of the largest two-digit pick.
    open spec fn spec_part1(input: &str) -> Option<i64> {
        match spec_parse(input.spec_bytes()) {
            Some(rows) => match total(rows, 2) {
                Some(t) => if t <= i64::MAX {
                    Some(t as i64)
                } else {
                    None
                },
                None => None,
            },
            None => None,
        }
    }

    /// The sum over rows of the largest twelve-digit pick.
    open spec fn spec_part2(input: &str) -> Option<i64> {
        match spec_parse(input.spec_bytes()) {
            Some(rows) => match total(rows, 12) {
                Some(t) => if t <= i64::MAX {
                    Some(t as i64)
                } else {
                    None
                },
                None => None,
            },
            None => None,
        }
    }

    fn part1(input: &str) -> (r: Option<i64>) {
        match parse(input) {
            Some(rows) => {
                proof {
                    lemma_rows_small(input.spec_bytes());
                }
                total_exec(&rows, 2)
            },
            None => None,
        }
    }

    fn part2(input: &str) -> (r: Option<i64>) {
        match parse(input) {
            Some(rows) => {
                proof {
                    lemma_rows_small(input.spec_bytes());
                }
                total_exec(&rows, 12)
            },
            None => None,
        }
    }
}

/// Each value that the text's rows hold is between 0 and 207.
proof fn lemma_rows_small(input: Seq<u8>)
    requires
        spec_parse(input).is_some(),
    ensures
        forall|i: int, j: int|
            0 <= i < spec_parse(input).unwrap().len() && 0 <= j < spec_parse(input).unwrap()[i].len()
                ==> 0 <= #[trigger] spec_parse(input).unwrap()[i][j] <= 207,
{
    lemma_rows_small_of(lines(trim(input)));
}

proof fn lemma_rows_small_of(ls: Seq<Seq<u8>>)
    requires
        rows_of(ls).is_some(),
    ensures
        forall|i: int, j: int|
            0 <= i < rows_of(ls).unwrap().len() && 0 <= j < rows_of(ls).unwrap()[i].len() ==> 0
                <= #[trigger] rows_of(ls).unwrap()[i][j] <= 207,
    decreases ls.len(),
{
    if ls.len() > 0 {
        lemma_rows_small_of(ls.drop_last());
        let t = trim(ls.last());
        assert forall|j: int| 0 <= j < t.len() implies 0 <= #[trigger] (t[j] - 48) <= 207 by {
            assert(t[j] >= 48);
        }
    }
}

} // verus!
