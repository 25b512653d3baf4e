//! A worksheet of sums and products written in columns, read two ways: by
//! whitespace-separated rows, and column by column from the right.
use crate::text::{
    find, find_byte, line_spans, lines, parse_u64, pieces, spans_within, trim, trim_span, u64_of,
};
use vstd::arithmetic::div_mod::{lemma_fundamental_div_mod_converse};
use crate::Day;
use vstd::prelude::*;
use vstd::string::StringSliceAdditionalSpecFns;

verus! {

#[derive(Debug, Clone, Copy, PartialEq, Eq, Structural)]
pub enum Op {
    Add,
    Mult,
}

/// Whitespace as `split_ascii_whitespace` sees it: space, tab, line feed,
/// form feed, carriage return.
pub open spec fn is_ws(b: u8) -> bool {
    b == 32 || b == 9 || b == 10 || b == 12 || b == 13
}

/// The words of `s`: its longest runs of bytes that are not whitespace.
pub open spec fn words(s: Seq<u8>) -> Seq<Seq<u8>>
    decreases s.len(),
{
    if s.len() == 0 {
        Seq::empty()
    } else if is_ws(s.last()) {
        words(s.drop_last())
    } else if s.len() >= 2 && !is_ws(s[s.len() - 2]) {
        let w = words(s.drop_last());
        w.update(w.len() - 1, w.last().push(s.last()))
    } else {
        words(s.drop_last()).push(seq![s.last()])
    }
}

/// The operator that a word names.
pub open spec fn op_of(w: Seq<u8>) -> Option<Op> {
    if w == seq![43u8] {
        Some(Op::Add)
    } else if w == seq![42u8] {
        Some(Op::Mult)
    } else {
        None
    }
}

/// The words, where every one is a number.
pub open spec fn nums_of(ws: Seq<Seq<u8>>) -> Option<Seq<u64>>
    decreases ws.len(),
{
    if ws.len() == 0 {
        Some(Seq::empty())
    } else {
        match (nums_of(ws.drop_last()), u64_of(ws.last())) {
            (Some(p), Some(c)) => Some(p.push(c)),
            _ => None,
        }
    }
}

/// The words, where every one is an operator.
pub open spec fn ops_of(ws: Seq<Seq<u8>>) -> Option<Seq<Op>>
    decreases ws.len(),
{
    if ws.len() == 0 {
        Some(Seq::empty())
    } else {
        match (ops_of(ws.drop_last()), op_of(ws.last())) {
            (Some(p), Some(c)) => Some(p.push(c)),
            _ => None,
        }
    }
}

/// The columns after adding a row of numbers: value `c` of the row goes to
/// column `c`, which is started where it is new.
pub open spec fn add_row(cols: Seq<Seq<u64>>, row: Seq<u64>) -> Seq<Seq<u64>> {
    let n = if cols.len() >= row.len() {
        cols.len()
    } else {
        row.len()
    };
    Seq::new(
        n,
        |c: int|
            if c < row.len() {
                (if c < cols.len() {
                    cols[c]
                } else {
                    Seq::empty()
                }).push(row[c])
            } else {
                cols[c]
            },
    )
}

/// Reading the lines in order: a line whose words are all numbers adds a
/// row; any other line is a line of operators and replaces the operators
/// read so far. The result is the columns and the operators.
pub open spec fn sheet(ls: Seq<Seq<u8>>) -> Option<(Seq<Seq<u64>>, Seq<Op>)>
    decreases ls.len(),
{
    if ls.len() == 0 {
        Some((Seq::empty(), Seq::empty()))
    } else {
        match sheet(ls.drop_last()) {
            Some((cols, ops)) => {
                let ws = words(trim(ls.last()));
                match nums_of(ws) {
                    Some(row) => Some((add_row(cols, row), ops)),
                    None => match ops_of(ws) {
                        Some(o) => Some((cols, o)),
                        None => None,
                    },
                }
            },
            None => None,
        }
    }
}

/// Each operator with its column, as far as both go.
pub open spec fn zip(ops: Seq<Op>, cols: Seq<Seq<u64>>) -> Seq<(Op, Seq<u64>)> {
    let n = if ops.len() <= cols.len() {
        ops.len()
    } else {
        cols.len()
    };
    Seq::new(n, |i: int| (ops[i], cols[i]))
}

/// The problems of the worksheet read by rows.
pub open spec fn spec_parse(input: Seq<u8>) -> Option<Seq<(Op, Seq<u64>)>> {
    match sheet(lines(trim(input))) {
        Some((cols, ops)) => Some(zip(ops, cols)),
        None => None,
    }
}

/// The state of the column reader: the problems so far, the numbers of the
/// current problem, and the number being read.
pub struct Reader {
    pub eqs: Seq<(Op, Seq<u64>)>,
    pub nums: Seq<u64>,
    pub cur: u64,
}

/// One byte read: a digit extends the current number, `*` and `+` close a
/// problem, anything else is passed over; none where the number overflows.
pub open spec fn read_byte(st: Reader, b: u8) -> Option<Reader> {
    if 48 <= b <= 57 {
        let v = st.cur * 10 + (b - 48);
        if v <= u64::MAX {
            Some(Reader { cur: v as u64, ..st })
        } else {
            None
        }
    } else if b == 42 {
        Some(Reader { eqs: st.eqs.push((Op::Mult, st.nums.push(st.cur))), nums: Seq::empty(), cur: 0 })
    } else if b == 43 {
        Some(Reader { eqs: st.eqs.push((Op::Add, st.nums.push(st.cur))), nums: Seq::empty(), cur: 0 })
    } else {
        Some(st)
    }
}

/// The end of a column: a number read (if not 0) joins the current problem.
pub open spec fn end_column(st: Reader) -> Reader {
    Reader { nums: if st.cur != 0 { st.nums.push(st.cur) } else { st.nums }, cur: 0, ..st }
}

/// The reader after the first `k` bytes, taken column by column from the
/// right and within a column from the top line down.
pub open spec fn read_columns(ls: Seq<Seq<u8>>, cols: nat, k: nat) -> Option<Reader>
    decreases k,
{
    if k == 0 {
        Some(Reader { eqs: Seq::empty(), nums: Seq::empty(), cur: 0 })
    } else {
        let p = (k - 1) as nat;
        let c = cols - 1 - p / ls.len();
        let l = p % ls.len();
        match read_columns(ls, cols, p) {
            Some(st) => match read_byte(st, ls[l as int][c as int]) {
                Some(st2) => Some(
                    if (p + 1) % ls.len() == 0 {
                        end_column(st2)
                    } else {
                        st2
                    },
                ),
                None => None,
            },
            None => None,
        }
    }
}

/// The problems of the worksheet read column by column: as many columns as
/// the bytes before the first line feed, every line at least that long.
pub open spec fn spec_parse2(input: Seq<u8>) -> Option<Seq<(Op, Seq<u64>)>> {
    match find(input, 10) {
        Some(cols) => {
            let ls = lines(input);
            if forall|l: int| 0 <= l < ls.len() ==> #[trigger] ls[l].len() >= cols {
                match read_columns(ls, cols, cols * ls.len()) {
                    Some(st) => Some(st.eqs),
                    None => None,
                }
            } else {
                None
            }
        },
        None => None,
    }
}

/// A sum, none where a partial sum overflows.
pub open spec fn sum_opt(s: Seq<u64>) -> Option<u64>
    decreases s.len(),
{
    if s.len() == 0 {
        Some(0)
    } else {
        match sum_opt(s.drop_last()) {
            Some(t) => if t + s.last() <= u64::MAX {
                Some((t + s.last()) as u64)
            } else {
                None
            },
            None => None,
        }
    }
}

/// A product from 1, none where a partial product overflows.
pub open spec fn prod_opt(s: Seq<u64>) -> Option<u64>
    decreases s.len(),
{
    if s.len() == 0 {
        Some(1)
    } else {
        match prod_opt(s.drop_last()) {
            Some(t) => if t * s.last() <= u64::MAX {
                Some((t * s.last()) as u64)
            } else {
                None
            },
            None => None,
        }
    }
}

pub open spec fn value(e: (Op, Seq<u64>)) -> Option<u64> {
    match e.0 {
        Op::Add => sum_opt(e.1),
        Op::Mult => prod_opt(e.1),
    }
}

/// The sum of the problems' values, none where a value or a partial sum
/// overflows.
pub open spec fn grand_total(eqs: Seq<(Op, Seq<u64>)>) -> Option<u64>
    decreases eqs.len(),
{
    if eqs.len() == 0 {
        Some(0)
    } else {
        match (grand_total(eqs.drop_last()), value(eqs.last())) {
            (Some(t), Some(v)) => if t + v <= u64::MAX {
                Some((t + v) as u64)
            } else {
                None
            },
            _ => None,
        }
    }
}

proof fn lemma_total_prefix(eqs: Seq<(Op, Seq<u64>)>, k: int)
    requires
        0 <= k <= eqs.len(),
        grand_total(eqs.take(k)).is_none(),
    ensures
        grand_total(eqs).is_none(),
    decreases eqs.len(),
{
    if k < eqs.len() {
        assert(eqs.drop_last().take(k) =~= eqs.take(k));
        lemma_total_prefix(eqs.drop_last(), k);
    } else {
        assert(eqs.take(k) =~= eqs);
    }
}

proof fn lemma_fold_prefix(s: Seq<u64>, k: int)
    requires
        0 <= k <= s.len(),
    ensures
        sum_opt(s.take(k)).is_none() ==> sum_opt(s).is_none(),
        prod_opt(s.take(k)).is_none() ==> prod_opt(s).is_none(),
    decreases s.len(),
{
    if k < s.len() {
        assert(s.drop_last().take(k) =~= s.take(k));
        lemma_fold_prefix(s.drop_last(), k);
    } else {
        assert(s.take(k) =~= s);
    }
}

/// The value of one problem: the sum or the product of its numbers.
fn value_exec(op: Op, nums: &Vec<u64>) -> (r: Option<u64>)
    ensures
        r == value((op, nums@)),
{
    let mut acc: u64 = match op {
        Op::Add => 0,
        Op::Mult => 1,
    };
    let mut i: usize = 0;
    while i < nums.len()
        invariant
            i <= nums@.len(),
            op == Op::Add ==> sum_opt(nums@.take(i as int)) == Some(acc),
            op == Op::Mult ==> prod_opt(nums@.take(i as int)) == Some(acc),
        decreases nums@.len() - i,
    {
        assert(nums@.take(i + 1).drop_last() =~= nums@.take(i as int));
        let next = match op {
            Op::Add => acc.checked_add(nums[i]),
            Op::Mult => acc.checked_mul(nums[i]),
        };
        match next {
            Some(x) => {
                acc = x;
            },
            None => {
                proof {
                    lemma_fold_prefix(nums@, i + 1);
                }
                return None;
            },
        }
        i = i + 1;
    }
    assert(nums@.take(i as int) =~= nums@);
    Some(acc)
}

/// The sum of the problems' values.
pub fn solve_and_sum(eqs: Vec<(Op, Vec<u64>)>) -> (r: Option<u64>)
    ensures
        r == grand_total(eqs@.map_values(|e: (Op, Vec<u64>)| (e.0, e.1@))),
{
    let ghost es = eqs@.map_values(|e: (Op, Vec<u64>)| (e.0, e.1@));
    let mut acc: u64 = 0;
    let mut i: usize = 0;
    while i < eqs.len()
        invariant
            i <= eqs@.len(),
            es == eqs@.map_values(|e: (Op, Vec<u64>)| (e.0, e.1@)),
            grand_total(es.take(i as int)) == Some(acc),
        decreases eqs@.len() - i,
    {
        assert(es.take(i + 1).drop_last() =~= es.take(i as int));
        assert(es.take(i + 1).last() == (eqs@[i as int].0, eqs@[i as int].1@));
        let v = value_exec(eqs[i].0, &eqs[i].1);
        let next = match v {
            Some(v) => acc.checked_add(v),
            None => None,
        };
        match next {
            Some(x) => {
                acc = x;
            },
            None => {
                proof {
                    lemma_total_prefix(es, i + 1);
                }
                return None;
            },
        }
        i = i + 1;
    }
    assert(es.take(i as int) =~= es);
    Some(acc)
}

/// The words of `s[lo..hi]`.
fn word_spans(s: &[u8], lo: usize, hi: usize) -> (r: Vec<(usize, usize)>)
    requires
        lo <= hi <= s@.len(),
    ensures
        spans_within(r@, lo as int, hi as int),
        pieces(s@, r@) == words(s@.subrange(lo as int, hi as int)),
{
    let mut out: Vec<(usize, usize)> = Vec::new();
    let mut start: usize = lo;
    let mut in_word = false;
    let mut i = lo;
    assert(s@.subrange(lo as int, lo as int) =~= Seq::<u8>::empty());
    while i < hi
        invariant
            lo <= start <= i <= hi <= s@.len(),
            spans_within(out@, lo as int, i as int),
            in_word ==> start < i && !is_ws(s@[i - 1]) && pieces(s@, out@).push(
                s@.subrange(start as int, i as int),
            ) == words(s@.subrange(lo as int, i as int)),
            in_word ==> spans_within(out@, lo as int, start as int),
            !in_word ==> (i == lo || is_ws(s@[i - 1])) && pieces(s@, out@) == words(
                s@.subrange(lo as int, i as int),
            ),
        decreases hi - i,
    {
        let ghost prev = pieces(s@, out@);
        let ghost t = s@.subrange(lo as int, i + 1);
        assert(t.drop_last() =~= s@.subrange(lo as int, i as int));
        assert(t.last() == s@[i as int]);
        let b = s[i];
        let ws = b == 32 || b == 9 || b == 10 || b == 12 || b == 13;
        if ws {
            if in_word {
                out.push((start, i));
                assert(pieces(s@, out@) =~= prev.push(s@.subrange(start as int, i as int)));
            }
            in_word = false;
        } else {
            if in_word {
                assert(t.len() >= 2 && t[t.len() - 2] == s@[i - 1]);
                assert(s@.subrange(start as int, i + 1) =~= s@.subrange(start as int, i as int).push(b));
                assert(prev.push(s@.subrange(start as int, i + 1)) =~= words(t));
            } else {
                if i > lo {
                    assert(t[t.len() - 2] == s@[i - 1]);
                }
                start = i;
                assert(s@.subrange(start as int, i + 1) =~= seq![b]);
                assert(prev.push(s@.subrange(start as int, i + 1)) =~= words(t));
            }
            in_word = true;
        }
        i = i + 1;
    }
    if in_word {
        let ghost prev = pieces(s@, out@);
        out.push((start, hi));
        assert(pieces(s@, out@) =~= prev.push(s@.subrange(start as int, hi as int)));
    }
    out
}

/// The numbers of the words, where every one is a number.
fn parse_nums(s: &[u8], ws: &Vec<(usize, usize)>) -> (r: Option<Vec<u64>>)
    requires
        forall|i: int| 0 <= i < ws@.len() ==> (#[trigger] ws@[i]).0 <= ws@[i].1 <= s@.len(),
    ensures
        match nums_of(pieces(s@, ws@)) {
            Some(v) => r.is_some() && r.unwrap()@ == v,
            None => r.is_none(),
        },
{
    let ghost ps = pieces(s@, ws@);
    let mut out: Vec<u64> = Vec::new();
    let mut i: usize = 0;
    while i < ws.len()
        invariant
            i <= ws@.len(),
            ps == pieces(s@, ws@),
            forall|j: int| 0 <= j < ws@.len() ==> (#[trigger] ws@[j]).0 <= ws@[j].1 <= s@.len(),
            nums_of(ps.take(i as int)) == Some(out@),
        decreases ws@.len() - i,
    {
        assert(ps.take(i + 1).drop_last() =~= ps.take(i as int));
        let (a, b) = ws[i];
        match parse_u64(s, a, b) {
            Some(v) => {
                out.push(v);
            },
            None => {
                proof {
                    lemma_nums_prefix(ps, i + 1);
                }
                return None;
            },
        }
        i = i + 1;
    }
    assert(ps.take(i as int) =~= ps);
    Some(out)
}

proof fn lemma_nums_prefix(ws: Seq<Seq<u8>>, k: int)
    requires
        0 <= k <= ws.len(),
        nums_of(ws.take(k)).is_none(),
    ensures
        nums_of(ws).is_none(),
    decreases ws.len(),
{
    if k < ws.len() {
        assert(ws.drop_last().take(k) =~= ws.take(k));
        lemma_nums_prefix(ws.drop_last(), k);
    } else {
        assert(ws.take(k) =~= ws);
    }
}

proof fn lemma_ops_prefix(ws: Seq<Seq<u8>>, k: int)
    requires
        0 <= k <= ws.len(),
        ops_of(ws.take(k)).is_none(),
    ensures
        ops_of(ws).is_none(),
    decreases ws.len(),
{
    if k < ws.len() {
        assert(ws.drop_last().take(k) =~= ws.take(k));
        lemma_ops_prefix(ws.drop_last(), k);
    } else {
        assert(ws.take(k) =~= ws);
    }
}

proof fn lemma_sheet_prefix(ls: Seq<Seq<u8>>, k: int)
    requires
        0 <= k <= ls.len(),
        sheet(ls.take(k)).is_none(),
    ensures
        sheet(ls).is_none(),
    decreases ls.len(),
{
    if k < ls.len() {
        assert(ls.drop_last().take(k) =~= ls.take(k));
        lemma_sheet_prefix(ls.drop_last(), k);
    } else {
        assert(ls.take(k) =~= ls);
    }
}

/// The operators of the words, where every one is an operator.
fn parse_ops(s: &[u8], ws: &Vec<(usize, usize)>) -> (r: Option<Vec<Op>>)
    requires
        forall|i: int| 0 <= i < ws@.len() ==> (#[trigger] ws@[i]).0 <= ws@[i].1 <= s@.len(),
    ensures
        match ops_of(pieces(s@, ws@)) {
            Some(v) => r.is_some() && r.unwrap()@ == v,
            None => r.is_none(),
        },
{
    let ghost ps = pieces(s@, ws@);
    let mut out: Vec<Op> = Vec::new();
    let mut i: usize = 0;
    while i < ws.len()
        invariant
            i <= ws@.len(),
            ps == pieces(s@, ws@),
            forall|j: int| 0 <= j < ws@.len() ==> (#[trigger] ws@[j]).0 <= ws@[j].1 <= s@.len(),
            ops_of(ps.take(i as int)) == Some(out@),
        decreases ws@.len() - i,
    {
        assert(ps.take(i + 1).drop_last() =~= ps.take(i as int));
        let (a, b) = ws[i];
        let ghost w = ps[i as int];
        assert(w == s@.subrange(a as int, b as int));
        assert(ps.take(i + 1).last() == w);
        let one = b - a == 1;
        let op = if one && s[a] == 43 {
            assert(w =~= seq![43u8]);
            Some(Op::Add)
        } else if one && s[a] == 42 {
            assert(w =~= seq![42u8]);
            assert(w != seq![43u8]) by {
                assert(w[0] != seq![43u8][0]);
            }
            Some(Op::Mult)
        } else {
            assert(w != seq![43u8] && w != seq![42u8]) by {
                if one {
                    assert(w[0] == s@[a as int]);
                    assert(w[0] != seq![43u8][0]);
                    assert(w[0] != seq![42u8][0]);
                } else {
                    assert(w.len() != seq![43u8].len());
                }
            }
            None
        };
        assert(op_of(w) == op);
        match op {
            Some(o) => {
                out.push(o);
            },
            None => {
                proof {
                    lemma_ops_prefix(ps, i + 1);
                }
                return None;
            },
        }
        i = i + 1;
    }
    assert(ps.take(i as int) =~= ps);
    Some(out)
}

/// The numbers that a list of columns holds.
pub open spec fn cols_view(v: Seq<Vec<u64>>) -> Seq<Seq<u64>> {
    v.map_values(|x: Vec<u64>| x@)
}

/// The columns with `row` added.
fn add_row_exec(cols: &mut Vec<Vec<u64>>, row: &Vec<u64>)
    ensures
        cols_view(final(cols)@) == add_row(cols_view(old(cols)@), row@),
{
    let ghost c0 = cols_view(old(cols)@);
    let ghost target = add_row(c0, row@);
    let mut idx: usize = 0;
    while idx < row.len()
        invariant
            idx <= row@.len(),
            c0 == cols_view(old(cols)@),
            target == add_row(c0, row@),
            cols@.len() == if c0.len() >= idx {
                c0.len()
            } else {
                idx as nat
            },
            forall|c: int|
                0 <= c < cols@.len() ==> (#[trigger] cols@[c])@ == if c < idx {
                    target[c]
                } else {
                    c0[c]
                },
        decreases row@.len() - idx,
    {
        let ghost prev = cols@;
        let v = row[idx];
        if idx < cols.len() {
            let mut col = cols.remove(idx);
            col.push(v);
            cols.insert(idx, col);
            assert(cols@ =~= prev.update(idx as int, col));
        } else {
            let mut col: Vec<u64> = Vec::new();
            col.push(v);
            cols.push(col);
        }
        proof {
            assert forall|c: int| 0 <= c < cols@.len() implies (#[trigger] cols@[c])@ == if c < idx
                + 1 {
                target[c]
            } else {
                c0[c]
            } by {
                if c == idx {
                    assert(cols@[c]@ =~= target[c]);
                } else {
                    assert(cols@[c] == prev[c]);
                }
            }
        }
        idx = idx + 1;
    }
    assert(cols_view(cols@) =~= target);
}

/// The problems of the worksheet read by rows: each line of numbers a row,
/// the (last) line of operators giving each column its operator.
pub fn parse(input: &str) -> (r: Option<Vec<(Op, Vec<u64>)>>)
    ensures
        match spec_parse(input.spec_bytes()) {
            Some(v) => r.is_some() && r.unwrap()@.map_values(|e: (Op, Vec<u64>)| (e.0, e.1@)) == v,
            None => r.is_none(),
        },
{
    let s = input.as_bytes();
    let (lo, hi) = trim_span(s, 0, s.len());
    assert(s@.subrange(0, s@.len() as int) =~= s@);
    let ls = line_spans(s, lo, hi);
    let ghost lp = pieces(s@, ls@);
    let mut cols: Vec<Vec<u64>> = Vec::new();
    let mut ops: Vec<Op> = Vec::new();
    let mut i: usize = 0;
    assert(cols_view(cols@) =~= Seq::<Seq<u64>>::empty());
    while i < ls.len()
        invariant
            i <= ls@.len(),
            lp == pieces(s@, ls@),
            lp == lines(trim(s@)),
            s@ == input.spec_bytes(),
            spans_within(ls@, lo as int, hi as int),
            hi <= s@.len(),
            sheet(lp.take(i as int)) == Some((cols_view(cols@), ops@)),
        decreases ls@.len() - i,
    {
        assert(lp.take(i + 1).drop_last() =~= lp.take(i as int));
        let (a, b) = ls[i];
        assert(lp.take(i + 1).last() == s@.subrange(a as int, b as int));
        let (a2, b2) = trim_span(s, a, b);
        let ws = word_spans(s, a2, b2);
        match parse_nums(s, &ws) {
            Some(row) => {
                add_row_exec(&mut cols, &row);
            },
            None => match parse_ops(s, &ws) {
                Some(o) => {
                    ops = o;
                },
                None => {
                    proof {
                        assert(sheet(lp.take(i + 1)).is_none());
                        lemma_sheet_prefix(lp, i + 1);
                    }
                    return None;
                },
            },
        }
        i = i + 1;
    }
    assert(lp.take(i as int) =~= lp);
    let n = if ops.len() <= cols.len() {
        ops.len()
    } else {
        cols.len()
    };
    let ghost cv = cols_view(cols@);
    let mut out: Vec<(Op, Vec<u64>)> = Vec::new();
    let mut rest = cols;
    let mut j: usize = 0;
    while j < n
        invariant
            j <= n,
            n <= ops@.len(),
            n <= cv.len(),
            cols_view(rest@) =~= cv.skip(j as int),
            out@.map_values(|e: (Op, Vec<u64>)| (e.0, e.1@)) =~= zip(ops@, cv).take(j as int),
            spec_parse(input.spec_bytes()) == Some(zip(ops@, cv)),
        decreases n - j,
    {
        let ghost before = rest@;
        assert(cols_view(before).len() == before.len());
        assert(cols_view(before)[0] == cv[j as int]);
        let col = rest.remove(0);
        assert(rest@ =~= before.drop_first());
        assert(cols_view(rest@) =~= cols_view(before).drop_first());
        assert(cols_view(rest@) =~= cv.skip(j + 1));
        assert(col@ == cv[j as int]);
        let ghost prev = out@;
        out.push((ops[j], col));
        assert(out@.map_values(|e: (Op, Vec<u64>)| (e.0, e.1@)) =~= prev.map_values(
            |e: (Op, Vec<u64>)| (e.0, e.1@),
        ).push((ops@[j as int], cv[j as int])));
        j = j + 1;
    }
    assert(zip(ops@, cv).take(n as int) =~= zip(ops@, cv));
    Some(out)
}

/// The problems with their numbers as sequences.
pub open spec fn eqs_view(v: Seq<(Op, Vec<u64>)>) -> Seq<(Op, Seq<u64>)> {
    v.map_values(|e: (Op, Vec<u64>)| (e.0, e.1@))
}

/// Where position `k` of the reading falls: column `k / n` from the right,
/// line `k % n`.
proof fn lemma_position(ci: int, n: int, l: int)
    requires
        0 <= ci,
        0 <= l < n,
    ensures
        (ci * n + l) / n == ci,
        (ci * n + l) % n == l,
        (ci * n + l + 1) % n == 0 <==> l + 1 == n,
        ci * n + n == (ci + 1) * n,
{
    lemma_fundamental_div_mod_converse(ci * n + l, n, ci, l);
    assert(ci * n + n == (ci + 1) * n) by (nonlinear_arith);
    if l + 1 == n {
        lemma_fundamental_div_mod_converse(ci * n + l + 1, n, ci + 1, 0);
    } else {
        lemma_fundamental_div_mod_converse(ci * n + l + 1, n, ci, l + 1);
    }
}

proof fn lemma_read_fails_on(ls: Seq<Seq<u8>>, cols: nat, k: nat, k2: nat)
    requires
        k <= k2,
        read_columns(ls, cols, k).is_none(),
    ensures
        read_columns(ls, cols, k2).is_none(),
    decreases k2,
{
    if k < k2 {
        lemma_read_fails_on(ls, cols, k, (k2 - 1) as nat);
    }
}

/// The problems of the worksheet read column by column from the right: the
/// digits of a column, top down, make one number; `*` or `+` below the
/// numbers of a problem closes it.
pub fn parse2(input: &str) -> (r: Option<Vec<(Op, Vec<u64>)>>)
    ensures
        match spec_parse2(input.spec_bytes()) {
            Some(v) => r.is_some() && eqs_view(r.unwrap()@) == v,
            None => r.is_none(),
        },
{
    let s = input.as_bytes();
    assert(s@.subrange(0, s@.len() as int) =~= s@);
    let cols = match find_byte(s, 0, s.len(), 10) {
        Some(k) => k,
        None => {
            return None;
        },
    };
    let ls = line_spans(s, 0, s.len());
    let ghost lp = pieces(s@, ls@);
    let nl = ls.len();
    let mut l: usize = 0;
    while l < nl
        invariant
            l <= nl == ls@.len(),
            lp == pieces(s@, ls@),
            lp == crate::text::lines(input.spec_bytes()),
            s@ == input.spec_bytes(),
            find(s@, 10) == Some(cols as nat),
            spans_within(ls@, 0, s@.len() as int),
            forall|t: int| 0 <= t < l ==> #[trigger] lp[t].len() >= cols,
        decreases nl - l,
    {
        if ls[l].1 - ls[l].0 < cols {
            assert(lp[l as int].len() < cols);
            return None;
        }
        l = l + 1;
    }
    let mut eqs: Vec<(Op, Vec<u64>)> = Vec::new();
    let mut nums: Vec<u64> = Vec::new();
    let mut cur: u64 = 0;
    let mut ci: usize = 0;
    assert(eqs_view(eqs@) =~= Seq::<(Op, Seq<u64>)>::empty());
    assert(0 * nl == 0);
    if nl == 0 {
        assert(cols * 0 == 0);
        return Some(eqs);
    }
    while ci < cols
        invariant
            ci <= cols,
            nl == ls@.len(),
            lp == pieces(s@, ls@),
            lp == crate::text::lines(input.spec_bytes()),
            s@ == input.spec_bytes(),
            find(s@, 10) == Some(cols as nat),
            nl > 0,
            spans_within(ls@, 0, s@.len() as int),
            forall|t: int| 0 <= t < nl ==> #[trigger] lp[t].len() >= cols,
            read_columns(lp, cols as nat, (ci * nl) as nat) == Some(
                Reader { eqs: eqs_view(eqs@), nums: nums@, cur },
            ),
        decreases cols - ci,
    {
        let c = cols - 1 - ci;
        let mut l: usize = 0;
        while l < nl
            invariant
                ci < cols,
                c == cols - 1 - ci,
                l <= nl == ls@.len(),
                nl > 0,
                lp == pieces(s@, ls@),
                lp == crate::text::lines(input.spec_bytes()),
                s@ == input.spec_bytes(),
                find(s@, 10) == Some(cols as nat),
                spans_within(ls@, 0, s@.len() as int),
                forall|t: int| 0 <= t < nl ==> #[trigger] lp[t].len() >= cols,
                read_columns(lp, cols as nat, (ci * nl + l) as nat) == Some(
                    Reader { eqs: eqs_view(eqs@), nums: nums@, cur },
                ),
            decreases nl - l,
        {
            proof {
                lemma_position(ci as int, nl as int, l as int);
                assert(lp[l as int].len() >= cols);
                assert(ci * nl + l + 1 <= cols * nl) by (nonlinear_arith)
                    requires
                        ci < cols,
                        l < nl,
                ;
            }
            let ghost k = (ci * nl + l) as nat;
            let ghost before = Reader { eqs: eqs_view(eqs@), nums: nums@, cur };
            let (a, _) = ls[l];
            let b = s[a + c];
            assert(lp[l as int][c as int] == b);
            if 48 <= b && b <= 57 {
                match cur.checked_mul(10) {
                    Some(x) => match x.checked_add((b - 48) as u64) {
                        Some(y) => {
                            cur = y;
                        },
                        None => {
                            proof {
                                lemma_read_fails_on(lp, cols as nat, k + 1, (cols * nl) as nat);
                            }
                            return None;
                        },
                    },
                    None => {
                        proof {
                            lemma_read_fails_on(lp, cols as nat, k + 1, (cols * nl) as nat);
                        }
                        return None;
                    },
                }
            } else if b == 42 || b == 43 {
                nums.push(cur);
                cur = 0;
                let op = if b == 42 {
                    Op::Mult
                } else {
                    Op::Add
                };
                let ghost prev = eqs@;
                let done = nums;
                nums = Vec::new();
                eqs.push((op, done));
                assert(eqs_view(eqs@) =~= eqs_view(prev).push((op, done@)));
                assert(nums@ =~= Seq::<u64>::empty());
            }
            let ghost mid = Reader { eqs: eqs_view(eqs@), nums: nums@, cur };
            assert(read_byte(before, b) == Some(mid));
            if l + 1 == nl {
                if cur != 0 {
                    nums.push(cur);
                }
                cur = 0;
            }
            assert(read_columns(lp, cols as nat, k + 1) == Some(
                Reader { eqs: eqs_view(eqs@), nums: nums@, cur },
            ));
            l = l + 1;
        }
        assert(ci * nl + nl == (ci + 1) * nl) by (nonlinear_arith);
        ci = ci + 1;
    }
    Some(eqs)
}

/// Day 6: the worksheet's grand total, read two ways.
pub struct Day6 {

}

impl Day for Day6 {
    type Output = u64;

    open spec fn spec_part1(input: &str) -> Option<u64> {
        match spec_parse(input.spec_bytes()) {
            Some(e) => grand_total(e),
            None => None,
        }
    }

    open spec fn spec_part2(input: &str) -> Option<u64> {
        match spec_parse2(input.spec_bytes()) {
            Some(e) => grand_total(e),
            None => None,
        }
    }

    fn part1(input: &str) -> (r: Option<u64>) {
        match parse(input) {
            Some(eqs) => solve_and_sum(eqs),
            None => None,
        }
    }

    fn part2(input: &str) -> (r: Option<u64>) {
        match parse2(input) {
            Some(eqs) => solve_and_sum(eqs),
            None => None,
        }
    }
}

} // verus!
