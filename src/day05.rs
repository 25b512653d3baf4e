//! Ranges of fresh ingredient ids: which ids fall in one, and how many ids
//! the ranges cover once merged.
use crate::sort::{distinct, lemma_sorted_is, sort_triples, sorted};
use crate::text::{
    find, find_byte, line_spans, lines, parse_usize, pieces, spans_within, trim, trim_span,
    usize_of,
};
use crate::Day;
use vstd::prelude::*;
use vstd::string::StringSliceAdditionalSpecFns;

verus! {

/// `a` comes no later than `b` in byte-wise dictionary order, as `str`'s
/// `<=` compares.
pub open spec fn lex_le(a: Seq<u8>, b: Seq<u8>) -> bool
    decreases a.len(),
{
    if a.len() == 0 {
        true
    } else if b.len() == 0 {
        false
    } else if a[0] != b[0] {
        a[0] < b[0]
    } else {
        lex_le(a.drop_first(), b.drop_first())
    }
}

/// The range that a line `a-b` names: split at its first `-`, the side that
/// comes first as text taken as the start.
pub open spec fn range_of(line: Seq<u8>) -> Option<(usize, usize)> {
    let t = trim(line);
    match find(t, 45) {
        Some(k) => {
            let a = t.take(k as int);
            let b = t.skip(k + 1 as int);
            let (x, y) = if lex_le(a, b) {
                (a, b)
            } else {
                (b, a)
            };
            match (usize_of(x), usize_of(y)) {
                (Some(p), Some(q)) => Some((p, q)),
                _ => None,
            }
        },
        None => None,
    }
}

/// The position of the first blank line, `\n\n`, in `s`.
pub open spec fn find_blank(s: Seq<u8>) -> Option<nat>
    decreases s.len(),
{
    if s.len() < 2 {
        None
    } else if s[0] == 10 && s[1] == 10 {
        Some(0)
    } else {
        match find_blank(s.drop_first()) {
            Some(k) => Some(k + 1),
            None => None,
        }
    }
}

/// The ranges of the lines, where every line names one.
pub open spec fn ranges_of(ls: Seq<Seq<u8>>) -> Option<Seq<(usize, usize)>>
    decreases ls.len(),
{
    if ls.len() == 0 {
        Some(Seq::empty())
    } else {
        match (ranges_of(ls.drop_last()), range_of(ls.last())) {
            (Some(p), Some(c)) => Some(p.push(c)),
            _ => None,
        }
    }
}

/// The ids of the lines, where every line is one.
pub open spec fn ids_of(ls: Seq<Seq<u8>>) -> Option<Seq<usize>>
    decreases ls.len(),
{
    if ls.len() == 0 {
        Some(Seq::empty())
    } else {
        match (ids_of(ls.drop_last()), usize_of(trim(ls.last()))) {
            (Some(p), Some(c)) => Some(p.push(c)),
            _ => None,
        }
    }
}

/// The ranges in the order written and the ids of a text: ranges, a blank
/// line, ids.
pub open spec fn spec_sections(input: Seq<u8>) -> Option<(Seq<(usize, usize)>, Seq<usize>)> {
    let t = trim(input);
    match find_blank(t) {
        Some(k) => match (
            ranges_of(lines(trim(t.take(k as int)))),
            ids_of(lines(trim(t.skip(k + 2 as int)))),
        ) {
            (Some(r), Some(i)) => Some((r, i)),
            _ => None,
        },
        None => None,
    }
}

/// The ranges keyed by start, then by position.
pub open spec fn keyed(rs: Seq<(usize, usize)>) -> Seq<(u64, usize, usize)> {
    Seq::new(rs.len(), |i: int| (rs[i].0 as u64, i as usize, rs[i].1))
}

/// The ranges ordered by start; of equal starts, in the order written.
pub open spec fn by_start(rs: Seq<(usize, usize)>) -> Seq<(usize, usize)> {
    sorted(keyed(rs)).map_values(|t: (u64, usize, usize)| (t.0 as usize, t.2))
}

/// The database: the ranges ordered by start, and the ids.
pub open spec fn spec_parse(input: Seq<u8>) -> Option<(Seq<(usize, usize)>, Seq<usize>)> {
    match spec_sections(input) {
        Some((r, i)) => Some((by_start(r), i)),
        None => None,
    }
}

/// `x` lies in one of the ranges.
pub open spec fn in_any(rs: Seq<(usize, usize)>, x: usize) -> bool {
    exists|j: int| 0 <= j < rs.len() && (#[trigger] rs[j]).0 <= x <= rs[j].1
}

/// How many ids lie in one of the ranges.
pub open spec fn fresh_count(rs: Seq<(usize, usize)>, ids: Seq<usize>) -> nat
    decreases ids.len(),
{
    if ids.len() == 0 {
        0
    } else {
        fresh_count(rs, ids.drop_last()) + if in_any(rs, ids.last()) {
            1nat
        } else {
            0nat
        }
    }
}

pub open spec fn overlaps(a: (usize, usize), b: (usize, usize)) -> bool {
    a.0 <= b.1 && b.0 <= a.1
}

/// The first position from `j` on of a range in `ms` that overlaps `r`.
pub open spec fn first_overlap(ms: Seq<(usize, usize)>, r: (usize, usize), j: int) -> Option<int>
    decreases ms.len() - j,
{
    if j >= ms.len() || j < 0 {
        None
    } else if overlaps(r, ms[j]) {
        Some(j)
    } else {
        first_overlap(ms, r, j + 1)
    }
}

pub open spec fn min(a: usize, b: usize) -> usize {
    if a <= b {
        a
    } else {
        b
    }
}

pub open spec fn max(a: usize, b: usize) -> usize {
    if a <= b {
        b
    } else {
        a
    }
}

/// `r` merged into the first range of `ms` that it overlaps, else added.
pub open spec fn merge_in(ms: Seq<(usize, usize)>, r: (usize, usize)) -> Seq<(usize, usize)> {
    match first_overlap(ms, r, 0) {
        Some(j) => ms.update(j, (min(r.0, ms[j].0), max(r.1, ms[j].1))),
        None => ms.push(r),
    }
}

/// The ranges merged one by one, in order.
pub open spec fn merged(rs: Seq<(usize, usize)>) -> Seq<(usize, usize)>
    decreases rs.len(),
{
    if rs.len() == 0 {
        Seq::empty()
    } else {
        merge_in(merged(rs.drop_last()), rs.last())
    }
}

/// How many ids the ranges cover, each counted as `end - start + 1`.
pub open spec fn covered(ms: Seq<(usize, usize)>) -> int
    decreases ms.len(),
{
    if ms.len() == 0 {
        0
    } else {
        covered(ms.drop_last()) + (ms.last().1 - ms.last().0 + 1)
    }
}

/// The database of a text.
pub struct DB {
    pub fresh_ranges: Vec<(usize, usize)>,
    pub ingredients: Vec<usize>,
}

/// The range that the line `s[lo..hi]` names.
pub fn parse_range(s: &[u8], lo: usize, hi: usize) -> (r: Option<(usize, usize)>)
    requires
        lo <= hi <= s@.len(),
    ensures
        r == range_of(s@.subrange(lo as int, hi as int)),
{
    let (a, b) = trim_span(s, lo, hi);
    let ghost t = s@.subrange(a as int, b as int);
    match find_byte(s, a, b, 45) {
        Some(k) => {
            assert(find(t, 45) == Some((k - a) as nat));
            assert(t.take(k - a) =~= s@.subrange(a as int, k as int));
            assert(t.skip(k - a + 1) =~= s@.subrange(k + 1, b as int));
            let le = lex_le_exec(s, a, k, k + 1, b);
            let (x, y) = if le {
                (parse_usize(s, a, k), parse_usize(s, k + 1, b))
            } else {
                (parse_usize(s, k + 1, b), parse_usize(s, a, k))
            };
            match (x, y) {
                (Some(p), Some(q)) => Some((p, q)),
                _ => None,
            }
        },
        None => None,
    }
}

/// Whether `s[a0..a1]` comes no later than `s[b0..b1]` in dictionary order.
fn lex_le_exec(s: &[u8], a0: usize, a1: usize, b0: usize, b1: usize) -> (r: bool)
    requires
        a0 <= a1 <= s@.len(),
        b0 <= b1 <= s@.len(),
    ensures
        r == lex_le(s@.subrange(a0 as int, a1 as int), s@.subrange(b0 as int, b1 as int)),
    decreases a1 - a0,
{
    let ghost x = s@.subrange(a0 as int, a1 as int);
    let ghost y = s@.subrange(b0 as int, b1 as int);
    if a0 == a1 {
        true
    } else if b0 == b1 {
        false
    } else if s[a0] != s[b0] {
        s[a0] < s[b0]
    } else {
        assert(x.drop_first() =~= s@.subrange(a0 + 1, a1 as int));
        assert(y.drop_first() =~= s@.subrange(b0 + 1, b1 as int));
        lex_le_exec(s, a0 + 1, a1, b0 + 1, b1)
    }
}

proof fn lemma_find_blank(s: Seq<u8>, i: int)
    requires
        0 <= i,
        i + 1 <= s.len(),
        forall|j: int| 0 <= j < i ==> !(#[trigger] s[j] == 10 && s[j + 1] == 10),
    ensures
        i + 1 < s.len() && s[i] == 10 && s[i + 1] == 10 ==> find_blank(s) == Some(i as nat),
        i + 1 == s.len() ==> find_blank(s) == None::<nat>,
    decreases i,
{
    if i > 0 {
        lemma_find_blank(s.drop_first(), i - 1);
    }
}

proof fn lemma_ranges_prefix(ls: Seq<Seq<u8>>, k: int)
    requires
        0 <= k <= ls.len(),
        ranges_of(ls.take(k)).is_none(),
    ensures
        ranges_of(ls).is_none(),
    decreases ls.len(),
{
    if k < ls.len() {
        assert(ls.drop_last().take(k) =~= ls.take(k));
        lemma_ranges_prefix(ls.drop_last(), k);
    } else {
        assert(ls.take(k) =~= ls);
    }
}

proof fn lemma_ids_prefix(ls: Seq<Seq<u8>>, k: int)
    requires
        0 <= k <= ls.len(),
        ids_of(ls.take(k)).is_none(),
    ensures
        ids_of(ls).is_none(),
    decreases ls.len(),
{
    if k < ls.len() {
        assert(ls.drop_last().take(k) =~= ls.take(k));
        lemma_ids_prefix(ls.drop_last(), k);
    } else {
        assert(ls.take(k) =~= ls);
    }
}

/// The ranges of the lines of `s[lo..hi]` (trimmed).
fn parse_ranges(s: &[u8], lo: usize, hi: usize) -> (r: Option<Vec<(usize, usize)>>)
    requires
        lo <= hi <= s@.len(),
    ensures
        match ranges_of(lines(trim(s@.subrange(lo as int, hi as int)))) {
            Some(v) => r.is_some() && r.unwrap()@ == v,
            None => r.is_none(),
        },
{
    let (a, b) = trim_span(s, lo, hi);
    let ls = line_spans(s, a, b);
    let ghost lp = pieces(s@, ls@);
    let mut out: Vec<(usize, usize)> = Vec::new();
    let mut i: usize = 0;
    while i < ls.len()
        invariant
            i <= ls@.len(),
            lp == pieces(s@, ls@),
            lp == lines(trim(s@.subrange(lo as int, hi as int))),
            spans_within(ls@, a as int, b as int),
            b <= s@.len(),
            ranges_of(lp.take(i as int)) == Some(out@),
        decreases ls@.len() - i,
    {
        assert(lp.take(i + 1).drop_last() =~= lp.take(i as int));
        let (c, d) = ls[i];
        assert(lp.take(i + 1).last() == s@.subrange(c as int, d as int));
        match parse_range(s, c, d) {
            Some(x) => {
                out.push(x);
            },
            None => {
                proof {
                    assert(ranges_of(lp.take(i + 1)).is_none());
                    lemma_ranges_prefix(lp, i + 1);
                }
                return None;
            },
        }
        i = i + 1;
    }
    assert(lp.take(i as int) =~= lp);
    Some(out)
}

/// The ids of the lines of `s[lo..hi]` (trimmed).
fn parse_ids(s: &[u8], lo: usize, hi: usize) -> (r: Option<Vec<usize>>)
    requires
        lo <= hi <= s@.len(),
    ensures
        match ids_of(lines(trim(s@.subrange(lo as int, hi as int)))) {
            Some(v) => r.is_some() && r.unwrap()@ == v,
            None => r.is_none(),
        },
{
    let (a, b) = trim_span(s, lo, hi);
    let ls = line_spans(s, a, b);
    let ghost lp = pieces(s@, ls@);
    let mut out: Vec<usize> = Vec::new();
    let mut i: usize = 0;
    while i < ls.len()
        invariant
            i <= ls@.len(),
            lp == pieces(s@, ls@),
            lp == lines(trim(s@.subrange(lo as int, hi as int))),
            spans_within(ls@, a as int, b as int),
            b <= s@.len(),
            ids_of(lp.take(i as int)) == Some(out@),
        decreases ls@.len() - i,
    {
        assert(lp.take(i + 1).drop_last() =~= lp.take(i as int));
        let (c, d) = ls[i];
        assert(lp.take(i + 1).last() == s@.subrange(c as int, d as int));
        let (c2, d2) = trim_span(s, c, d);
        match parse_usize(s, c2, d2) {
            Some(x) => {
                out.push(x);
            },
            None => {
                proof {
                    assert(ids_of(lp.take(i + 1)).is_none());
                    lemma_ids_prefix(lp, i + 1);
                }
                return None;
            },
        }
        i = i + 1;
    }
    assert(lp.take(i as int) =~= lp);
    Some(out)
}

/// The ranges ordered by start, of equal starts in the order given.
fn sort_by_start(rs: Vec<(usize, usize)>) -> (r: Vec<(usize, usize)>)
    ensures
        r@ == by_start(rs@),
{
    let n = rs.len();
    let mut keys: Vec<(u64, usize, usize)> = Vec::new();
    let mut i: usize = 0;
    while i < n
        invariant
            n == rs@.len(),
            i <= n,
            keys@ =~= keyed(rs@).take(i as int),
        decreases n - i,
    {
        keys.push((rs[i].0 as u64, i, rs[i].1));
        i = i + 1;
    }
    assert(keys@ =~= keyed(rs@));
    let ghost before = keys@;
    assert(distinct(keys@));
    sort_triples(&mut keys);
    proof {
        lemma_sorted_is(keys@, before);
    }
    let mut out: Vec<(usize, usize)> = Vec::new();
    let mut j: usize = 0;
    while j < keys.len()
        invariant
            j <= keys@.len(),
            keys@ == sorted(keyed(rs@)),
            out@ =~= keys@.take(j as int).map_values(|t: (u64, usize, usize)| (t.0 as usize, t.2)),
        decreases keys@.len() - j,
    {
        let t = keys[j];
        out.push((t.0 as usize, t.2));
        j = j + 1;
    }
    assert(keys@.take(j as int) =~= keys@);
    out
}

/// The database of a text: ranges, a blank line, then ids, one per line.
pub fn parse(input: &str) -> (r: Option<DB>)
    ensures
        match spec_parse(input.spec_bytes()) {
            Some((rs, ids)) => r.is_some() && r.unwrap().fresh_ranges@ == rs
                && r.unwrap().ingredients@ == ids,
            None => r.is_none(),
        },
{
    let s = input.as_bytes();
    let (lo, hi) = trim_span(s, 0, s.len());
    assert(s@.subrange(0, s@.len() as int) =~= s@);
    let ghost t = s@.subrange(lo as int, hi as int);
    if hi - lo < 2 {
        return None;
    }
    let mut i = lo;
    while i + 1 < hi
        invariant
            lo <= i,
            i + 1 <= hi <= s@.len(),
            t == s@.subrange(lo as int, hi as int),
            forall|j: int| 0 <= j < i - lo ==> !(#[trigger] t[j] == 10 && t[j + 1] == 10),
        ensures
            lo <= i,
            i + 1 <= hi,
            forall|j: int| 0 <= j < i - lo ==> !(#[trigger] t[j] == 10 && t[j + 1] == 10),
            i + 1 == hi || (s@[i as int] == 10 && s@[i + 1] == 10),
        decreases hi - i,
    {
        assert(t[i - lo] == s@[i as int] && t[i - lo + 1] == s@[i + 1]);
        if s[i] == 10 && s[i + 1] == 10 {
            break;
        }
        i = i + 1;
    }
    proof {
        lemma_find_blank(t, i - lo);
    }
    if i + 1 >= hi {
        return None;
    }
    assert(t[i - lo] == s@[i as int] && t[i - lo + 1] == s@[i + 1]);
    if !(s[i] == 10 && s[i + 1] == 10) {
        return None;
    }
    assert(t.take(i - lo) =~= s@.subrange(lo as int, i as int));
    assert(t.skip(i - lo + 2) =~= s@.subrange(i + 2, hi as int));
    let fresh = parse_ranges(s, lo, i);
    let ids = parse_ids(s, i + 2, hi);
    match (fresh, ids) {
        (Some(f), Some(d)) => Some(DB { fresh_ranges: sort_by_start(f), ingredients: d }),
        _ => None,
    }
}

/// Whether `x` lies in one of the ranges.
fn in_any_exec(rs: &Vec<(usize, usize)>, x: usize) -> (r: bool)
    ensures
        r == in_any(rs@, x),
{
    let mut j: usize = 0;
    while j < rs.len()
        invariant
            j <= rs@.len(),
            forall|p: int| 0 <= p < j ==> !((#[trigger] rs@[p]).0 <= x <= rs@[p].1),
        decreases rs@.len() - j,
    {
        if rs[j].0 <= x && x <= rs[j].1 {
            return true;
        }
        j = j + 1;
    }
    false
}

/// `r` merged into the first range of `ms` that it overlaps, else added.
fn merge_in_exec(ms: &mut Vec<(usize, usize)>, r: (usize, usize))
    ensures
        final(ms)@ == merge_in(old(ms)@, r),
{
    let mut j: usize = 0;
    while j < ms.len()
        invariant
            j <= ms@.len(),
            ms@ == old(ms)@,
            first_overlap(ms@, r, 0) == first_overlap(ms@, r, j as int),
        decreases ms@.len() - j,
    {
        let e = ms[j];
        if r.0 <= e.1 && e.0 <= r.1 {
            let lo = if r.0 <= e.0 {
                r.0
            } else {
                e.0
            };
            let hi = if r.1 <= e.1 {
                e.1
            } else {
                r.1
            };
            ms.set(j, (lo, hi));
            return;
        }
        j = j + 1;
    }
    ms.push(r);
}

/// Day 5: fresh ingredients.
pub struct Day5 {

}

impl Day for Day5 {
    type Output = usize;

    /// How many ids lie in one of the ranges.
    open spec fn spec_part1(input: &str) -> Option<usize> {
        match spec_parse(input.spec_bytes()) {
            Some((rs, ids)) => Some(fresh_count(rs, ids) as usize),
            None => None,
        }
    }

    /// How many ids the ranges cover once merged in order of start, where
    /// no merged range ends before it starts and the count fits.
    open spec fn spec_part2(input: &str) -> Option<usize> {
        match spec_parse(input.spec_bytes()) {
            Some((rs, _)) => {
                let ms = merged(rs);
                if (forall|j: int| 0 <= j < ms.len() ==> #[trigger] ms[j].0 <= ms[j].1) && covered(
                    ms,
                ) <= usize::MAX {
                    Some(covered(ms) as usize)
                } else {
                    None
                }
            },
            None => None,
        }
    }

    fn part1(input: &str) -> (r: Option<usize>) {
        let db = match parse(input) {
            Some(db) => db,
            None => {
                return None;
            },
        };
        let mut count: usize = 0;
        let mut i: usize = 0;
        while i < db.ingredients.len()
            invariant
                i <= db.ingredients@.len(),
                count == fresh_count(db.fresh_ranges@, db.ingredients@.take(i as int)),
                count <= i,
            decreases db.ingredients@.len() - i,
        {
            assert(db.ingredients@.take(i + 1).drop_last() =~= db.ingredients@.take(i as int));
            if in_any_exec(&db.fresh_ranges, db.ingredients[i]) {
                count = count + 1;
            }
            i = i + 1;
        }
        assert(db.ingredients@.take(i as int) =~= db.ingredients@);
        Some(count)
    }

    fn part2(input: &str) -> (r: Option<usize>) {
        let db = match parse(input) {
            Some(db) => db,
            None => {
                return None;
            },
        };
        let rs = db.fresh_ranges;
        let ghost expected = spec_parse(input.spec_bytes()).unwrap().0;
        let mut ms: Vec<(usize, usize)> = Vec::new();
        let mut i: usize = 0;
        while i < rs.len()
            invariant
                i <= rs@.len(),
                ms@ == merged(rs@.take(i as int)),
            decreases rs@.len() - i,
        {
            assert(rs@.take(i + 1).drop_last() =~= rs@.take(i as int));
            merge_in_exec(&mut ms, rs[i]);
            i = i + 1;
        }
        assert(rs@.take(i as int) =~= rs@);
        let mut total: usize = 0;
        let mut j: usize = 0;
        while j < ms.len()
            invariant
                j <= ms@.len(),
                ms@ == merged(expected),
                spec_parse(input.spec_bytes()).is_some(),
                expected == spec_parse(input.spec_bytes()).unwrap().0,
                total == covered(ms@.take(j as int)),
                forall|p: int| 0 <= p < j ==> #[trigger] ms@[p].0 <= ms@[p].1,
            decreases ms@.len() - j,
        {
            assert(ms@.take(j + 1).drop_last() =~= ms@.take(j as int));
            let (a, b) = ms[j];
            if b < a {
                assert(!(ms@[j as int].0 <= ms@[j as int].1));
                return None;
            }
            let w = b - a;
            let step = match w.checked_add(1) {
                Some(x) => x,
                None => {
                    proof {
                        lemma_covered_prefix(ms@, j + 1);
                    }
                    return None;
                },
            };
            total = match total.checked_add(step) {
                Some(x) => x,
                None => {
                    proof {
                        lemma_covered_prefix(ms@, j + 1);
                    }
                    return None;
                },
            };
            j = j + 1;
        }
        assert(ms@.take(j as int) =~= ms@);
        Some(total)
    }
}

/// Where every range ends no earlier than it starts, the count over a prefix
/// is no more than over all.
proof fn lemma_covered_prefix(ms: Seq<(usize, usize)>, k: int)
    requires
        0 <= k <= ms.len(),
    ensures
        (forall|j: int| 0 <= j < ms.len() ==> #[trigger] ms[j].0 <= ms[j].1) ==> covered(
            ms.take(k),
        ) <= covered(ms),
    decreases ms.len(),
{
    if k < ms.len() {
        assert(ms.drop_last().take(k) =~= ms.take(k));
        lemma_covered_prefix(ms.drop_last(), k);
        if forall|j: int| 0 <= j < ms.len() ==> #[trigger] ms[j].0 <= ms[j].1 {
            assert(ms.last().0 <= ms.last().1);
            assert forall|j: int| 0 <= j < ms.drop_last().len() implies #[trigger] ms.drop_last()[j].0
                <= ms.drop_last()[j].1 by {
                assert(ms.drop_last()[j] == ms[j]);
            }
        }
    } else {
        assert(ms.take(k) =~= ms);
    }
}

} // verus!
