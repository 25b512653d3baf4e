//! The largest rectangle with two given corners, over all pairs of points,
//! and the largest one that no edge of the closed path through the points
//! cuts into.
use crate::intmap::Coord;
use crate::text::{isize_of, line_spans, lines, parse_isize, pieces, spans_within, split, split_spans, trim, trim_span};
use crate::Day;
use vstd::prelude::*;
use vstd::string::StringSliceAdditionalSpecFns;

verus! {

/// The point that a line `x,y` (further numbers read but not used) names.
pub open spec fn point_of(line: Seq<u8>) -> Option<Coord<isize>> {
    let ps = split(trim(line), 44);
    if ps.len() >= 2 && forall|j: int| 0 <= j < ps.len() ==> (#[trigger] isize_of(ps[j])).is_some() {
        Some(Coord { x: isize_of(ps[0]).unwrap(), y: isize_of(ps[1]).unwrap() })
    } else {
        None
    }
}

/// The points of the lines, where every line names one.
pub open spec fn points_of(ls: Seq<Seq<u8>>) -> Option<Seq<Coord<isize>>>
    decreases ls.len(),
{
    if ls.len() == 0 {
        Some(Seq::empty())
    } else {
        match (points_of(ls.drop_last()), point_of(ls.last())) {
            (Some(p), Some(c)) => Some(p.push(c)),
            _ => None,
        }
    }
}

pub open spec fn spec_parse(input: Seq<u8>) -> Option<Seq<Coord<isize>>> {
    points_of(lines(trim(input)))
}

pub open spec fn abs(v: int) -> int {
    if v < 0 {
        -v
    } else {
        v
    }
}

/// How many grid cells the rectangle with opposite corners `a` and `b` covers.
pub open spec fn area(a: Coord<isize>, b: Coord<isize>) -> int {
    (abs(a.x - b.x) + 1) * (abs(a.y - b.y) + 1)
}

pub open spec fn min(a: int, b: int) -> int {
    if a <= b {
        a
    } else {
        b
    }
}

pub open spec fn max(a: int, b: int) -> int {
    if a <= b {
        b
    } else {
        a
    }
}

/// The segment `seg` cuts into the rectangle with corners `a` and `b`: a
/// horizontal segment (else vertical) whose line runs strictly inside the
/// rectangle, and which has an end strictly inside it along its own
/// direction, or spans it from side to side.
pub open spec fn blocks(seg: [Coord<isize>; 2], a: Coord<isize>, b: Coord<isize>) -> bool {
    let l = seg[0];
    let r = seg[1];
    let horz = l.y == r.y;
    let (perp_lo, perp_hi, par_lo, par_hi, shared, lmin, lmax) = if horz {
        (min(a.y as int, b.y as int), max(a.y as int, b.y as int), min(a.x as int, b.x as int), max(a.x as int, b.x as int), l.y as int, min(l.x as int, r.x as int), max(l.x as int, r.x as int))
    } else {
        (min(a.x as int, b.x as int), max(a.x as int, b.x as int), min(a.y as int, b.y as int), max(a.y as int, b.y as int), l.x as int, min(l.y as int, r.y as int), max(l.y as int, r.y as int))
    };
    &&& perp_lo < shared < perp_hi
    &&& {
        ||| par_lo < lmin < par_hi
        ||| par_lo < lmax < par_hi
        ||| (lmin <= par_lo && lmax >= par_hi)
    }
}

/// No segment cuts into the rectangle with corners `a` and `b`.
pub open spec fn valid(lines: Seq<[Coord<isize>; 2]>, a: Coord<isize>, b: Coord<isize>) -> bool {
    forall|k: int| 0 <= k < lines.len() ==> !blocks(#[trigger] lines[k], a, b)
}

/// The edges of the closed path through `vs` in order.
pub open spec fn segments(vs: Seq<Coord<isize>>) -> Seq<[Coord<isize>; 2]> {
    Seq::new(vs.len(), |i: int| [vs[i], vs[(i + 1) % (vs.len() as int)]])
}

/// Every pair of distinct positions gives a rectangle whose area fits.
pub open spec fn areas_fit(vs: Seq<Coord<isize>>) -> bool {
    forall|i: int, j: int| 0 <= i < j < vs.len() ==> #[trigger] area(vs[i], vs[j]) <= isize::MAX
}

/// The pair of positions `i`, `j` counts: always, or where `check` holds,
/// only where no segment cuts into its rectangle.
pub open spec fn counts(
    vs: Seq<Coord<isize>>,
    segs: Seq<[Coord<isize>; 2]>,
    check: bool,
    i: int,
    j: int,
) -> bool {
    !check || valid(segs, vs[i], vs[j])
}

/// `m` is the largest area over pairs of positions `i < j` that count, or 0
/// where none does.
pub open spec fn is_best(
    vs: Seq<Coord<isize>>,
    segs: Seq<[Coord<isize>; 2]>,
    check: bool,
    m: int,
) -> bool {
    &&& forall|i: int, j: int|
        0 <= i < j < vs.len() && counts(vs, segs, check, i, j) ==> #[trigger] area(vs[i], vs[j])
            <= m
    &&& (m == 0 || exists|i: int, j: int|
        0 <= i < j < vs.len() && counts(vs, segs, check, i, j) && m == #[trigger] area(
            vs[i],
            vs[j],
        ))
}

/// The first part: the largest area over all pairs, where there are two
/// points or more and every area fits.
pub open spec fn best_area(vs: Seq<Coord<isize>>) -> Option<isize> {
    if vs.len() >= 2 && areas_fit(vs) {
        Some((choose|m: int| #[trigger] is_best(vs, Seq::empty(), false, m)) as isize)
    } else {
        None
    }
}

/// The second part: the largest area over pairs whose rectangle no edge of
/// the closed path cuts into (0 where there is none), where there is a point
/// and every area fits.
pub open spec fn best_valid_area(vs: Seq<Coord<isize>>) -> Option<isize> {
    if vs.len() >= 1 && areas_fit(vs) {
        Some((choose|m: int| #[trigger] is_best(vs, segments(vs), true, m)) as isize)
    } else {
        None
    }
}

proof fn lemma_points_prefix(ls: Seq<Seq<u8>>, k: int)
    requires
        0 <= k <= ls.len(),
        points_of(ls.take(k)).is_none(),
    ensures
        points_of(ls).is_none(),
    decreases ls.len(),
{
    if k < ls.len() {
        assert(ls.drop_last().take(k) =~= ls.take(k));
        lemma_points_prefix(ls.drop_last(), k);
    } else {
        assert(ls.take(k) =~= ls);
    }
}

/// The point that the line `s[lo..hi]` names.
fn parse_point(s: &[u8], lo: usize, hi: usize) -> (r: Option<Coord<isize>>)
    requires
        lo <= hi <= s@.len(),
    ensures
        r == point_of(s@.subrange(lo as int, hi as int)),
{
    let (a2, b2) = trim_span(s, lo, hi);
    let ps = split_spans(s, a2, b2, 44);
    let ghost pp = pieces(s@, ps@);
    let mut nums: Vec<isize> = Vec::new();
    let mut j: usize = 0;
    while j < ps.len()
        invariant
            j <= ps@.len(),
            pp == pieces(s@, ps@),
            pp == split(trim(s@.subrange(lo as int, hi as int)), 44),
            spans_within(ps@, a2 as int, b2 as int),
            b2 <= s@.len(),
            nums@.len() == j,
            forall|t: int| 0 <= t < j ==> isize_of(#[trigger] pp[t]) == Some(nums@[t]),
        decreases ps@.len() - j,
    {
        let (c, d) = ps[j];
        match parse_isize(s, c, d) {
            Some(v) => {
                nums.push(v);
            },
            None => {
                assert(isize_of(pp[j as int]).is_none());
                return None;
            },
        }
        j = j + 1;
    }
    if nums.len() < 2 {
        return None;
    }
    assert(forall|t: int| 0 <= t < pp.len() ==> (#[trigger] isize_of(pp[t])).is_some());
    Some(Coord { x: nums[0], y: nums[1] })
}

/// The points of a text with one `x,y` per line, where every line names one.
pub fn parse(input: &str) -> (r: Option<Vec<Coord<isize>>>)
    ensures
        match spec_parse(input.spec_bytes()) {
            Some(v) => r.is_some() && r.unwrap()@ == v,
            None => r.is_none(),
        },
{
    let s = input.as_bytes();
    let (lo, hi) = trim_span(s, 0, s.len());
    assert(s@.subrange(0, s@.len() as int) =~= s@);
    let ls = line_spans(s, lo, hi);
    let ghost lp = pieces(s@, ls@);
    let mut out: Vec<Coord<isize>> = Vec::new();
    let mut i: usize = 0;
    while i < ls.len()
        invariant
            i <= ls@.len(),
            lp == pieces(s@, ls@),
            lp == lines(trim(s@)),
            s@ == input.spec_bytes(),
            spans_within(ls@, lo as int, hi as int),
            hi <= s@.len(),
            points_of(lp.take(i as int)) == Some(out@),
        decreases ls@.len() - i,
    {
        assert(lp.take(i + 1).drop_last() =~= lp.take(i as int));
        let (a, b) = ls[i];
        assert(lp.take(i + 1).last() == s@.subrange(a as int, b as int));
        match parse_point(s, a, b) {
            Some(c) => {
                out.push(c);
            },
            None => {
                proof {
                    assert(points_of(lp.take(i + 1)).is_none());
                    lemma_points_prefix(lp, i + 1);
                }
                return None;
            },
        }
        i = i + 1;
    }
    assert(lp.take(i as int) =~= lp);
    Some(out)
}

/// The area of the rectangle with opposite corners `pair.0` and `pair.1`,
/// where it fits in an `isize`.
pub fn rect_size(pair: (Coord<isize>, Coord<isize>)) -> (r: Option<isize>)
    ensures
        r == (if area(pair.0, pair.1) <= isize::MAX {
            Some(area(pair.0, pair.1) as isize)
        } else {
            None::<isize>
        }),
{
    let (a, b) = pair;
    let dx = (a.x as i128 - b.x as i128);
    let dy = (a.y as i128 - b.y as i128);
    let wx: u128 = (if dx < 0 { -dx } else { dx }) as u128 + 1;
    let wy: u128 = (if dy < 0 { -dy } else { dy }) as u128 + 1;
    match wx.checked_mul(wy) {
        Some(v) => if v <= isize::MAX as u128 {
            Some(v as isize)
        } else {
            None
        },
        None => None,
    }
}

fn min_i(a: isize, b: isize) -> (r: isize)
    ensures
        r == min(a as int, b as int),
{
    if a <= b {
        a
    } else {
        b
    }
}

fn max_i(a: isize, b: isize) -> (r: isize)
    ensures
        r == max(a as int, b as int),
{
    if a <= b {
        b
    } else {
        a
    }
}

/// Whether the rectangle with corners `a` and `b` is free: no segment of
/// `lines` cuts into it, as `blocks` says.
pub fn valid_rect(lines: &[[Coord<isize>; 2]], a: &Coord<isize>, b: &Coord<isize>) -> (r: bool)
    ensures
        r == valid(lines@, *a, *b),
{
    let xmin = min_i(a.x, b.x);
    let xmax = max_i(a.x, b.x);
    let ymin = min_i(a.y, b.y);
    let ymax = max_i(a.y, b.y);
    let mut k: usize = 0;
    while k < lines.len()
        invariant
            k <= lines@.len(),
            xmin == min(a.x as int, b.x as int),
            xmax == max(a.x as int, b.x as int),
            ymin == min(a.y as int, b.y as int),
            ymax == max(a.y as int, b.y as int),
            forall|t: int| 0 <= t < k ==> !blocks(#[trigger] lines@[t], *a, *b),
        decreases lines@.len() - k,
    {
        let seg = lines[k];
        let l = seg[0];
        let r = seg[1];
        let horz = l.y == r.y;
        let (perp_lo, perp_hi, par_lo, par_hi, shared, lmin, lmax) = if horz {
            (ymin, ymax, xmin, xmax, l.y, min_i(l.x, r.x), max_i(l.x, r.x))
        } else {
            (xmin, xmax, ymin, ymax, l.x, min_i(l.y, r.y), max_i(l.y, r.y))
        };
        if perp_lo < shared && shared < perp_hi {
            if (par_lo < lmin && lmin < par_hi) || (par_lo < lmax && lmax < par_hi) {
                assert(blocks(lines@[k as int], *a, *b));
                return false;
            }
            if lmin <= par_lo && lmax >= par_hi {
                assert(blocks(lines@[k as int], *a, *b));
                return false;
            }
        }
        assert(!blocks(lines@[k as int], *a, *b));
        k = k + 1;
    }
    true
}

/// Day 9: the largest rectangles between points.
pub struct Day9 {

}

impl Day for Day9 {
    type Output = isize;

    open spec fn spec_part1(input: &str) -> Option<isize> {
        match spec_parse(input.spec_bytes()) {
            Some(vs) => best_area(vs),
            None => None,
        }
    }

    open spec fn spec_part2(input: &str) -> Option<isize> {
        match spec_parse(input.spec_bytes()) {
            Some(vs) => best_valid_area(vs),
            None => None,
        }
    }

    fn part1(input: &str) -> (r: Option<isize>) {
        let vs = match parse(input) {
            Some(v) => v,
            None => {
                return None;
            },
        };
        if vs.len() < 2 {
            return None;
        }
        let none: Vec<[Coord<isize>; 2]> = Vec::new();
        assert(none@ =~= Seq::<[Coord<isize>; 2]>::empty());
        let best = match best_pair(&vs, &none, false) {
            Some(m) => m,
            None => {
                return None;
            },
        };
        proof {
            lemma_best_unique(vs@, Seq::empty(), false, best as int);
        }
        Some(best)
    }

    fn part2(input: &str) -> (r: Option<isize>) {
        let vs = match parse(input) {
            Some(v) => v,
            None => {
                return None;
            },
        };
        if vs.len() < 1 {
            return None;
        }
        let segs = closed_segments(&vs);
        let best = match best_pair(&vs, &segs, true) {
            Some(m) => m,
            None => {
                return None;
            },
        };
        proof {
            lemma_best_unique(vs@, segments(vs@), true, best as int);
        }
        Some(best)
    }
}

/// The edges of the closed path through `vs`: each point to the next, and
/// the last back to the first.
fn closed_segments(vs: &Vec<Coord<isize>>) -> (r: Vec<[Coord<isize>; 2]>)
    requires
        vs@.len() >= 1,
    ensures
        r@ == segments(vs@),
{
    let n = vs.len();
    let mut out: Vec<[Coord<isize>; 2]> = Vec::new();
    let mut i: usize = 0;
    while i < n
        invariant
            n == vs@.len(),
            i <= n,
            out@.len() == i,
            forall|t: int| 0 <= t < i ==> #[trigger] out@[t] == segments(vs@)[t],
        decreases n - i,
    {
        let next = if i + 1 < n {
            i + 1
        } else {
            0
        };
        proof {
            if i + 1 < n {
                vstd::arithmetic::div_mod::lemma_small_mod((i + 1) as nat, n as nat);
            } else {
                vstd::arithmetic::div_mod::lemma_mod_self_0(n as int);
            }
        }
        out.push([vs[i], vs[next]]);
        i = i + 1;
    }
    assert(out@ =~= segments(vs@));
    out
}

proof fn lemma_best_unique(
    vs: Seq<Coord<isize>>,
    segs: Seq<[Coord<isize>; 2]>,
    check: bool,
    m: int,
)
    requires
        is_best(vs, segs, check, m),
    ensures
        (choose|x: int| #[trigger] is_best(vs, segs, check, x)) == m,
{
    assert forall|i: int, j: int| 0 <= i < j < vs.len() implies #[trigger] area(vs[i], vs[j])
        >= 1 by {
        lemma_area_pos(vs[i], vs[j]);
    }
    let c = choose|x: int| #[trigger] is_best(vs, segs, check, x);
    assert(is_best(vs, segs, check, c));
    if c != m {
        if c == 0 {
            let (i, j) = choose|i: int, j: int|
                0 <= i < j < vs.len() && counts(vs, segs, check, i, j) && m == #[trigger] area(
                    vs[i],
                    vs[j],
                );
            assert(area(vs[i], vs[j]) <= c);
        } else if m == 0 {
            let (i, j) = choose|i: int, j: int|
                0 <= i < j < vs.len() && counts(vs, segs, check, i, j) && c == #[trigger] area(
                    vs[i],
                    vs[j],
                );
            assert(area(vs[i], vs[j]) <= m);
        } else {
            let (i, j) = choose|i: int, j: int|
                0 <= i < j < vs.len() && counts(vs, segs, check, i, j) && c == #[trigger] area(
                    vs[i],
                    vs[j],
                );
            let (i2, j2) = choose|i: int, j: int|
                0 <= i < j < vs.len() && counts(vs, segs, check, i, j) && m == #[trigger] area(
                    vs[i],
                    vs[j],
                );
            assert(area(vs[i], vs[j]) <= m);
            assert(area(vs[i2], vs[j2]) <= c);
        }
    }
}

proof fn lemma_area_pos(a: Coord<isize>, b: Coord<isize>)
    ensures
        area(a, b) >= 1,
{
    let p = abs(a.x - b.x) + 1;
    let q = abs(a.y - b.y) + 1;
    assert(p * q >= 1) by (nonlinear_arith)
        requires
            p >= 1,
            q >= 1,
    ;
}

/// The largest area over pairs of points (over those whose rectangle no
/// segment cuts into, where `check` holds), or 0 where no pair counts; none
/// where some area does not fit.
fn best_pair(vs: &Vec<Coord<isize>>, segs: &Vec<[Coord<isize>; 2]>, check: bool) -> (r: Option<
    isize,
>)
    ensures
        r.is_some() == areas_fit(vs@),
        r.is_some() ==> is_best(vs@, segs@, check, r.unwrap() as int),
{
    let n = vs.len();
    let mut best: isize = 0;
    let mut i: usize = 0;
    while i < n
        invariant
            n == vs@.len(),
            i <= n,
            best >= 0,
            forall|p: int, q: int|
                0 <= p < i && p < q < n ==> #[trigger] area(vs@[p], vs@[q]) <= isize::MAX,
            forall|p: int, q: int|
                0 <= p < i && p < q < n && counts(vs@, segs@, check, p, q) ==> #[trigger] area(
                    vs@[p],
                    vs@[q],
                ) <= best,
            best == 0 || exists|p: int, q: int|
                0 <= p < q < n && counts(vs@, segs@, check, p, q) && best == #[trigger] area(
                    vs@[p],
                    vs@[q],
                ),
        decreases n - i,
    {
        let mut j: usize = i + 1;
        while j < n
            invariant
                n == vs@.len(),
                i < n,
                i + 1 <= j <= n,
                best >= 0,
                forall|p: int, q: int|
                    (0 <= p < i && p < q < n) || (p == i && i < q < j) ==> #[trigger] area(
                        vs@[p],
                        vs@[q],
                    ) <= isize::MAX,
                forall|p: int, q: int|
                    ((0 <= p < i && p < q < n) || (p == i && i < q < j)) && counts(
                        vs@,
                        segs@,
                        check,
                        p,
                        q,
                    ) ==> #[trigger] area(vs@[p], vs@[q]) <= best,
                best == 0 || exists|p: int, q: int|
                    0 <= p < q < n && counts(vs@, segs@, check, p, q) && best == #[trigger] area(
                        vs@[p],
                        vs@[q],
                    ),
            decreases n - j,
        {
            let a = match rect_size((vs[i], vs[j])) {
                Some(a) => a,
                None => {
                    assert(!areas_fit(vs@));
                    return None;
                },
            };
            if a > best {
                let ok = if check {
                    valid_rect(segs.as_slice(), &vs[i], &vs[j])
                } else {
                    true
                };
                if ok {
                    assert(counts(vs@, segs@, check, i as int, j as int));
                    best = a;
                }
            }
            j = j + 1;
        }
        i = i + 1;
    }
    Some(best)
}

} // verus!
