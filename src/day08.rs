//! Junction boxes in space joined into circuits, closest pairs first.
use crate::sort::{distinct, increasing, lemma_increasing_unique, sort_triples};
use crate::text::{isize_of, line_spans, lines, parse_isize, pieces, spans_within, split, split_spans, trim, trim_span};
use crate::Day;
use vstd::prelude::*;
use vstd::string::StringSliceAdditionalSpecFns;

verus! {

/// A point in space.
#[derive(Clone, Copy, PartialEq, Eq, Debug, Structural)]
pub struct V3 {
    pub x: isize,
    pub y: isize,
    pub z: isize,
}

impl From<(isize, isize, isize)> for V3 {
    fn from(t: (isize, isize, isize)) -> (r: V3) {
        V3 { x: t.0, y: t.1, z: t.2 }
    }
}

impl vstd::std_specs::convert::FromSpecImpl<(isize, isize, isize)> for V3 {
    open spec fn obeys_from_spec() -> bool {
        true
    }

    open spec fn from_spec(t: (isize, isize, isize)) -> Self {
        V3 { x: t.0, y: t.1, z: t.2 }
    }
}

/// The squared distance between two points.
pub open spec fn dist(a: V3, b: V3) -> int {
    (a.x - b.x) * (a.x - b.x) + (a.y - b.y) * (a.y - b.y) + (a.z - b.z) * (a.z - b.z)
}

impl V3 {
    /// The squared distance to `other`, where it fits in an `isize`.
    pub fn dist_sq(&self, other: &Self) -> (r: Option<isize>)
        ensures
            r == (if dist(*self, *other) <= isize::MAX {
                Some(dist(*self, *other) as isize)
            } else {
                None::<isize>
            }),
    {
        let dx = self.x as i128 - other.x as i128;
        let dy = self.y as i128 - other.y as i128;
        let dz = self.z as i128 - other.z as i128;
        proof {
            assert(dx * dx >= 0 && dy * dy >= 0 && dz * dz >= 0) by (nonlinear_arith);
        }
        let sx = match dx.checked_mul(dx) {
            Some(v) => v,
            None => {
                return None;
            },
        };
        let sy = match dy.checked_mul(dy) {
            Some(v) => v,
            None => {
                return None;
            },
        };
        let sz = match dz.checked_mul(dz) {
            Some(v) => v,
            None => {
                return None;
            },
        };
        if sx > isize::MAX as i128 || sy > isize::MAX as i128 || sz > isize::MAX as i128 {
            return None;
        }
        let total = sx + sy + sz;
        if total > isize::MAX as i128 {
            return None;
        }
        Some(total as isize)
    }
}

/// The point that a line `x,y,z` (further numbers read but not used) names.
pub open spec fn point_of(line: Seq<u8>) -> Option<V3> {
    let ps = split(trim(line), 44);
    if ps.len() >= 3 && forall|j: int| 0 <= j < ps.len() ==> (#[trigger] isize_of(ps[j])).is_some() {
        Some(V3 { x: isize_of(ps[0]).unwrap(), y: isize_of(ps[1]).unwrap(), z: isize_of(ps[2]).unwrap() })
    } else {
        None
    }
}

/// The points of the lines, where every line names one.
pub open spec fn points_of(ls: Seq<Seq<u8>>) -> Option<Seq<V3>>
    decreases ls.len(),
{
    if ls.len() == 0 {
        Some(Seq::empty())
    } else {
        match (points_of(ls.drop_last()), point_of(ls.last())) {
            (Some(p), Some(c)) => Some(p.push(c)),
            _ => None,
        }
    }
}

pub open spec fn spec_parse(input: Seq<u8>) -> Option<Seq<V3>> {
    points_of(lines(trim(input)))
}

/// Every squared distance between two of the points fits in an `isize`.
pub open spec fn dists_fit(vs: Seq<V3>) -> bool {
    forall|i: int, j: int| 0 <= i < j < vs.len() ==> #[trigger] dist(vs[i], vs[j]) <= isize::MAX
}

/// `t` is a pair `(distance, i, j)` of two different points, `i < j`.
pub open spec fn is_pair(vs: Seq<V3>, t: (u64, usize, usize)) -> bool {
    &&& t.1 < t.2 < vs.len()
    &&& dist(vs[t.1 as int], vs[t.2 as int]) > 0
    &&& t.0 == dist(vs[t.1 as int], vs[t.2 as int])
}

/// The pairs of different points, closest first; of equal distances, in
/// the order of their positions.
pub open spec fn sorted_pairs(vs: Seq<V3>) -> Seq<(u64, usize, usize)> {
    choose|s: Seq<(u64, usize, usize)>|
        increasing(s) && forall|t: (u64, usize, usize)| s.contains(t) <==> is_pair(vs, t)
}

/// The first position of a point equal to `vs[i]`: one name for each point.
pub open spec fn canon_from(vs: Seq<V3>, v: V3, j: int) -> int
    decreases vs.len() - j,
{
    if j >= vs.len() || j < 0 {
        j
    } else if vs[j] == v {
        j
    } else {
        canon_from(vs, v, j + 1)
    }
}

pub open spec fn canon(vs: Seq<V3>, i: int) -> usize {
    canon_from(vs, vs[i], 0) as usize
}

/// The first circuit that holds `p`.
pub open spec fn find_in(cs: Seq<Seq<usize>>, p: usize, k: int) -> Option<int>
    decreases cs.len() - k,
{
    if k >= cs.len() || k < 0 {
        None
    } else if cs[k].contains(p) {
        Some(k)
    } else {
        find_in(cs, p, k + 1)
    }
}

/// The circuits after joining `a` and `b`: two circuits become one; a point
/// in no circuit joins the other's; two such points start a new circuit.
pub open spec fn join(cs: Seq<Seq<usize>>, a: usize, b: usize) -> Seq<Seq<usize>> {
    match (find_in(cs, a, 0), find_in(cs, b, 0)) {
        (Some(x), Some(y)) => if x != y {
            cs.update(x, cs[x] + cs[y]).remove(y)
        } else {
            cs
        },
        (Some(x), None) => cs.update(x, cs[x].push(b)),
        (None, Some(y)) => cs.update(y, cs[y].push(a)),
        (None, None) => cs.push(seq![a, b]),
    }
}

/// How the joining ends: with all points in one circuit (and the product of
/// the `x` of the last pair joined), or with the circuits left.
pub enum Outcome {
    Connected(int),
    Circuits(Seq<Seq<usize>>),
}

/// Joining the pairs from position `k` on, stopping before position
/// `rounds`.
pub open spec fn run(vs: Seq<V3>, ps: Seq<(u64, usize, usize)>, cs: Seq<Seq<usize>>, k: int, rounds: int) -> Outcome
    decreases ps.len() - k,
{
    if k >= ps.len() || k < 0 || rounds == k {
        Outcome::Circuits(cs)
    } else {
        let t = ps[k];
        let cs2 = join(cs, canon(vs, t.1 as int), canon(vs, t.2 as int));
        if cs2.len() == 1 && cs2[0].len() == vs.len() {
            Outcome::Connected(vs[t.1 as int].x * vs[t.2 as int].x)
        } else {
            run(vs, ps, cs2, k + 1, rounds)
        }
    }
}

/// The position of the first largest of `s`.
pub open spec fn max_pos(s: Seq<int>) -> int
    decreases s.len(),
{
    if s.len() <= 1 {
        0
    } else {
        let j = max_pos(s.drop_last());
        if s.last() > s[j] {
            s.len() - 1
        } else {
            j
        }
    }
}

/// The product of the negated `k` largest sizes (fewer where there are
/// fewer), taking the largest first; none where a partial product leaves the
/// range of `isize`.
pub open spec fn neg_top_product(sizes: Seq<int>, k: nat, acc: int) -> Option<int>
    decreases k,
{
    if k == 0 || sizes.len() == 0 {
        Some(acc)
    } else {
        let m = max_pos(sizes);
        let p = acc * -sizes[m];
        if isize::MIN <= p <= isize::MAX {
            neg_top_product(sizes.remove(m), (k - 1) as nat, p)
        } else {
            None
        }
    }
}

/// The answer for a number of rounds (none: all pairs): the product of the
/// `x` coordinates of the pair that joins everything into one circuit, or
/// else the product of the three largest circuit sizes, as `-(product of
/// their negations)`.
pub open spec fn answer(vs: Seq<V3>, rounds: int) -> Option<isize> {
    if !dists_fit(vs) {
        None
    } else {
        match run(vs, sorted_pairs(vs), Seq::empty(), 0, rounds) {
            Outcome::Connected(p) => if isize::MIN <= p <= isize::MAX {
                Some(p as isize)
            } else {
                None
            },
            Outcome::Circuits(cs) => match neg_top_product(
                cs.map_values(|c: Seq<usize>| c.len() as int),
                3,
                1,
            ) {
                Some(p) => if -p <= isize::MAX {
                    Some((-p) as isize)
                } else {
                    None
                },
                None => None,
            },
        }
    }
}

proof fn lemma_dist_nonneg(a: V3, b: V3)
    ensures
        dist(a, b) >= 0,
{
    let dx = a.x - b.x;
    let dy = a.y - b.y;
    let dz = a.z - b.z;
    assert(dx * dx + dy * dy + dz * dz >= 0) by (nonlinear_arith);
}

proof fn lemma_points_prefix(ls: Seq<Seq<u8>>, k: int)
    requires
        0 <= k <= ls.len(),
        points_of(ls.take(k)).is_none(),
    ensures
        points_of(ls).is_none(),
    decreases ls.len(),
{
    if k < ls.len() {
        assert(ls.drop_last().take(k) =~= ls.take(k));
        lemma_points_prefix(ls.drop_last(), k);
    } else {
        assert(ls.take(k) =~= ls);
    }
}

/// The point that the line `s[lo..hi]` names.
fn parse_point(s: &[u8], lo: usize, hi: usize) -> (r: Option<V3>)
    requires
        lo <= hi <= s@.len(),
    ensures
        r == point_of(s@.subrange(lo as int, hi as int)),
{
    let (a2, b2) = trim_span(s, lo, hi);
    let ps = split_spans(s, a2, b2, 44);
    let ghost pp = pieces(s@, ps@);
    let mut nums: Vec<isize> = Vec::new();
    let mut j: usize = 0;
    while j < ps.len()
        invariant
            j <= ps@.len(),
            pp == pieces(s@, ps@),
            pp == split(trim(s@.subrange(lo as int, hi as int)), 44),
            spans_within(ps@, a2 as int, b2 as int),
            b2 <= s@.len(),
            nums@.len() == j,
            forall|t: int| 0 <= t < j ==> isize_of(#[trigger] pp[t]) == Some(nums@[t]),
        decreases ps@.len() - j,
    {
        let (c, d) = ps[j];
        match parse_isize(s, c, d) {
            Some(v) => {
                nums.push(v);
            },
            None => {
                assert(isize_of(pp[j as int]).is_none());
                return None;
            },
        }
        j = j + 1;
    }
    if nums.len() < 3 {
        return None;
    }
    assert(forall|t: int| 0 <= t < pp.len() ==> (#[trigger] isize_of(pp[t])).is_some());
    Some(V3 { x: nums[0], y: nums[1], z: nums[2] })
}

/// The points of a text with one `x,y,z` per line, where every line names
/// one.
pub fn parse(input: &str) -> (r: Option<Vec<V3>>)
    ensures
        match spec_parse(input.spec_bytes()) {
            Some(v) => r.is_some() && r.unwrap()@ == v,
            None => r.is_none(),
        },
{
    let s = input.as_bytes();
    let (lo, hi) = trim_span(s, 0, s.len());
    assert(s@.subrange(0, s@.len() as int) =~= s@);
    let ls = line_spans(s, lo, hi);
    let ghost lp = pieces(s@, ls@);
    let mut out: Vec<V3> = Vec::new();
    let mut i: usize = 0;
    while i < ls.len()
        invariant
            i <= ls@.len(),
            lp == pieces(s@, ls@),
            lp == lines(trim(s@)),
            s@ == input.spec_bytes(),
            spans_within(ls@, lo as int, hi as int),
            hi <= s@.len(),
            points_of(lp.take(i as int)) == Some(out@),
        decreases ls@.len() - i,
    {
        assert(lp.take(i + 1).drop_last() =~= lp.take(i as int));
        let (a, b) = ls[i];
        assert(lp.take(i + 1).last() == s@.subrange(a as int, b as int));
        match parse_point(s, a, b) {
            Some(c) => {
                out.push(c);
            },
            None => {
                proof {
                    assert(points_of(lp.take(i + 1)).is_none());
                    lemma_points_prefix(lp, i + 1);
                }
                return None;
            },
        }
        i = i + 1;
    }
    assert(lp.take(i as int) =~= lp);
    Some(out)
}

/// `(a, b)` comes before `(c, d)`.
pub open spec fn pos_lt(p: (u64, usize, usize), q: (u64, usize, usize)) -> bool {
    p.1 < q.1 || (p.1 == q.1 && p.2 < q.2)
}

/// The pairs of different points as `(distance, i, j)`, where every squared
/// distance fits.
fn pair_list(vs: &Vec<V3>) -> (r: Option<Vec<(u64, usize, usize)>>)
    ensures
        r.is_some() == dists_fit(vs@),
        r.is_some() ==> distinct(r.unwrap()@) && forall|t: (u64, usize, usize)|
            r.unwrap()@.contains(t) <==> is_pair(vs@, t),
{
    let n = vs.len();
    let mut out: Vec<(u64, usize, usize)> = Vec::new();
    let mut i: usize = 0;
    while i < n
        invariant
            n == vs@.len(),
            i <= n,
            forall|p: int, q: int| 0 <= p < q < out@.len() ==> pos_lt(#[trigger] out@[p], #[trigger] out@[q]),
            forall|p: int| 0 <= p < out@.len() ==> (#[trigger] out@[p]).1 < i,
            forall|a: int, b: int| 0 <= a < i && a < b < n ==> #[trigger] dist(vs@[a], vs@[b]) <= isize::MAX,
            forall|t: (u64, usize, usize)| out@.contains(t) <==> (is_pair(vs@, t) && t.1 < i),
        decreases n - i,
    {
        let mut j: usize = i + 1;
        while j < n
            invariant
                n == vs@.len(),
                i < n,
                i + 1 <= j <= n,
                forall|p: int, q: int| 0 <= p < q < out@.len() ==> pos_lt(#[trigger] out@[p], #[trigger] out@[q]),
                forall|p: int| 0 <= p < out@.len() ==> (#[trigger] out@[p]).1 < i || (out@[p].1 == i && out@[p].2 < j),
                forall|a: int, b: int|
                    (0 <= a < i && a < b < n) || (a == i && i < b < j) ==> #[trigger] dist(vs@[a], vs@[b]) <= isize::MAX,
                forall|t: (u64, usize, usize)|
                    out@.contains(t) <==> (is_pair(vs@, t) && (t.1 < i || (t.1 == i && t.2 < j))),
            decreases n - j,
        {
            let d = match vs[i].dist_sq(&vs[j]) {
                Some(d) => d,
                None => {
                    assert(!dists_fit(vs@)) by {
                        assert(dist(vs@[i as int], vs@[j as int]) > isize::MAX);
                    }
                    return None;
                },
            };
            let ghost prev = out@;
            proof {
                lemma_dist_nonneg(vs@[i as int], vs@[j as int]);
            }
            if d > 0 {
                let new = (d as u64, i, j);
                out.push(new);
                assert(out@[prev.len() as int] == new);
                assert(is_pair(vs@, new));
                assert forall|t: (u64, usize, usize)| out@.contains(t) implies (is_pair(vs@, t) && (t.1 < i || (t.1 == i && t.2 < j + 1))) by {
                    if t != new {
                        let p = choose|p: int| 0 <= p < out@.len() && out@[p] == t;
                        assert(p < prev.len());
                        assert(prev[p] == t);
                        assert(prev.contains(t));
                    }
                }
                assert forall|t: (u64, usize, usize)| (is_pair(vs@, t) && (t.1 < i || (t.1 == i && t.2 < j + 1))) implies out@.contains(t) by {
                    if t.1 == i && t.2 == j {
                        assert(t == new);
                        assert(out@[prev.len() as int] == t);
                    } else {
                        assert(prev.contains(t));
                        let p = choose|p: int| 0 <= p < prev.len() && prev[p] == t;
                        assert(out@[p] == t);
                    }
                }
            } else {
                assert forall|t: (u64, usize, usize)| out@.contains(t) <==> (is_pair(vs@, t) && (t.1 < i || (t.1 == i && t.2 < j + 1))) by {
                    if is_pair(vs@, t) && t.1 == i && t.2 == j {
                        assert(dist(vs@[i as int], vs@[j as int]) > 0);
                    }
                }
            }
            j = j + 1;
        }
        i = i + 1;
    }
    proof {
        assert forall|p: int, q: int| 0 <= p < q < out@.len() implies #[trigger] out@[p] != #[trigger] out@[q] by {
            assert(pos_lt(out@[p], out@[q]));
        }
        assert forall|t: (u64, usize, usize)| out@.contains(t) <==> is_pair(vs@, t) by {
            if is_pair(vs@, t) {
                assert(t.1 < n);
            }
        }
    }
    Some(out)
}

/// The first position of a point equal to `vs[i]`.
fn canon_exec(vs: &Vec<V3>, i: usize) -> (r: usize)
    requires
        i < vs@.len(),
    ensures
        r == canon(vs@, i as int),
        r <= i,
{
    let v = vs[i];
    let mut j: usize = 0;
    while j < i
        invariant
            j <= i < vs@.len(),
            v == vs@[i as int],
            canon_from(vs@, v, 0) == canon_from(vs@, v, j as int),
        decreases i - j,
    {
        if vs[j] == v {
            return j;
        }
        j = j + 1;
    }
    j
}

/// The circuits as sequences.
pub open spec fn circ_view(cs: Seq<Vec<usize>>) -> Seq<Seq<usize>> {
    cs.map_values(|c: Vec<usize>| c@)
}

/// The first circuit that holds `p`.
fn find_exec(cs: &Vec<Vec<usize>>, p: usize) -> (r: Option<usize>)
    ensures
        match find_in(circ_view(cs@), p, 0) {
            Some(k) => r.is_some() && r.unwrap() == k && 0 <= k < cs@.len(),
            None => r.is_none(),
        },
{
    let ghost cv = circ_view(cs@);
    let mut k: usize = 0;
    while k < cs.len()
        invariant
            k <= cs@.len(),
            cv == circ_view(cs@),
            find_in(cv, p, 0) == find_in(cv, p, k as int),
        decreases cs@.len() - k,
    {
        let c = &cs[k];
        let mut j: usize = 0;
        let mut found = false;
        while j < c.len()
            invariant
                j <= c@.len(),
                !found ==> forall|q: int| 0 <= q < j ==> c@[q] != p,
                found ==> c@.contains(p),
            decreases c@.len() - j,
        {
            if c[j] == p {
                found = true;
            }
            j = j + 1;
        }
        assert(cv[k as int] == c@);
        if found {
            return Some(k);
        }
        assert(!c@.contains(p));
        k = k + 1;
    }
    None
}

/// Joins `a` and `b` in the circuits.
fn join_exec(cs: &mut Vec<Vec<usize>>, a: usize, b: usize)
    ensures
        circ_view(final(cs)@) == join(circ_view(old(cs)@), a, b),
{
    let ghost c0 = circ_view(cs@);
    let fa = find_exec(&*cs, a);
    let fb = find_exec(&*cs, b);

    match (fa, fb) {
        (Some(x), Some(y)) => {
            if x != y {
                let mut cx = cs.remove(x);
                let ghost after_remove = cs@;
                let ghost yy = if y < x { y as int } else { y - 1 };
                let cy = &cs[if y < x { y } else { y - 1 }];
                assert(cy@ == c0[y as int]);
                let mut j: usize = 0;
                let ghost cx0 = cx@;
                while j < cy.len()
                    invariant
                        j <= cy@.len(),
                        cx@ =~= cx0 + cy@.take(j as int),
                    decreases cy@.len() - j,
                {
                    cx.push(cy[j]);
                    j = j + 1;
                }
                assert(cy@.take(j as int) =~= cy@);
                cs.insert(x, cx);
                cs.remove(y);
                assert(circ_view(cs@) =~= c0.update(x as int, c0[x as int] + c0[y as int]).remove(y as int));
                assert(circ_view(cs@) == join(c0, a, b));
            } else {
                assert(circ_view(cs@) == join(c0, a, b));
            }
        },
        (Some(x), None) => {
            let mut cx = cs.remove(x);
            cx.push(b);
            cs.insert(x, cx);
            assert(circ_view(cs@) =~= c0.update(x as int, c0[x as int].push(b)));
            assert(circ_view(cs@) == join(c0, a, b));
        },
        (None, Some(y)) => {
            let mut cy = cs.remove(y);
            cy.push(a);
            cs.insert(y, cy);
            assert(circ_view(cs@) =~= c0.update(y as int, c0[y as int].push(a)));
            assert(circ_view(cs@) == join(c0, a, b));
        },
        (None, None) => {
            let mut c: Vec<usize> = Vec::new();
            c.push(a);
            c.push(b);
            assert(c@ =~= seq![a, b]);
            cs.push(c);
            assert(circ_view(cs@) =~= c0.push(seq![a, b]));
            assert(circ_view(cs@) == join(c0, a, b));
        },
    }
}

/// The product of the negated three largest sizes, as `neg_top_product`.
fn neg_top_exec(all: Vec<usize>) -> (r: Option<isize>)
    ensures
        match neg_top_product(all@.map_values(|v: usize| v as int), 3, 1) {
            Some(p) => r == Some(p as isize),
            None => r.is_none(),
        },
{
    let ghost target = neg_top_product(all@.map_values(|v: usize| v as int), 3, 1);
    let mut sizes = all;
    let mut acc: i128 = 1;
    let mut k: usize = 3;
    while k > 0 && sizes.len() > 0
        invariant
            target == neg_top_product(all@.map_values(|v: usize| v as int), 3, 1),
            k <= 3,
            isize::MIN <= acc <= isize::MAX,
            target == neg_top_product(sizes@.map_values(|v: usize| v as int), k as nat, acc as int),
        decreases k,
    {
        let ghost sv = sizes@.map_values(|v: usize| v as int);
        let mut m: usize = 0;
        let mut q: usize = 1;
        while q < sizes.len()
            invariant
                1 <= q <= sizes@.len(),
                sv == sizes@.map_values(|v: usize| v as int),
                m == max_pos(sv.take(q as int)),
                m < q,
            decreases sizes@.len() - q,
        {
            assert(sv.take(q + 1).drop_last() =~= sv.take(q as int));
            assert(sv.take(q as int)[m as int] == sv[m as int]);
            if sizes[q] > sizes[m] {
                m = q;
            }
            q = q + 1;
        }
        assert(sv.take(q as int) =~= sv);
        let size = sizes[m] as i128;
        assert(isize::MIN >= -0x8000_0000_0000_0000 && isize::MAX <= 0x7fff_ffff_ffff_ffff);
        assert(-0x8000_0000_0000_0000_0000_0000_0000_0000 < acc * -size < 0x8000_0000_0000_0000_0000_0000_0000_0000) by (nonlinear_arith)
            requires
                -0x8000_0000_0000_0000 <= acc <= 0x8000_0000_0000_0000,
                0 <= size < 0x1_0000_0000_0000_0000,
        ;
        let p = acc * -size;
        assert(m == max_pos(sv));
        assert(sv[m as int] == size);
        if p < isize::MIN as i128 || p > isize::MAX as i128 {
            assert(neg_top_product(sv, k as nat, acc as int).is_none());
            return None;
        }
        sizes.remove(m);
        assert(sizes@.map_values(|v: usize| v as int) =~= sv.remove(m as int));
        acc = p;
        k = k - 1;
    }
    Some(acc as isize)
}

proof fn lemma_top_range(sizes: Seq<int>, k: nat, acc: int)
    requires
        isize::MIN <= acc <= isize::MAX,
    ensures
        neg_top_product(sizes, k, acc) is Some ==> isize::MIN <= neg_top_product(sizes, k, acc).unwrap()
            <= isize::MAX,
    decreases k,
{
    if k > 0 && sizes.len() > 0 {
        let m = max_pos(sizes);
        let p = acc * -sizes[m];
        if isize::MIN <= p <= isize::MAX {
            lemma_top_range(sizes.remove(m), (k - 1) as nat, p);
        }
    }
}

/// An increasing sequence that holds exactly the pairs is `sorted_pairs`.
proof fn lemma_sorted_pairs(vs: Seq<V3>, t: Seq<(u64, usize, usize)>)
    requires
        increasing(t),
        forall|x: (u64, usize, usize)| t.contains(x) <==> is_pair(vs, x),
    ensures
        sorted_pairs(vs) == t,
{
    let c = sorted_pairs(vs);
    assert(increasing(c) && forall|x: (u64, usize, usize)| c.contains(x) <==> is_pair(vs, x));
    lemma_increasing_unique(c, t);
}

/// The answer for `rounds` rounds, as `answer` gives it; none where the
/// text is not a list of points.
pub fn solve1(input: &str, rounds: isize) -> (r: Option<isize>)
    ensures
        r == match spec_parse(input.spec_bytes()) {
            Some(vs) => answer(vs, rounds as int),
            None => None,
        },
{
    let vs = match parse(input) {
        Some(v) => v,
        None => {
            return None;
        },
    };
    let mut ps = match pair_list(&vs) {
        Some(p) => p,
        None => {
            return None;
        },
    };
    let ghost before = ps@;
    sort_triples(&mut ps);
    proof {
        assert forall|x: (u64, usize, usize)| ps@.contains(x) <==> is_pair(vs@, x) by {
            assert(ps@.contains(x) <==> before.contains(x));
        }
        lemma_sorted_pairs(vs@, ps@);
    }
    let n = vs.len();
    let mut canons: Vec<usize> = Vec::new();
    let mut i: usize = 0;
    while i < n
        invariant
            n == vs@.len(),
            i <= n,
            canons@.len() == i,
            forall|q: int| 0 <= q < i ==> #[trigger] canons@[q] == canon(vs@, q),
        decreases n - i,
    {
        canons.push(canon_exec(&vs, i));
        i = i + 1;
    }
    let mut cs: Vec<Vec<usize>> = Vec::new();
    let mut k: usize = 0;
    assert(circ_view(cs@) =~= Seq::<Seq<usize>>::empty());
    while k < ps.len() && (rounds as i128) != (k as i128)
        invariant
            n == vs@.len(),
            k <= ps@.len(),
            spec_parse(input.spec_bytes()) == Some(vs@),
            dists_fit(vs@),
            ps@ == sorted_pairs(vs@),
            forall|x: (u64, usize, usize)| ps@.contains(x) <==> is_pair(vs@, x),
            canons@.len() == n,
            forall|q: int| 0 <= q < n ==> #[trigger] canons@[q] == canon(vs@, q),
            run(vs@, ps@, circ_view(cs@), k as int, rounds as int) == run(
                vs@,
                ps@,
                Seq::empty(),
                0,
                rounds as int,
            ),
        decreases ps@.len() - k,
    {
        let (_, a, b) = ps[k];
        assert(ps@.contains(ps@[k as int]));
        assert(is_pair(vs@, ps@[k as int]));
        join_exec(&mut cs, canons[a], canons[b]);
        if cs.len() == 1 && cs[0].len() == n {
            assert(circ_view(cs@)[0] == cs@[0]@);
            let xa = vs[a].x as i128;
            let xb = vs[b].x as i128;
            assert(isize::MIN >= -0x8000_0000_0000_0000 && isize::MAX <= 0x7fff_ffff_ffff_ffff);
            assert(-0x4000_0000_0000_0000_0000_0000_0000_0000 <= xa * xb <= 0x4000_0000_0000_0000_0000_0000_0000_0000) by (nonlinear_arith)
                requires
                    -0x8000_0000_0000_0000 <= xa <= 0x8000_0000_0000_0000,
                    -0x8000_0000_0000_0000 <= xb <= 0x8000_0000_0000_0000,
            ;
            let p = xa * xb;
            if p < isize::MIN as i128 || p > isize::MAX as i128 {
                return None;
            }
            return Some(p as isize);
        }
        proof {
            if cs@.len() == 1 {
                assert(circ_view(cs@)[0] == cs@[0]@);
            }
        }
        k = k + 1;
    }
    assert(run(vs@, ps@, Seq::empty(), 0, rounds as int) == Outcome::Circuits(circ_view(cs@)));
    let mut sizes: Vec<usize> = Vec::new();
    let mut c: usize = 0;
    while c < cs.len()
        invariant
            run(vs@, ps@, Seq::empty(), 0, rounds as int) == Outcome::Circuits(circ_view(cs@)),
            spec_parse(input.spec_bytes()) == Some(vs@),
            dists_fit(vs@),
            ps@ == sorted_pairs(vs@),
            c <= cs@.len(),
            sizes@.len() == c,
            forall|q: int| 0 <= q < c ==> #[trigger] sizes@[q] == cs@[q]@.len(),
        decreases cs@.len() - c,
    {
        sizes.push(cs[c].len());
        c = c + 1;
    }
    let ghost sv = circ_view(cs@).map_values(|c: Seq<usize>| c.len() as int);
    assert(sizes@.map_values(|v: usize| v as int) =~= sv);
    proof {
        lemma_top_range(sv, 3, 1);
    }
    assert(answer(vs@, rounds as int) == match neg_top_product(sv, 3, 1) {
        Some(p) => if -p <= isize::MAX {
            Some((-p) as isize)
        } else {
            None
        },
        None => None,
    });
    match neg_top_exec(sizes) {
        Some(p) => if p == isize::MIN {
            None
        } else {
            Some(-p)
        },
        None => None,
    }
}

/// Day 8: joining junction boxes into circuits.
pub struct Day8 {

}

impl Day for Day8 {
    type Output = isize;

    /// After the 1000 closest pairs.
    open spec fn spec_part1(input: &str) -> Option<isize> {
        match spec_parse(input.spec_bytes()) {
            Some(vs) => answer(vs, 1000),
            None => None,
        }
    }

    /// Over all pairs, until everything is one circuit.
    open spec fn spec_part2(input: &str) -> Option<isize> {
        match spec_parse(input.spec_bytes()) {
            Some(vs) => answer(vs, -1),
            None => None,
        }
    }

    fn part1(input: &str) -> (r: Option<isize>) {
        solve1(input, 1000)
    }

    fn part2(input: &str) -> (r: Option<isize>) {
        solve1(input, -1)
    }
}

} // verus!
