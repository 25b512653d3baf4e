//! Byte-level reading of puzzle text: trimming, splitting into pieces and
//! lines, and decimal numbers, each specified over `Seq<u8>`.
use vstd::prelude::*;

verus! {

/// ASCII whitespace as `str::trim` removes it: tab, line feed, vertical tab,
/// form feed, carriage return and space.
pub open spec fn is_space(b: u8) -> bool {
    b == 9 || b == 10 || b == 11 || b == 12 || b == 13 || b == 32
}

pub open spec fn trim_start(s: Seq<u8>) -> Seq<u8>
    decreases s.len(),
{
    if s.len() > 0 && is_space(s[0]) {
        trim_start(s.drop_first())
    } else {
        s
    }
}

pub open spec fn trim_end(s: Seq<u8>) -> Seq<u8>
    decreases s.len(),
{
    if s.len() > 0 && is_space(s.last()) {
        trim_end(s.drop_last())
    } else {
        s
    }
}

/// `s` without whitespace at either end.
pub open spec fn trim(s: Seq<u8>) -> Seq<u8> {
    trim_end(trim_start(s))
}

/// The pieces of `s` between occurrences of `sep`, as `str::split` gives them:
/// always at least one piece, possibly empty.
pub open spec fn split(s: Seq<u8>, sep: u8) -> Seq<Seq<u8>>
    decreases s.len(),
{
    if s.len() == 0 {
        seq![Seq::<u8>::empty()]
    } else if s.last() == sep {
        split(s.drop_last(), sep).push(Seq::<u8>::empty())
    } else {
        let p = split(s.drop_last(), sep);
        p.update(p.len() - 1, p.last().push(s.last()))
    }
}

/// `s` without one carriage return at its end.
pub open spec fn strip_cr(s: Seq<u8>) -> Seq<u8> {
    if s.len() > 0 && s.last() == 13 {
        s.drop_last()
    } else {
        s
    }
}

/// The lines of `s`, as `str::lines` gives them: split at line feeds, an
/// empty piece after the last line feed dropped, and a carriage return before
/// each line feed removed.
pub open spec fn lines(s: Seq<u8>) -> Seq<Seq<u8>> {
    let p = split(s, 10);
    let q = if p.last().len() == 0 {
        p.drop_last()
    } else {
        p
    };
    Seq::new(q.len(), |i: int| if i + 1 < p.len() { strip_cr(q[i]) } else { q[i] })
}

/// The bytes that a list of spans marks out in `s`.
pub open spec fn pieces(s: Seq<u8>, sp: Seq<(usize, usize)>) -> Seq<Seq<u8>> {
    Seq::new(sp.len(), |i: int| s.subrange(sp[i].0 as int, sp[i].1 as int))
}

/// Every span lies within `lo..hi`.
pub open spec fn spans_within(sp: Seq<(usize, usize)>, lo: int, hi: int) -> bool {
    forall|i: int| 0 <= i < sp.len() ==> lo <= #[trigger] sp[i].0 <= sp[i].1 <= hi
}

pub open spec fn is_digit(b: u8) -> bool {
    48 <= b <= 57
}

pub open spec fn all_digits(s: Seq<u8>) -> bool {
    forall|i: int| 0 <= i < s.len() ==> is_digit(#[trigger] s[i])
}

/// The number that a string of decimal digits stands for.
pub open spec fn digits_value(s: Seq<u8>) -> nat
    decreases s.len(),
{
    if s.len() == 0 {
        0
    } else {
        digits_value(s.drop_last()) * 10 + (s.last() - 48) as nat
    }
}

/// An unsigned decimal as `str::parse` reads one: an optional `+`, then one
/// or more digits.
pub open spec fn nat_of(s: Seq<u8>) -> Option<nat> {
    let d = if s.len() > 0 && s[0] == 43 {
        s.drop_first()
    } else {
        s
    };
    if d.len() > 0 && all_digits(d) {
        Some(digits_value(d))
    } else {
        None
    }
}

/// A signed decimal as `str::parse` reads one: an optional `+` or `-`, then
/// one or more digits.
pub open spec fn int_of(s: Seq<u8>) -> Option<int> {
    if s.len() > 0 && s[0] == 45 {
        let d = s.drop_first();
        if d.len() > 0 && all_digits(d) {
            Some(-digits_value(d))
        } else {
            None
        }
    } else {
        match nat_of(s) {
            Some(v) => Some(v as int),
            None => None,
        }
    }
}

/// `str::parse::<u64>`: the value, where it is a decimal that fits.
pub open spec fn u64_of(s: Seq<u8>) -> Option<u64> {
    match nat_of(s) {
        Some(v) => if v <= u64::MAX {
            Some(v as u64)
        } else {
            None
        },
        None => None,
    }
}

/// `str::parse::<usize>`.
pub open spec fn usize_of(s: Seq<u8>) -> Option<usize> {
    match nat_of(s) {
        Some(v) => if v <= usize::MAX {
            Some(v as usize)
        } else {
            None
        },
        None => None,
    }
}

/// `str::parse::<isize>`.
pub open spec fn isize_of(s: Seq<u8>) -> Option<isize> {
    match int_of(s) {
        Some(v) => if isize::MIN <= v <= isize::MAX {
            Some(v as isize)
        } else {
            None
        },
        None => None,
    }
}

pub fn is_space_byte(b: u8) -> (r: bool)
    ensures
        r == is_space(b),
{
    b == 9 || b == 10 || b == 11 || b == 12 || b == 13 || b == 32
}

/// The part of `s[lo..hi]` that `trim` keeps.
pub fn trim_span(s: &[u8], lo: usize, hi: usize) -> (r: (usize, usize))
    requires
        lo <= hi <= s@.len(),
    ensures
        lo <= r.0 <= r.1 <= hi,
        s@.subrange(r.0 as int, r.1 as int) == trim(s@.subrange(lo as int, hi as int)),
{
    let mut a = lo;
    while a < hi && is_space_byte(s[a])
        invariant
            lo <= a <= hi <= s@.len(),
            trim_start(s@.subrange(a as int, hi as int)) == trim_start(
                s@.subrange(lo as int, hi as int),
            ),
        decreases hi - a,
    {
        assert(s@.subrange(a as int + 1, hi as int) =~= s@.subrange(a as int, hi as int).drop_first());
        a = a + 1;
    }
    let mut b = hi;
    while b > a && is_space_byte(s[b - 1])
        invariant
            lo <= a <= b <= hi <= s@.len(),
            trim_end(s@.subrange(a as int, b as int)) == trim_end(s@.subrange(a as int, hi as int)),
        decreases b - a,
    {
        assert(s@.subrange(a as int, b - 1) =~= s@.subrange(a as int, b as int).drop_last());
        b = b - 1;
    }
    (a, b)
}

/// The pieces of `s[lo..hi]` between occurrences of `sep`.
pub fn split_spans(s: &[u8], lo: usize, hi: usize, sep: u8) -> (r: Vec<(usize, usize)>)
    requires
        lo <= hi <= s@.len(),
    ensures
        spans_within(r@, lo as int, hi as int),
        pieces(s@, r@) == split(s@.subrange(lo as int, hi as int), sep),
{
    let mut out: Vec<(usize, usize)> = Vec::new();
    let mut start = lo;
    let mut i = lo;
    assert(s@.subrange(lo as int, lo as int) =~= Seq::<u8>::empty());
    assert(pieces(s@, out@).push(s@.subrange(start as int, i as int)) =~= split(
        s@.subrange(lo as int, i as int),
        sep,
    ));
    while i < hi
        invariant
            lo <= start <= i <= hi <= s@.len(),
            spans_within(out@, lo as int, start as int),
            pieces(s@, out@).push(s@.subrange(start as int, i as int)) == split(
                s@.subrange(lo as int, i as int),
                sep,
            ),
        decreases hi - i,
    {
        let ghost prev = pieces(s@, out@);
        assert(s@.subrange(lo as int, i as int) =~= s@.subrange(lo as int, i + 1).drop_last());
        if s[i] == sep {
            out.push((start, i));
            start = i + 1;
            assert(pieces(s@, out@) =~= prev.push(s@.subrange(out@.last().0 as int, i as int)));
            assert(s@.subrange(start as int, i + 1) =~= Seq::<u8>::empty());
            assert(pieces(s@, out@).push(s@.subrange(start as int, i + 1)) =~= split(
                s@.subrange(lo as int, i + 1),
                sep,
            ));
        } else {
            assert(s@.subrange(start as int, i + 1) =~= s@.subrange(start as int, i as int).push(
                s@[i as int],
            ));
            assert(pieces(s@, out@).push(s@.subrange(start as int, i + 1)) =~= split(
                s@.subrange(lo as int, i + 1),
                sep,
            ));
        }
        i = i + 1;
    }
    let ghost prev = pieces(s@, out@);
    out.push((start, hi));
    assert(pieces(s@, out@) =~= prev.push(s@.subrange(start as int, hi as int)));
    out
}

pub proof fn lemma_split_len(s: Seq<u8>, sep: u8)
    ensures
        split(s, sep).len() >= 1,
    decreases s.len(),
{
    if s.len() > 0 {
        lemma_split_len(s.drop_last(), sep);
    }
}

/// The lines of `s[lo..hi]`.
pub fn line_spans(s: &[u8], lo: usize, hi: usize) -> (r: Vec<(usize, usize)>)
    requires
        lo <= hi <= s@.len(),
    ensures
        spans_within(r@, lo as int, hi as int),
        pieces(s@, r@) == lines(s@.subrange(lo as int, hi as int)),
{
    let p = split_spans(s, lo, hi, 10);
    let ghost ps = split(s@.subrange(lo as int, hi as int), 10);
    proof {
        lemma_split_len(s@.subrange(lo as int, hi as int), 10);
    }
    let n = p.len();
    let last = p[n - 1];
    let m = if last.0 == last.1 {
        n - 1
    } else {
        n
    };
    assert(ps.last() == s@.subrange(last.0 as int, last.1 as int));
    let mut out: Vec<(usize, usize)> = Vec::new();
    let mut i: usize = 0;
    while i < m
        invariant
            m <= n == p@.len() == ps.len(),
            m as int == lines(s@.subrange(lo as int, hi as int)).len(),
            0 <= i <= m,
            spans_within(p@, lo as int, hi as int),
            pieces(s@, p@) == ps,
            spans_within(out@, lo as int, hi as int),
            ps == split(s@.subrange(lo as int, hi as int), 10),
            pieces(s@, out@) =~= lines(s@.subrange(lo as int, hi as int)).take(i as int),
            lo <= hi <= s@.len(),
        decreases m - i,
    {
        let sp = p[i];
        let ghost prev = pieces(s@, out@);
        assert(ps[i as int] == s@.subrange(sp.0 as int, sp.1 as int));
        if i + 1 < n && sp.0 < sp.1 && s[sp.1 - 1] == 13 {
            out.push((sp.0, sp.1 - 1));
            assert(s@.subrange(sp.0 as int, sp.1 - 1) =~= s@.subrange(
                sp.0 as int,
                sp.1 as int,
            ).drop_last());
        } else {
            out.push(sp);
        }
        assert(pieces(s@, out@) =~= prev.push(
            lines(s@.subrange(lo as int, hi as int))[i as int],
        ));
        i = i + 1;
    }
    assert(lines(s@.subrange(lo as int, hi as int)).take(m as int) =~= lines(
        s@.subrange(lo as int, hi as int),
    ));
    out
}

proof fn lemma_digits_prefix(s: Seq<u8>, k: int)
    requires
        0 <= k <= s.len(),
        all_digits(s),
    ensures
        digits_value(s.take(k)) <= digits_value(s),
    decreases s.len(),
{
    if k < s.len() {
        assert(all_digits(s.drop_last()));
        assert(s.drop_last().take(k) =~= s.take(k));
        lemma_digits_prefix(s.drop_last(), k);
    } else {
        assert(s.take(k) =~= s);
    }
}

/// The value of the digits `s[lo..hi]`, where they are one or more digits
/// and the value fits.
pub fn digits_u64(s: &[u8], lo: usize, hi: usize) -> (r: Option<u64>)
    requires
        lo <= hi <= s@.len(),
    ensures
        r == (if lo < hi && all_digits(s@.subrange(lo as int, hi as int)) && digits_value(
            s@.subrange(lo as int, hi as int),
        ) <= u64::MAX {
            Some(digits_value(s@.subrange(lo as int, hi as int)) as u64)
        } else {
            None::<u64>
        }),
{
    let ghost t = s@.subrange(lo as int, hi as int);
    if lo == hi {
        return None;
    }
    let mut acc: u64 = 0;
    let mut i = lo;
    assert(s@.subrange(lo as int, lo as int) =~= Seq::<u8>::empty());
    while i < hi
        invariant
            lo <= i <= hi <= s@.len(),
            t == s@.subrange(lo as int, hi as int),
            all_digits(s@.subrange(lo as int, i as int)),
            acc as nat == digits_value(s@.subrange(lo as int, i as int)),
        decreases hi - i,
    {
        let b = s[i];
        if b < 48 || b > 57 {
            assert(t[i - lo] == b);
            return None;
        }
        assert(s@.subrange(lo as int, i + 1).drop_last() =~= s@.subrange(lo as int, i as int));
        assert(t.take(i + 1 - lo) =~= s@.subrange(lo as int, i + 1));
        let d = (b - 48) as u64;
        match acc.checked_mul(10) {
            Some(x) => match x.checked_add(d) {
                Some(y) => {
                    acc = y;
                },
                None => {
                    proof {
                        if all_digits(t) {
                            lemma_digits_prefix(t, i + 1 - lo);
                        }
                    }
                    return None;
                },
            },
            None => {
                proof {
                    if all_digits(t) {
                        lemma_digits_prefix(t, i + 1 - lo);
                    }
                }
                return None;
            },
        }
        i = i + 1;
    }
    assert(t =~= s@.subrange(lo as int, i as int));
    Some(acc)
}

/// `s[lo..hi]` read as `str::parse::<u64>` reads it.
pub fn parse_u64(s: &[u8], lo: usize, hi: usize) -> (r: Option<u64>)
    requires
        lo <= hi <= s@.len(),
    ensures
        r == u64_of(s@.subrange(lo as int, hi as int)),
{
    let ghost t = s@.subrange(lo as int, hi as int);
    if lo < hi && s[lo] == 43 {
        assert(s@.subrange(lo + 1, hi as int) =~= t.drop_first());
        digits_u64(s, lo + 1, hi)
    } else {
        digits_u64(s, lo, hi)
    }
}

/// `s[lo..hi]` read as `str::parse::<usize>` reads it.
pub fn parse_usize(s: &[u8], lo: usize, hi: usize) -> (r: Option<usize>)
    requires
        lo <= hi <= s@.len(),
    ensures
        r == usize_of(s@.subrange(lo as int, hi as int)),
{
    match parse_u64(s, lo, hi) {
        Some(v) => if v <= usize::MAX as u64 {
            Some(v as usize)
        } else {
            None
        },
        None => {
            proof {
                let ghost t = s@.subrange(lo as int, hi as int);
                if nat_of(t).is_some() {
                    assert(nat_of(t).unwrap() > u64::MAX);
                }
            }
            None
        },
    }
}

/// `s[lo..hi]` read as `str::parse::<isize>` reads it.
pub fn parse_isize(s: &[u8], lo: usize, hi: usize) -> (r: Option<isize>)
    requires
        lo <= hi <= s@.len(),
    ensures
        r == isize_of(s@.subrange(lo as int, hi as int)),
{
    let ghost t = s@.subrange(lo as int, hi as int);
    if lo < hi && s[lo] == 45 {
        assert(s@.subrange(lo + 1, hi as int) =~= t.drop_first());
        match digits_u64(s, lo + 1, hi) {
            Some(v) => {
                let x: i128 = -(v as i128);
                if x >= isize::MIN as i128 {
                    Some(x as isize)
                } else {
                    None
                }
            },
            None => None,
        }
    } else {
        match parse_u64(s, lo, hi) {
            Some(v) => if v <= isize::MAX as u64 {
                Some(v as isize)
            } else {
                None
            },
            None => None,
        }
    }
}

/// The position of the first `b` in `s`.
pub open spec fn find(s: Seq<u8>, b: u8) -> Option<nat>
    decreases s.len(),
{
    if s.len() == 0 {
        None
    } else if s[0] == b {
        Some(0)
    } else {
        match find(s.drop_first(), b) {
            Some(k) => Some(k + 1),
            None => None,
        }
    }
}

proof fn lemma_find(s: Seq<u8>, b: u8, i: int)
    requires
        0 <= i <= s.len(),
        forall|j: int| 0 <= j < i ==> s[j] != b,
    ensures
        i < s.len() && s[i] == b ==> find(s, b) == Some(i as nat),
        i == s.len() ==> find(s, b) == None::<nat>,
    decreases i,
{
    if i > 0 {
        lemma_find(s.drop_first(), b, i - 1);
    }
}

/// The position in `s` of the first `b` within `s[lo..hi]`.
pub fn find_byte(s: &[u8], lo: usize, hi: usize, b: u8) -> (r: Option<usize>)
    requires
        lo <= hi <= s@.len(),
    ensures
        match find(s@.subrange(lo as int, hi as int), b) {
            Some(k) => r.is_some() && r.unwrap() == lo + k,
            None => r.is_none(),
        },
        r.is_some() ==> lo <= r.unwrap() < hi && s@[r.unwrap() as int] == b,
{
    let ghost t = s@.subrange(lo as int, hi as int);
    let mut i = lo;
    while i < hi
        invariant
            lo <= i <= hi <= s@.len(),
            t == s@.subrange(lo as int, hi as int),
            forall|j: int| 0 <= j < i - lo ==> t[j] != b,
        decreases hi - i,
    {
        assert(t[i - lo] == s@[i as int]);
        if s[i] == b {
            proof {
                lemma_find(t, b, i - lo);
            }
            return Some(i);
        }
        i = i + 1;
    }
    proof {
        lemma_find(t, b, i - lo);
    }
    None
}

} // verus!
