//! A dial of 100 positions turned left and right; counting how often it
//! reads zero.
use crate::text::{isize_of, line_spans, lines, parse_isize, pieces, spans_within, trim, trim_span};
use crate::Day;
use vstd::arithmetic::div_mod::{
    lemma_fundamental_div_mod, lemma_fundamental_div_mod_converse,
};
use vstd::prelude::*;
use vstd::string::StringSliceAdditionalSpecFns;

verus! {

/// One turn of the dial, by a number of clicks.
#[derive(Debug, Clone, Copy, PartialEq, Eq, Structural)]
pub enum Direction {
    Left(isize),
    Right(isize),
}

/// The step that a line `L<n>` or `R<n>` names.
pub open spec fn step_of(line: Seq<u8>) -> Option<Direction> {
    let t = trim(line);
    if t.len() >= 1 {
        match isize_of(t.skip(1)) {
            Some(v) => if t[0] == 76 {
                Some(Direction::Left(v))
            } else if t[0] == 82 {
                Some(Direction::Right(v))
            } else {
                None
            },
            None => None,
        }
    } else {
        None
    }
}

/// The steps of the lines, where every line names one.
pub open spec fn steps_of(ls: Seq<Seq<u8>>) -> Option<Seq<Direction>>
    decreases ls.len(),
{
    if ls.len() == 0 {
        Some(Seq::empty())
    } else {
        match (steps_of(ls.drop_last()), step_of(ls.last())) {
            (Some(p), Some(c)) => Some(p.push(c)),
            _ => None,
        }
    }
}

pub open spec fn spec_parse(input: Seq<u8>) -> Option<Seq<Direction>> {
    steps_of(lines(trim(input)))
}

/// The signed count of clicks of a step: negative to the left.
pub open spec fn amount(d: Direction) -> int {
    match d {
        Direction::Left(c) => -c,
        Direction::Right(c) => c as int,
    }
}

/// The reading after the steps, counted without wrapping from 50.
pub open spec fn dial(steps: Seq<Direction>) -> int
    decreases steps.len(),
{
    if steps.len() == 0 {
        50
    } else {
        dial(steps.drop_last()) + amount(steps.last())
    }
}

/// How many steps leave the dial at zero.
pub open spec fn zeros_at_rest(steps: Seq<Direction>) -> nat
    decreases steps.len(),
{
    if steps.len() == 0 {
        0
    } else {
        zeros_at_rest(steps.drop_last()) + if dial(steps) % 100 == 0 {
            1nat
        } else {
            0nat
        }
    }
}

/// Of `c` single clicks in direction `d` from reading `p`, how many end at
/// zero.
pub open spec fn hits(p: int, d: int, c: nat) -> nat
    decreases c,
{
    if c == 0 {
        0
    } else {
        hits(p, d, (c - 1) as nat) + if (p + d * c) % 100 == 0 {
            1nat
        } else {
            0nat
        }
    }
}

/// How many single clicks over all steps end at zero.
pub open spec fn zeros_passed(steps: Seq<Direction>) -> nat
    decreases steps.len(),
{
    if steps.len() == 0 {
        0
    } else {
        let p = dial(steps.drop_last());
        zeros_passed(steps.drop_last()) + match steps.last() {
            Direction::Left(c) => hits(p, -1, c as nat),
            Direction::Right(c) => hits(p, 1, c as nat),
        }
    }
}

/// No step turns by a negative count.
pub open spec fn counts_nonneg(steps: Seq<Direction>) -> bool {
    forall|i: int|
        0 <= i < steps.len() ==> match #[trigger] steps[i] {
            Direction::Left(c) => c >= 0,
            Direction::Right(c) => c >= 0,
        }
}

/// One turn of the reading counted by 100: the last click of a run of
/// clicks ends at zero exactly where the count of hundreds goes up.
proof fn lemma_div_step(x: int)
    ensures
        x / 100 == (x - 1) / 100 + if x % 100 == 0 {
            1int
        } else {
            0int
        },
{
    lemma_fundamental_div_mod(x, 100);
    let q = x / 100;
    let r = x % 100;
    if r == 0 {
        lemma_fundamental_div_mod_converse(x - 1, 100, q - 1, 99);
    } else {
        lemma_fundamental_div_mod_converse(x - 1, 100, q, r - 1);
    }
}

proof fn lemma_hits_right(p: int, c: nat)
    ensures
        hits(p, 1, c) == (p + c) / 100 - p / 100,
    decreases c,
{
    if c > 0 {
        lemma_hits_right(p, (c - 1) as nat);
        lemma_div_step(p + c);
    }
}

proof fn lemma_hits_left(p: int, c: nat)
    ensures
        hits(p, -1, c) == (p - 1) / 100 - (p - c - 1) / 100,
    decreases c,
{
    if c > 0 {
        lemma_hits_left(p, (c - 1) as nat);
        lemma_div_step(p - c);
    }
}

/// Where `p` and `q` differ by a multiple of 100, so do their hundreds.
proof fn lemma_shift(p: int, k: int, c: int)
    ensures
        (p + 100 * k + c) / 100 == k + (p + c) / 100,
{
    lemma_fundamental_div_mod(p + c, 100);
    lemma_fundamental_div_mod_converse(
        p + 100 * k + c,
        100,
        k + (p + c) / 100,
        (p + c) % 100,
    );
}

/// The reading after a right turn of `c` from `p`, and the clicks on zero,
/// from the reading's remainder alone.
proof fn lemma_right(p: int, c: int)
    requires
        c >= 0,
    ensures
        hits(p, 1, c as nat) == (p % 100 + c) / 100,
        (p + c) % 100 == (p % 100 + c) % 100,
{
    lemma_hits_right(p, c as nat);
    lemma_fundamental_div_mod(p, 100);
    let k = p / 100;
    let e = p % 100;
    lemma_shift(e, k, c);
    lemma_shift(e, k, 0);
    lemma_fundamental_div_mod_converse(e, 100, 0, e);
    lemma_fundamental_div_mod(e + c, 100);
    lemma_fundamental_div_mod_converse(p + c, 100, k + (e + c) / 100, (e + c) % 100);
}

/// The same for a left turn: going left from `e` hits zero as often as
/// going right from `100 - e` (from 0 where `e` is 0).
proof fn lemma_left(p: int, c: int)
    requires
        c >= 0,
    ensures
        hits(p, -1, c as nat) == ((if p % 100 == 0 {
            0
        } else {
            100 - p % 100
        }) + c) / 100,
        (p - c) % 100 == (p % 100 + (100 - c % 100)) % 100,
{
    lemma_hits_left(p, c as nat);
    lemma_fundamental_div_mod(p, 100);
    lemma_fundamental_div_mod(c, 100);
    let k = p / 100;
    let e = p % 100;
    let cq = c / 100;
    let cr = c % 100;
    let q = if e == 0 {
        0
    } else {
        100 - e
    };
    // (p - 1) / 100 == k - 1 or k
    if e == 0 {
        lemma_fundamental_div_mod_converse(p - 1, 100, k - 1, 99);
    } else {
        lemma_fundamental_div_mod_converse(p - 1, 100, k, e - 1);
    }
    // p - c - 1 == 100 * (k - cq - 1) + (e + 99 - cr)
    lemma_fundamental_div_mod((e + 99 - cr) as int, 100);
    lemma_fundamental_div_mod_converse(
        p - c - 1,
        100,
        k - cq - 1 + (e + 99 - cr) / 100,
        (e + 99 - cr) % 100,
    );
    // (q + c) / 100 == cq + (q + cr) / 100
    lemma_fundamental_div_mod((q + cr) as int, 100);
    lemma_fundamental_div_mod_converse(q + c, 100, cq + (q + cr) / 100, (q + cr) % 100);
    if e == 0 {
        lemma_fundamental_div_mod_converse(99 - cr, 100, 0, 99 - cr);
        lemma_fundamental_div_mod_converse(cr, 100, 0, cr);
    } else {
        if cr >= e {
            lemma_fundamental_div_mod_converse(e + 99 - cr, 100, 0, e + 99 - cr);
            lemma_fundamental_div_mod_converse(q + cr, 100, 1, q + cr - 100);
        } else {
            lemma_fundamental_div_mod_converse(e + 99 - cr, 100, 1, e - 1 - cr);
            lemma_fundamental_div_mod_converse(q + cr, 100, 0, q + cr);
        }
    }
    // the reading
    lemma_fundamental_div_mod((e + (100 - cr)) as int, 100);
    lemma_fundamental_div_mod_converse(
        p - c,
        100,
        k - cq - 1 + (e + (100 - cr)) / 100,
        (e + (100 - cr)) % 100,
    );
}

/// Adding `a` to a reading only depends on the reading's remainder.
proof fn lemma_mod_shift(x: int, a: int)
    ensures
        (x + a) % 100 == (x % 100 + a) % 100,
{
    lemma_fundamental_div_mod(x, 100);
    lemma_fundamental_div_mod(x % 100 + a, 100);
    lemma_fundamental_div_mod_converse(
        x + a,
        100,
        x / 100 + (x % 100 + a) / 100,
        (x % 100 + a) % 100,
    );
}

/// The reading `curr` (below 100) turned by `a` clicks, counted by 100.
fn step_mod(curr: u64, a: i128) -> (r: u64)
    requires
        curr < 100,
        isize::MIN <= a,
    ensures
        r == (curr + a) % 100,
        r < 100,
{
    if a >= 0 {
        let m = (a as u128 % 100) as u64;
        proof {
            lemma_fundamental_div_mod(a as int, 100);
            lemma_fundamental_div_mod((curr + m) as int, 100);
            lemma_fundamental_div_mod_converse(
                curr + a,
                100,
                a / 100 + (curr + m) / 100,
                (curr + m) % 100,
            );
        }
        (curr + m) % 100
    } else {
        let n = (-a) as u128;
        let m = (n % 100) as u64;
        proof {
            lemma_fundamental_div_mod(n as int, 100);
            lemma_fundamental_div_mod((curr + (100 - m)) as int, 100);
            lemma_fundamental_div_mod_converse(
                curr + a,
                100,
                (curr + (100 - m)) / 100 - n / 100 - 1,
                (curr + (100 - m)) % 100,
            );
        }
        (curr + (100 - m)) % 100
    }
}

proof fn lemma_passed_prefix(steps: Seq<Direction>, k: int)
    requires
        0 <= k <= steps.len(),
    ensures
        zeros_passed(steps.take(k)) <= zeros_passed(steps),
    decreases steps.len(),
{
    if k < steps.len() {
        assert(steps.drop_last().take(k) =~= steps.take(k));
        lemma_passed_prefix(steps.drop_last(), k);
    } else {
        assert(steps.take(k) =~= steps);
    }
}

/// The step that the line `s[lo..hi]` names.
fn parse_step(s: &[u8], lo: usize, hi: usize) -> (r: Option<Direction>)
    requires
        lo <= hi <= s@.len(),
    ensures
        r == step_of(s@.subrange(lo as int, hi as int)),
{
    let (a, b) = trim_span(s, lo, hi);
    if a == b {
        return None;
    }
    let ghost t = s@.subrange(a as int, b as int);
    assert(t.skip(1) =~= s@.subrange(a + 1, b as int));
    assert(t[0] == s@[a as int]);
    match parse_isize(s, a + 1, b) {
        Some(v) => {
            if s[a] == 76 {
                Some(Direction::Left(v))
            } else if s[a] == 82 {
                Some(Direction::Right(v))
            } else {
                None
            }
        },
        None => None,
    }
}

proof fn lemma_steps_prefix(ls: Seq<Seq<u8>>, k: int)
    requires
        0 <= k <= ls.len(),
        steps_of(ls.take(k)).is_none(),
    ensures
        steps_of(ls).is_none(),
    decreases ls.len(),
{
    if k < ls.len() {
        assert(ls.drop_last().take(k) =~= ls.take(k));
        lemma_steps_prefix(ls.drop_last(), k);
    } else {
        assert(ls.take(k) =~= ls);
    }
}

/// The steps of a text with one `L<n>` or `R<n>` per line, where every line
/// names one.
pub fn parse(input: &str) -> (r: Option<Vec<Direction>>)
    ensures
        match spec_parse(input.spec_bytes()) {
            Some(v) => r.is_some() && r.unwrap()@ == v,
            None => r.is_none(),
        },
{
    let s = input.as_bytes();
    let (lo, hi) = trim_span(s, 0, s.len());
    assert(s@.subrange(0, s@.len() as int) =~= s@);
    let ls = line_spans(s, lo, hi);
    let ghost lp = pieces(s@, ls@);
    let mut out: Vec<Direction> = Vec::new();
    let mut i: usize = 0;
    while i < ls.len()
        invariant
            i <= ls@.len(),
            lp == pieces(s@, ls@),
            lp == lines(trim(s@)),
            s@ == input.spec_bytes(),
            spans_within(ls@, lo as int, hi as int),
            hi <= s@.len(),
            steps_of(lp.take(i as int)) == Some(out@),
        decreases ls@.len() - i,
    {
        assert(lp.take(i + 1).drop_last() =~= lp.take(i as int));
        let (a, b) = ls[i];
        assert(lp.take(i + 1).last() == s@.subrange(a as int, b as int));
        match parse_step(s, a, b) {
            Some(c) => {
                out.push(c);
            },
            None => {
                proof {
                    assert(steps_of(lp.take(i + 1)).is_none());
                    lemma_steps_prefix(lp, i + 1);
                }
                return None;
            },
        }
        i = i + 1;
    }
    assert(lp.take(i as int) =~= lp);
    Some(out)
}

/// Day 1: how often a dial reads zero.
pub struct Day1 {

}

impl Day for Day1 {
    type Output = u64;

    /// How many steps leave the dial at zero.
    open spec fn spec_part1(input: &str) -> Option<u64> {
        match spec_parse(input.spec_bytes()) {
            Some(steps) => Some(zeros_at_rest(steps) as u64),
            None => None,
        }
    }

    /// How many single clicks end at zero, where no step turns by a negative
    /// count and the count fits.
    open spec fn spec_part2(input: &str) -> Option<u64> {
        match spec_parse(input.spec_bytes()) {
            Some(steps) => if counts_nonneg(steps) && zeros_passed(steps) <= u64::MAX {
                Some(zeros_passed(steps) as u64)
            } else {
                None
            },
            None => None,
        }
    }

    fn part1(input: &str) -> (r: Option<u64>) {
        let steps = match parse(input) {
            Some(v) => v,
            None => {
                return None;
            },
        };
        let mut curr: u64 = 50;
        let mut zeroes: u64 = 0;
        let mut i: usize = 0;
        while i < steps.len()
            invariant
                i <= steps@.len(),
                curr < 100,
                curr == dial(steps@.take(i as int)) % 100,
                zeroes == zeros_at_rest(steps@.take(i as int)),
                zeroes <= i,
            decreases steps@.len() - i,
        {
            let ghost prev = steps@.take(i as int);
            assert(steps@.take(i + 1).drop_last() =~= prev);
            let a: i128 = match steps[i] {
                Direction::Left(c) => -(c as i128),
                Direction::Right(c) => c as i128,
            };
            proof {
                lemma_mod_shift(dial(prev), a as int);
            }
            curr = step_mod(curr, a);
            if curr == 0 {
                zeroes = zeroes + 1;
            }
            i = i + 1;
        }
        assert(steps@.take(i as int) =~= steps@);
        Some(zeroes)
    }

    fn part2(input: &str) -> (r: Option<u64>) {
        let steps = match parse(input) {
            Some(v) => v,
            None => {
                return None;
            },
        };
        let mut curr: u64 = 50;
        let mut zeroes: u64 = 0;
        let mut i: usize = 0;
        while i < steps.len()
            invariant
                i <= steps@.len(),
                curr < 100,
                curr == dial(steps@.take(i as int)) % 100,
                counts_nonneg(steps@.take(i as int)),
                zeroes == zeros_passed(steps@.take(i as int)),
                steps@ == spec_parse(input.spec_bytes()).unwrap(),
                spec_parse(input.spec_bytes()).is_some(),
            decreases steps@.len() - i,
        {
            let ghost prev = steps@.take(i as int);
            assert(steps@.take(i + 1).drop_last() =~= prev);
            let (c, right) = match steps[i] {
                Direction::Left(c) => (c, false),
                Direction::Right(c) => (c, true),
            };
            if c < 0 {
                assert(!counts_nonneg(steps@)) by {
                    assert(match steps@[i as int] {
                        Direction::Left(c) => c < 0,
                        Direction::Right(c) => c < 0,
                    });
                }
                return None;
            }
            let c = c as u64;
            let (h, next) = if right {
                proof {
                    lemma_right(dial(prev), c as int);
                    lemma_mod_shift(dial(prev), c as int);
                }
                ((curr + c) / 100, (curr + c) % 100)
            } else {
                let q = if curr == 0 {
                    0
                } else {
                    100 - curr
                };
                proof {
                    lemma_left(dial(prev), c as int);
                }
                ((q + c) / 100, (curr + (100 - c % 100)) % 100)
            };
            assert(counts_nonneg(steps@.take(i + 1)));
            match zeroes.checked_add(h) {
                Some(z) => {
                    zeroes = z;
                },
                None => {
                    proof {
                        lemma_passed_prefix(steps@, i + 1);
                    }
                    return None;
                },
            }
            curr = next;
            i = i + 1;
        }
        assert(steps@.take(i as int) =~= steps@);
        Some(zeroes)
    }
}

} // verus!
