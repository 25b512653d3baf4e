//! Solvers for a series of daily puzzles. Each day reads its puzzle text and
//! computes two answers; the grid and text helpers are shared.
use vstd::prelude::*;
use vstd::string::StringSliceAdditionalSpecFns;

pub mod intmap;
pub mod sort;
pub mod text;

pub mod day01;
pub mod day02;
pub mod day03;
pub mod day04;
pub mod day05;
pub mod day06;
pub mod day07;
pub mod day08;
pub mod day09;
pub mod day10;

pub use day01::Day1;
pub use day02::Day2;
pub use day03::Day3;
pub use day04::Day4;
pub use day05::Day5;
pub use day06::Day6;
pub use day07::Day7;
pub use day08::Day8;
pub use day09::Day9;
pub use day10::Day10;

verus! {

/// A value that a puzzle part answers with.
pub trait Answer {

}

impl Answer for u64 {

}

impl Answer for isize {

}

impl Answer for i64 {

}

impl Answer for usize {

}

/// One day's puzzle: two answers computed from the same text. Each answer is
/// `None` exactly where the text does not have the shape that the day reads,
/// or where the answer does not fit its type.
pub trait Day {
    type Output: Answer;

    /// What the first part answers for the text `input`.
    spec fn spec_part1(input: &str) -> Option<Self::Output>;

    /// What the second part answers for the text `input`.
    spec fn spec_part2(input: &str) -> Option<Self::Output>;

    fn part1(input: &str) -> (r: Option<Self::Output>)
        ensures
            r == Self::spec_part1(input),
    ;

    fn part2(input: &str) -> (r: Option<Self::Output>)
        ensures
            r == Self::spec_part2(input),
    ;
}

/// A byte that `day_number` trims: `d`, `a`, `y` or `D`.
pub open spec fn is_day_char(b: u8) -> bool {
    b == 100 || b == 97 || b == 121 || b == 68
}

pub open spec fn trim_day_start(s: Seq<u8>) -> Seq<u8>
    decreases s.len(),
{
    if s.len() > 0 && is_day_char(s[0]) {
        trim_day_start(s.drop_first())
    } else {
        s
    }
}

pub open spec fn trim_day_end(s: Seq<u8>) -> Seq<u8>
    decreases s.len(),
{
    if s.len() > 0 && is_day_char(s.last()) {
        trim_day_end(s.drop_last())
    } else {
        s
    }
}

/// The number of a day named like `Day5` or `day05`: the name without `d`,
/// `a`, `y` and `D` at either end, read as a `u8`.
pub open spec fn day_of(s: Seq<u8>) -> Option<u8> {
    match text::nat_of(trim_day_end(trim_day_start(s))) {
        Some(v) => if v <= u8::MAX {
            Some(v as u8)
        } else {
            None
        },
        None => None,
    }
}

/// The number of a day named like `Day5` or `day05`.
pub fn day_number(day: &str) -> (r: Option<u8>)
    ensures
        r == day_of(day.spec_bytes()),
{
    let s = day.as_bytes();
    let n = s.len();
    let mut a: usize = 0;
    assert(s@.subrange(0, n as int) =~= s@);
    while a < n && (s[a] == 100 || s[a] == 97 || s[a] == 121 || s[a] == 68)
        invariant
            a <= n == s@.len(),
            trim_day_start(s@.subrange(a as int, n as int)) == trim_day_start(s@),
        decreases n - a,
    {
        assert(s@.subrange(a + 1, n as int) =~= s@.subrange(a as int, n as int).drop_first());
        a = a + 1;
    }
    let mut b = n;
    while b > a && (s[b - 1] == 100 || s[b - 1] == 97 || s[b - 1] == 121 || s[b - 1] == 68)
        invariant
            a <= b <= n == s@.len(),
            trim_day_end(s@.subrange(a as int, b as int)) == trim_day_end(s@.subrange(a as int, n as int)),
        decreases b - a,
    {
        assert(s@.subrange(a as int, b - 1) =~= s@.subrange(a as int, b as int).drop_last());
        b = b - 1;
    }
    match text::parse_u64(s, a, b) {
        Some(v) => if v <= 255 {
            Some(v as u8)
        } else {
            None
        },
        None => None,
    }
}

} // verus!
