//! Numbers made of a block of digits written several times over, searched
//! for within ranges.
use crate::text::{
    find, find_byte, parse_u64, pieces, spans_within, split, split_spans, trim, trim_span, u64_of,
};
use crate::Day;
use vstd::arithmetic::div_mod::{
    lemma_div_is_ordered, lemma_fundamental_div_mod,
    lemma_fundamental_div_mod_converse, lemma_multiply_divide_lt,
};
use vstd::prelude::*;
use vstd::string::StringSliceAdditionalSpecFns;

verus! {

pub open spec fn pow10(k: nat) -> nat
    decreases k,
{
    if k == 0 {
        1
    } else {
        10 * pow10((k - 1) as nat)
    }
}

/// How many decimal digits write `i`.
pub open spec fn num_digits(i: nat) -> nat
    decreases i,
{
    if i < 10 {
        1
    } else {
        1 + num_digits(i / 10)
    }
}

/// `m` is a block of digits written twice, such as 6464.
pub open spec fn is_doubled(m: nat) -> bool {
    let d = num_digits(m);
    d % 2 == 0 && m / pow10(d / 2) == m % pow10(d / 2)
}

/// The largest `u64` that `is_doubled`.
pub const MAX_DOUBLED: u64 = 18446744071844674407;

proof fn lemma_pow10_pos(k: nat)
    ensures
        pow10(k) >= 1,
    decreases k,
{
    if k > 0 {
        lemma_pow10_pos((k - 1) as nat);
    }
}

proof fn lemma_pow10_add(a: nat, b: nat)
    ensures
        pow10(a + b) == pow10(a) * pow10(b),
    decreases a,
{
    if a > 0 {
        lemma_pow10_add((a - 1) as nat, b);
        let x = pow10((a - 1) as nat);
        assert(pow10(a + b) == 10 * pow10((a - 1 + b) as nat));
        assert(pow10(a) == 10 * x);
        assert(10 * (x * pow10(b)) == (10 * x) * pow10(b)) by (nonlinear_arith);
        assert(pow10(a + b) == pow10(a) * pow10(b));
    } else {
        assert(pow10(a) == 1);
        assert(a + b == b);
        assert(1 * pow10(b) == pow10(b));
    }
}

proof fn lemma_pow10_lt(a: nat, b: nat)
    requires
        a < b,
    ensures
        pow10(a) < pow10(b),
    decreases b,
{
    lemma_pow10_pos((b - 1) as nat);
    if a < b - 1 {
        lemma_pow10_lt(a, (b - 1) as nat);
    }
}

proof fn lemma_pow10_le(a: nat, b: nat)
    requires
        a <= b,
    ensures
        pow10(a) <= pow10(b),
{
    if a < b {
        lemma_pow10_lt(a, b);
    }
}

proof fn lemma_digits_bounds(m: nat)
    ensures
        num_digits(m) >= 1,
        m < pow10(num_digits(m)),
        num_digits(m) > 1 ==> pow10((num_digits(m) - 1) as nat) <= m,
    decreases m,
{
    if m >= 10 {
        let q = m / 10;
        lemma_digits_bounds(q);
        lemma_fundamental_div_mod(m as int, 10);
        let d = num_digits(q);
        assert(num_digits(m) == d + 1);
        assert(pow10(d + 1) == 10 * pow10(d));
        assert(m < pow10(d + 1)) by (nonlinear_arith)
            requires
                m == 10 * q + m % 10,
                m % 10 < 10,
                q < pow10(d),
                pow10(d + 1) == 10 * pow10(d),
        ;
        if d > 1 {
            assert(pow10(d) == 10 * pow10((d - 1) as nat));
            assert(pow10(d) <= m) by (nonlinear_arith)
                requires
                    m == 10 * q + m % 10,
                    m % 10 >= 0,
                    pow10((d - 1) as nat) <= q,
                    pow10(d) == 10 * pow10((d - 1) as nat),
            ;
        } else {
            assert(pow10(1) == 10) by {
                reveal_with_fuel(pow10, 2);
            }
        }
    } else {
        assert(pow10(1) == 10) by {
            reveal_with_fuel(pow10, 2);
        }
    }
}

/// `m` has `d` digits when it lies in `[10^(d-1), 10^d)`.
proof fn lemma_digits_unique(m: nat, d: nat)
    requires
        d >= 1,
        m < pow10(d),
        d > 1 ==> pow10((d - 1) as nat) <= m,
    ensures
        num_digits(m) == d,
{
    lemma_digits_bounds(m);
    let e = num_digits(m);
    if e < d {
        lemma_pow10_le(e, (d - 1) as nat);
    } else if e > d {
        lemma_pow10_le(d, (e - 1) as nat);
    }
}

/// Dropping `k` trailing digits of a number with more than `k` digits.
proof fn lemma_digits_div(i: nat, k: nat)
    requires
        i >= pow10(k),
    ensures
        num_digits(i) == k + num_digits(i / pow10(k)),
{
    lemma_digits_bounds(i);
    lemma_pow10_pos(k);
    let d = num_digits(i);
    if d <= k {
        lemma_pow10_le(d, k);
    }
    let p = pow10(k);
    let q = i / p;
    lemma_pow10_add((d - k) as nat, k);
    lemma_multiply_divide_lt(i as int, p as int, pow10((d - k) as nat) as int);
    if d - k > 1 {
        lemma_pow10_add((d - k - 1) as nat, k);
        assert(pow10((d - 1) as nat) == pow10((d - k - 1) as nat) * p);
        lemma_div_is_ordered(
            (pow10((d - k - 1) as nat) * p) as int,
            i as int,
            p as int,
        );
        vstd::arithmetic::div_mod::lemma_div_by_multiple(pow10((d - k - 1) as nat) as int, p as int);
    }
    assert(pow10((d - k) as nat) * p == p * pow10((d - k) as nat)) by (nonlinear_arith);
    lemma_digits_unique(q, (d - k) as nat);
}

/// `s * 10^k + s` is doubled when `s` has `k` digits.
proof fn lemma_doubled_of(s: nat, k: nat)
    requires
        k >= 1,
        pow10((k - 1) as nat) <= s < pow10(k),
    ensures
        num_digits(s * pow10(k) + s) == 2 * k,
        (s * pow10(k) + s) / pow10(k) == s,
        (s * pow10(k) + s) % pow10(k) == s,
        is_doubled(s * pow10(k) + s),
{
    let p = pow10(k);
    let m = s * p + s;
    lemma_fundamental_div_mod_converse(m as int, p as int, s as int, s as int);
    lemma_pow10_add(k, k);
    lemma_pow10_add((k - 1) as nat, k);
    assert(k + k == 2 * k);
    assert(m < p * p) by (nonlinear_arith)
        requires
            m == s * p + s,
            s < p,
            s + 1 <= p,
    ;
    assert(pow10((k - 1) as nat) * p <= m) by (nonlinear_arith)
        requires
            m == s * p + s,
            pow10((k - 1) as nat) <= s,
    ;
    assert((2 * k - 1) as nat == ((k - 1) + k) as nat);
    lemma_digits_unique(m, 2 * k);
    assert((2 * k) / 2 == k);
}

/// The numbers in `[n, 10^d)`, where `n` has an odd count `d` of digits, are
/// not doubled.
proof fn lemma_none_up_to_odd(n: nat, m: nat)
    requires
        num_digits(n) % 2 == 1,
        n <= m < pow10(num_digits(n)),
    ensures
        !is_doubled(m),
{
    let d = num_digits(n);
    lemma_digits_bounds(n);
    lemma_digits_unique(m, d);
}

/// Reading `m`, which has `2k` digits, as a block `q` followed by the block
/// `m % 10^k`.
proof fn lemma_split_even(m: nat, k: nat)
    requires
        k >= 1,
        num_digits(m) == 2 * k,
    ensures
        m == (m / pow10(k)) * pow10(k) + m % pow10(k),
        m % pow10(k) < pow10(k),
        is_doubled(m) ==> m == (m / pow10(k)) * pow10(k) + m / pow10(k),
{
    lemma_pow10_pos(k);
    lemma_fundamental_div_mod(m as int, pow10(k) as int);
    assert((m / pow10(k)) * pow10(k) == pow10(k) * (m / pow10(k))) by (nonlinear_arith);
    assert((2 * k) / 2 == k);
}

/// Where `start * 10^k + start` is below `n` (which has `2k` digits and
/// starts with the block `start`), no doubled number lies in
/// `[n, (start + 1) * 10^k + start + 1)`.
proof fn lemma_none_before_next(n: nat, k: nat, m: nat)
    requires
        k >= 1,
        num_digits(n) == 2 * k,
        (n / pow10(k)) * pow10(k) + n / pow10(k) < n,
        n <= m < (n / pow10(k) + 1) * pow10(k) + (n / pow10(k) + 1),
    ensures
        !is_doubled(m),
{
    let p = pow10(k);
    let start = n / p;
    lemma_pow10_pos(k);
    lemma_digits_bounds(n);
    lemma_pow10_add(k, k);
    assert(k + k == 2 * k);
    lemma_multiply_divide_lt(n as int, p as int, p as int);
    assert(start < p);
    if m < pow10(2 * k) {
        lemma_digits_unique(m, 2 * k);
        lemma_split_even(m, k);
        let q = m / p;
        lemma_div_is_ordered(n as int, m as int, p as int);
        if is_doubled(m) {
            if q == start {
            } else if q == start + 1 {
            } else {
                assert(q * p >= (start + 2) * p) by (nonlinear_arith)
                    requires
                        q >= start + 2,
                        p >= 1,
                ;
                assert((start + 2) * p == (start + 1) * p + p) by (nonlinear_arith);
            }
        }
    } else {
        assert((start + 1) * p + (start + 1) <= p * p + p) by (nonlinear_arith)
            requires
                start + 1 <= p,
        ;
        lemma_pow10_lt(k, 2 * k);
        lemma_pow10_add(2 * k, 1);
        assert(pow10(1) == 10) by {
            reveal_with_fuel(pow10, 2);
        }
        lemma_digits_unique(m, 2 * k + 1);
    }
}

/// Where `start * 10^k + start` is at least `n` (which has `2k` digits and
/// starts with the block `start`), no doubled number lies in between.
proof fn lemma_none_before_same(n: nat, k: nat, m: nat)
    requires
        k >= 1,
        num_digits(n) == 2 * k,
        n <= m < (n / pow10(k)) * pow10(k) + n / pow10(k),
    ensures
        !is_doubled(m),
{
    let p = pow10(k);
    let start = n / p;
    lemma_pow10_pos(k);
    lemma_digits_bounds(n);
    lemma_pow10_add(k, k);
    assert(k + k == 2 * k);
    lemma_multiply_divide_lt(n as int, p as int, p as int);
    assert(start * p + start < p * p) by (nonlinear_arith)
        requires
            start < p,
    ;
    lemma_digits_unique(m, 2 * k);
    lemma_split_even(m, k);
    lemma_div_is_ordered(n as int, m as int, p as int);
    assert(m < p * (start + 1)) by (nonlinear_arith)
        requires
            m < start * p + start,
            start < p,
    ;
    lemma_multiply_divide_lt(m as int, p as int, (start + 1) as int);
}

/// `10^k`.
fn pow10_u64(k: u64) -> (r: u64)
    requires
        k <= 19,
    ensures
        r == pow10(k as nat),
{
    assert(pow10(19) == 10000000000000000000) by {
        reveal_with_fuel(pow10, 20);
    }
    let mut r: u64 = 1;
    let mut i: u64 = 0;
    while i < k
        invariant
            i <= k <= 19,
            r == pow10(i as nat),
            pow10(19) == 10000000000000000000,
        decreases k - i,
    {
        proof {
            lemma_pow10_le((i + 1) as nat, 19);
        }
        r = r * 10;
        i = i + 1;
    }
    r
}

/// How many decimal digits write `i`.
pub fn count_digits(i: u64) -> (r: u64)
    ensures
        r == num_digits(i as nat),
{
    proof {
        reveal_with_fuel(pow10, 9);
        lemma_digits_bounds(i as nat);
        lemma_u64_digits(i);
    }
    let mut n: u64 = 1;
    let mut i = i;
    let ghost orig = i as nat;
    while i >= 100000000
        invariant
            num_digits(orig) == n - 1 + num_digits(i as nat),
            1 <= n,
            num_digits(i as nat) >= 1,
            num_digits(orig) <= 20,
            pow10(8) == 100000000,
        decreases i,
    {
        proof {
            lemma_digits_div(i as nat, 8);
            lemma_digits_bounds((i / 100000000) as nat);
        }
        n = n + 8;
        i = i / 100000000;
    }
    if i >= 10000 {
        proof {
            lemma_digits_div(i as nat, 4);
        }
        n = n + 4;
        i = i / 10000;
    }
    if i >= 100 {
        proof {
            lemma_digits_div(i as nat, 2);
        }
        n = n + 2;
        i = i / 100;
    }
    if i >= 10 {
        proof {
            lemma_digits_div(i as nat, 1);
        }
        n = n + 1;
    }
    n
}

/// The block sizes that a `u64` allows: a number of at most 20 digits, and
/// the bounds of its leading block.
proof fn lemma_u64_digits(n: u64)
    ensures
        num_digits(n as nat) <= 20,
        pow10(9) == 1000000000,
        pow10(10) == 10000000000,
        pow10(19) == 10000000000000000000,
{
    reveal_with_fuel(pow10, 21);
    lemma_digits_bounds(n as nat);
    let d = num_digits(n as nat);
    if d > 20 {
        lemma_pow10_le(20, (d - 1) as nat);
    }
}

/// The first block of a `u64` of 20 digits, and the doubled numbers that it
/// leads to, stay within `MAX_DOUBLED`.
proof fn lemma_max_block(n: u64, start: nat)
    requires
        n <= MAX_DOUBLED,
        start == n as nat / 10000000000,
    ensures
        start <= 1844674407,
        start * 10000000000 + start <= MAX_DOUBLED,
        start * 10000000000 + start < n ==> (start + 1) * 10000000000 + (start + 1)
            <= MAX_DOUBLED,
{
    lemma_fundamental_div_mod_converse(
        MAX_DOUBLED as int,
        10000000000,
        1844674407,
        1844674407,
    );
    lemma_div_is_ordered(n as int, MAX_DOUBLED as int, 10000000000);
    if start * 10000000000 + start < n {
        if start >= 1844674407 {
            assert(start * 10000000000 + start >= 1844674407 * 10000000000 + 1844674407)
                by (nonlinear_arith)
                requires
                    start >= 1844674407,
            ;
        }
    }
}

/// The smallest doubled number that is at least `n`.
pub fn next_2_repeat(n: u64) -> (r: u64)
    requires
        n <= MAX_DOUBLED,
    ensures
        r >= n,
        is_doubled(r as nat),
        forall|m: nat| n <= m < r ==> !is_doubled(m),
    decreases u64::MAX - n,
{
    let digits = count_digits(n);
    proof {
        lemma_digits_bounds(n as nat);
        lemma_u64_digits(n);
    }
    if digits % 2 == 1 {
        let next = pow10_u64(digits);
        proof {
            assert forall|m: nat| n <= m < next implies !is_doubled(m) by {
                lemma_none_up_to_odd(n as nat, m);
            }
            lemma_pow10_le(digits as nat, 19);
        }
        let r = next_2_repeat(next);
        return r;
    }
    let k = digits / 2;
    let fac = pow10_u64(k);
    proof {
        lemma_pow10_pos(k as nat);
    }
    let start = n / fac;
    proof {
        lemma_fundamental_div_mod(n as int, fac as int);
        assert(n < (start + 1) * fac) by (nonlinear_arith)
            requires
                n == fac * start + n % fac,
                n % fac < fac,
        ;
        lemma_pow10_add(k as nat, k as nat);
        lemma_pow10_add((k - 1) as nat, k as nat);
        assert(k + k == digits);
        assert((k - 1) + k == digits - 1);
        lemma_multiply_divide_lt(n as int, fac as int, fac as int);
        assert(pow10((k - 1) as nat) * fac <= n);
        lemma_div_is_ordered((pow10((k - 1) as nat) * fac) as int, n as int, fac as int);
        vstd::arithmetic::div_mod::lemma_div_by_multiple(pow10((k - 1) as nat) as int, fac as int);
        if k == 10 {
            lemma_max_block(n, start as nat);
        } else {
            lemma_pow10_le(k as nat, 9);
            assert(start * fac + start < 1000000000 * 1000000000 + 1000000000) by (nonlinear_arith)
                requires
                    start < fac,
                    fac <= 1000000000,
            ;
        }
    }
    let attempt = start * fac + start;
    if attempt >= n {
        proof {
            assert forall|m: nat| n <= m < attempt implies !is_doubled(m) by {
                lemma_none_before_same(n as nat, k as nat, m);
            }
            lemma_doubled_of(start as nat, k as nat);
        }
        attempt
    } else {
        proof {
            if k != 10 {
                assert((start + 1) * fac + (start + 1) <= 1000000000 * 1000000000 + 1000000000)
                    by (nonlinear_arith)
                    requires
                        start < fac,
                        fac <= 1000000000,
                ;
            }
        }
        let c = (start + 1) * fac + (start + 1);
        proof {
            assert forall|m: nat| n <= m < c implies !is_doubled(m) by {
                lemma_none_before_next(n as nat, k as nat, m);
            }
        }
        next_2_repeat(c)
    }
}

/// The doubled numbers in `[lo, hi]`, in increasing order.
pub open spec fn doubled_upto(lo: int, hi: int) -> Seq<u64>
    decreases hi - lo + 1,
{
    if hi < lo {
        Seq::empty()
    } else if is_doubled(hi as nat) {
        doubled_upto(lo, hi - 1).push(hi as u64)
    } else {
        doubled_upto(lo, hi - 1)
    }
}

/// Where `[a, b]` holds no doubled number, `doubled_upto` gains nothing over it.
proof fn lemma_upto_skip(lo: int, a: int, b: int)
    requires
        0 <= lo <= a,
        a - 1 <= b,
        forall|m: nat| a <= m <= b ==> !is_doubled(m),
    ensures
        doubled_upto(lo, b) == doubled_upto(lo, a - 1),
    decreases b - a + 1,
{
    if b >= a {
        assert(!is_doubled(b as nat));
        lemma_upto_skip(lo, a, b - 1);
    }
}

/// Every doubled `u64` is at most `MAX_DOUBLED`.
proof fn lemma_doubled_le_max(m: u64)
    requires
        is_doubled(m as nat),
    ensures
        m <= MAX_DOUBLED,
{
    lemma_u64_digits(m);
    lemma_digits_bounds(m as nat);
    let d = num_digits(m as nat);
    if d <= 19 {
        lemma_pow10_le(d, 19);
    } else {
        assert(d == 20);
        lemma_split_even(m as nat, 10);
        let q = m as nat / 10000000000;
        if q >= 1844674408 {
            assert(q * 10000000000 + q >= 1844674408 * 10000000000) by (nonlinear_arith)
                requires
                    q >= 1844674408,
            ;
        }
    }
}

/// The doubled numbers in the range `r`, in increasing order.
pub fn collect_repeats(r: (u64, u64)) -> (out: Vec<u64>)
    ensures
        out@ == doubled_upto(r.0 as int, r.1 as int),
{
    let (lo, hi) = r;
    let mut rs: Vec<u64> = Vec::new();
    if lo > hi {
        return rs;
    }
    let mut n = lo;
    loop
        invariant
            lo == r.0,
            hi == r.1,
            lo <= n <= hi + 1,
            rs@ == doubled_upto(lo as int, n - 1),
        decreases u64::MAX - n,
    {
        if n > MAX_DOUBLED {
            proof {
                assert forall|m: nat| n <= m <= hi implies !is_doubled(m) by {
                    if is_doubled(m) {
                        lemma_doubled_le_max(m as u64);
                    }
                }
                lemma_upto_skip(lo as int, n as int, hi as int);
            }
            return rs;
        }
        let m = next_2_repeat(n);
        if m > hi {
            proof {
                lemma_upto_skip(lo as int, n as int, hi as int);
            }
            return rs;
        }
        proof {
            lemma_upto_skip(lo as int, n as int, m - 1);
            lemma_doubled_le_max(m);
        }
        rs.push(m);
        n = m + 1;
    }
}

/// The number that the block `b` written `m` times over makes, where each
/// block takes the room of a factor `f`.
pub open spec fn repeat_block(b: nat, f: nat, m: nat) -> nat
    decreases m,
{
    if m == 0 {
        0
    } else {
        repeat_block(b, f, (m - 1) as nat) * f + b
    }
}

/// `i` is a block of digits written `m` times over: its count of digits is a
/// multiple of `m`, and it equals its leading block written `m` times.
pub open spec fn is_repeat(i: nat, m: nat) -> bool {
    let d = num_digits(i);
    let k = d / m;
    &&& m >= 1
    &&& d % m == 0
    &&& i == repeat_block(i / pow10((d - k) as nat), pow10(k), m)
}

proof fn lemma_repeat_grows(b: nat, f: nat, j: nat, m: nat)
    requires
        f >= 1,
        j <= m,
    ensures
        repeat_block(b, f, j) <= repeat_block(b, f, m),
    decreases m - j,
{
    if j < m {
        lemma_repeat_grows(b, f, j, (m - 1) as nat);
        let x = repeat_block(b, f, (m - 1) as nat);
        assert(x * f >= x) by (nonlinear_arith)
            requires
                f >= 1,
        ;
    }
}

proof fn lemma_is_repeat(i: nat, m: nat, k: nat)
    requires
        m >= 1,
        num_digits(i) % m == 0,
        k == num_digits(i) / m,
    ensures
        is_repeat(i, m) == (i == repeat_block(
            i / pow10((num_digits(i) - k) as nat),
            pow10(k),
            m,
        )),
{
}

proof fn lemma_repeat_one(b: nat, f: nat)
    ensures
        repeat_block(b, f, 1) == b,
{
    reveal_with_fuel(repeat_block, 2);
    assert(repeat_block(b, f, 0) == 0);
    assert(0 * f == 0);
}

/// Whether `i` is a block of digits written `repeats` times over.
pub fn is_n_repeat(i: u64, repeats: u64) -> (r: bool)
    requires
        repeats >= 1,
    ensures
        r == is_repeat(i as nat, repeats as nat),
{
    let d = count_digits(i);
    proof {
        lemma_u64_digits(i);
        lemma_digits_bounds(i as nat);
    }
    if d % repeats != 0 {
        return false;
    }
    let k = d / repeats;
    assert(num_digits(i as nat) % (repeats as nat) == 0);
    assert(num_digits(i as nat) / (repeats as nat) == k);
    proof {
        vstd::arithmetic::div_mod::lemma_fundamental_div_mod(d as int, repeats as int);
        if k == 0 {
            assert(d == repeats * k + d % repeats);
            assert(repeats * 0 == 0);
        }
        assert(k <= d) by (nonlinear_arith)
            requires
                d == repeats * k,
                repeats >= 1,
        ;
    }
    let p = pow10_u64(d - k);
    proof {
        lemma_pow10_pos((d - k) as nat);
    }
    let base = i / p;
    if repeats == 1 {
        proof {
            assert(k == d);
            assert(pow10(0) == 1);
            assert(p == 1);
            lemma_fundamental_div_mod_converse(i as int, 1, i as int, 0);
            assert(base == i);
            lemma_repeat_one(base as nat, pow10(k as nat));
            lemma_is_repeat(i as nat, repeats as nat, k as nat);
        }
        return true;
    }
    proof {
        assert(k <= 10) by (nonlinear_arith)
            requires
                d == repeats * k,
                repeats >= 2,
                d <= 20,
        ;
        lemma_pow10_le(k as nat, 19);
    }
    let fac = pow10_u64(k);
    proof {
        lemma_pow10_pos(k as nat);
    }
    let mut res = base;
    let mut j: u64 = 1;
    proof {
        lemma_repeat_one(base as nat, fac as nat);
        lemma_is_repeat(i as nat, repeats as nat, k as nat);
    }
    while j < repeats
        invariant
            1 <= j <= repeats,
            fac as nat == pow10(k as nat),
            fac >= 1,
            res as nat == repeat_block(base as nat, fac as nat, j as nat),
            is_repeat(i as nat, repeats as nat) == (i as nat == repeat_block(
                base as nat,
                fac as nat,
                repeats as nat,
            )),
        decreases repeats - j,
    {
        match res.checked_mul(fac) {
            Some(x) => match x.checked_add(base) {
                Some(y) => {
                    res = y;
                },
                None => {
                    proof {
                        lemma_repeat_grows(base as nat, fac as nat, (j + 1) as nat, repeats as nat);
                        assert(repeat_block(base as nat, fac as nat, (j + 1) as nat) > u64::MAX);
                    }
                    return false;
                },
            },
            None => {
                proof {
                    lemma_repeat_grows(base as nat, fac as nat, (j + 1) as nat, repeats as nat);
                    assert(repeat_block(base as nat, fac as nat, (j + 1) as nat) == res * fac + base);
                    assert(repeat_block(base as nat, fac as nat, (j + 1) as nat) > u64::MAX);
                }
                return false;
            },
        }
        j = j + 1;
    }
    res == i
}

/// The numbers in `[lo, hi]` that are a block written `m` times over, in
/// increasing order.
pub open spec fn repeats_upto(lo: int, hi: int, m: nat) -> Seq<u64>
    decreases hi - lo + 1,
{
    if hi < lo {
        Seq::empty()
    } else if is_repeat(hi as nat, m) {
        repeats_upto(lo, hi - 1, m).push(hi as u64)
    } else {
        repeats_upto(lo, hi - 1, m)
    }
}

/// `i` is some block written between 2 and `top` times over.
pub open spec fn is_any_repeat(i: nat, top: nat) -> bool {
    exists|m: nat| 2 <= m <= top && is_repeat(i, m)
}

/// The numbers in `[lo, hi]` that are a block written between 2 and `top`
/// times over, in increasing order.
pub open spec fn any_repeats_upto(lo: int, hi: int, top: nat) -> Seq<u64>
    decreases hi - lo + 1,
{
    if hi < lo {
        Seq::empty()
    } else if is_any_repeat(hi as nat, top) {
        any_repeats_upto(lo, hi - 1, top).push(hi as u64)
    } else {
        any_repeats_upto(lo, hi - 1, top)
    }
}

/// The numbers in the range `r` that are a block written `repeats` times
/// over, in increasing order.
pub fn n_repeats(r: &(u64, u64), repeats: u64) -> (out: Vec<u64>)
    requires
        repeats >= 1,
    ensures
        out@ == repeats_upto(r.0 as int, r.1 as int, repeats as nat),
{
    let (lo, hi) = *r;
    let mut outs: Vec<u64> = Vec::new();
    if lo > hi {
        return outs;
    }
    let mut i = lo;
    loop
        invariant
            lo == r.0,
            hi == r.1,
            lo <= i <= hi,
            repeats >= 1,
            outs@ == repeats_upto(lo as int, i - 1, repeats as nat),
        decreases hi - i,
    {
        if is_n_repeat(i, repeats) {
            outs.push(i);
        }
        assert(outs@ == repeats_upto(lo as int, i as int, repeats as nat));
        if i == hi {
            return outs;
        }
        i = i + 1;
    }
}

/// Whether `i` is a block written between 2 and `top` times over.
fn is_any_repeat_exec(i: u64, top: u64) -> (r: bool)
    requires
        top <= 20,
    ensures
        r == is_any_repeat(i as nat, top as nat),
{
    let mut m: u64 = 2;
    while m <= top
        invariant
            2 <= m <= top + 1 || m == 2,
            top <= 20,
            forall|j: nat| 2 <= j < m ==> !is_repeat(i as nat, j),
        decreases top + 1 - m,
    {
        if is_n_repeat(i, m) {
            assert(2 <= m <= top && is_repeat(i as nat, m as nat));
            return true;
        }
        m = m + 1;
    }
    false
}

/// The numbers in the range `r` that are a block written between 2 and (the
/// digit count of its upper end) times over, in increasing order.
pub fn any_repeats(r: (u64, u64)) -> (out: Vec<u64>)
    ensures
        out@ == any_repeats_upto(r.0 as int, r.1 as int, num_digits(r.1 as nat)),
{
    let (lo, hi) = r;
    let top = count_digits(hi);
    proof {
        lemma_u64_digits(hi);
    }
    let mut outs: Vec<u64> = Vec::new();
    if lo > hi {
        return outs;
    }
    let mut i = lo;
    loop
        invariant
            lo == r.0,
            hi == r.1,
            lo <= i <= hi,
            top == num_digits(hi as nat),
            top <= 20,
            outs@ == any_repeats_upto(lo as int, i - 1, top as nat),
        decreases hi - i,
    {
        if is_any_repeat_exec(i, top) {
            outs.push(i);
        }
        assert(outs@ == any_repeats_upto(lo as int, i as int, top as nat));
        if i == hi {
            return outs;
        }
        i = i + 1;
    }
}

/// The range that one piece `a-b` names: split at its first `-`, both sides
/// read as `u64`.
pub open spec fn range_of(q: Seq<u8>) -> Option<(u64, u64)> {
    match find(q, 45) {
        Some(k) => match (u64_of(q.take(k as int)), u64_of(q.skip(k + 1 as int))) {
            (Some(a), Some(b)) => Some((a, b)),
            _ => None,
        },
        None => None,
    }
}

/// The ranges that the pieces name, each piece trimmed; a piece that names
/// none is passed over.
pub open spec fn ranges_of(ps: Seq<Seq<u8>>) -> Seq<(u64, u64)>
    decreases ps.len(),
{
    if ps.len() == 0 {
        Seq::empty()
    } else {
        let r = ranges_of(ps.drop_last());
        match range_of(trim(ps.last())) {
            Some(x) => r.push(x),
            None => r,
        }
    }
}

/// The ranges of a comma-separated list such as `11-22,95-115`.
pub open spec fn spec_parse(input: Seq<u8>) -> Seq<(u64, u64)> {
    ranges_of(split(trim(input), 44))
}

pub open spec fn sum_of(s: Seq<u64>) -> nat
    decreases s.len(),
{
    if s.len() == 0 {
        0
    } else {
        sum_of(s.drop_last()) + s.last() as nat
    }
}

/// `v` as a `u64`, where it fits.
pub open spec fn fit(v: nat) -> Option<u64> {
    if v <= u64::MAX {
        Some(v as u64)
    } else {
        None
    }
}

/// The sum of the doubled numbers in all ranges.
pub open spec fn total_doubled(rs: Seq<(u64, u64)>) -> nat
    decreases rs.len(),
{
    if rs.len() == 0 {
        0
    } else {
        total_doubled(rs.drop_last()) + sum_of(
            doubled_upto(rs.last().0 as int, rs.last().1 as int),
        )
    }
}

/// The sum of the numbers in all ranges that are a block written at least
/// twice.
pub open spec fn total_repeated(rs: Seq<(u64, u64)>) -> nat
    decreases rs.len(),
{
    if rs.len() == 0 {
        0
    } else {
        total_repeated(rs.drop_last()) + sum_of(
            any_repeats_upto(
                rs.last().0 as int,
                rs.last().1 as int,
                num_digits(rs.last().1 as nat),
            ),
        )
    }
}

proof fn lemma_sum_prefix(s: Seq<u64>, j: int)
    requires
        0 <= j <= s.len(),
    ensures
        sum_of(s.take(j)) <= sum_of(s),
    decreases s.len(),
{
    if j < s.len() {
        assert(s.drop_last().take(j) =~= s.take(j));
        lemma_sum_prefix(s.drop_last(), j);
    } else {
        assert(s.take(j) =~= s);
    }
}

proof fn lemma_totals_prefix(rs: Seq<(u64, u64)>, j: int)
    requires
        0 <= j <= rs.len(),
    ensures
        total_doubled(rs.take(j)) <= total_doubled(rs),
        total_repeated(rs.take(j)) <= total_repeated(rs),
    decreases rs.len(),
{
    if j < rs.len() {
        assert(rs.drop_last().take(j) =~= rs.take(j));
        lemma_totals_prefix(rs.drop_last(), j);
    } else {
        assert(rs.take(j) =~= rs);
    }
}

/// The sum of `v`, where it fits in a `u64`.
pub fn sum_vec(v: &Vec<u64>) -> (r: Option<u64>)
    ensures
        r == fit(sum_of(v@)),
{
    let mut acc: u64 = 0;
    let mut i: usize = 0;
    while i < v.len()
        invariant
            i <= v@.len(),
            acc as nat == sum_of(v@.take(i as int)),
        decreases v@.len() - i,
    {
        assert(v@.take(i + 1).drop_last() =~= v@.take(i as int));
        match acc.checked_add(v[i]) {
            Some(x) => {
                acc = x;
            },
            None => {
                proof {
                    lemma_sum_prefix(v@, i + 1);
                }
                return None;
            },
        }
        i = i + 1;
    }
    assert(v@.take(i as int) =~= v@);
    Some(acc)
}

/// The ranges of a comma-separated list such as `11-22,95-115`; a piece
/// that is not two numbers joined by `-` is passed over.
pub fn parse(input: &str) -> (r: Vec<(u64, u64)>)
    ensures
        r@ == spec_parse(input.spec_bytes()),
{
    let s = input.as_bytes();
    let (lo, hi) = trim_span(s, 0, s.len());
    assert(s@.subrange(0, s@.len() as int) =~= s@);
    let sp = split_spans(s, lo, hi, 44);
    let ghost ps = pieces(s@, sp@);
    let mut out: Vec<(u64, u64)> = Vec::new();
    let mut i: usize = 0;
    while i < sp.len()
        invariant
            i <= sp@.len(),
            ps == pieces(s@, sp@),
            ps == split(trim(s@), 44),
            spans_within(sp@, lo as int, hi as int),
            hi <= s@.len(),
            out@ == ranges_of(ps.take(i as int)),
        decreases sp@.len() - i,
    {
        assert(ps.take(i + 1).drop_last() =~= ps.take(i as int));
        let (a, b) = sp[i];
        assert(ps[i as int] == s@.subrange(a as int, b as int));
        let (a2, b2) = trim_span(s, a, b);
        let ghost q = s@.subrange(a2 as int, b2 as int);
        let ghost prev = out@;
        assert(ps.take(i + 1).last() == ps[i as int]);
        assert(trim(ps.take(i + 1).last()) == q);
        match find_byte(s, a2, b2, 45) {
            Some(k) => {
                assert(find(q, 45) == Some((k - a2) as nat));
                assert(q.take(k - a2) =~= s@.subrange(a2 as int, k as int));
                assert(q.skip(k - a2 + 1) =~= s@.subrange(k + 1, b2 as int));
                let x = parse_u64(s, a2, k);
                let y = parse_u64(s, k + 1, b2);
                match (x, y) {
                    (Some(x), Some(y)) => {
                        assert(range_of(q) == Some((x, y)));
                        out.push((x, y));
                    },
                    _ => {
                        assert(range_of(q).is_none());
                    },
                }
            },
            None => {
                assert(range_of(q).is_none());
            },
        }
        i = i + 1;
    }
    assert(ps.take(i as int) =~= ps);
    out
}

/// Day 2: sums of the repeated-block numbers within ranges.
pub struct Day2 {

}

impl Day for Day2 {
    type Output = u64;

    /// The sum of the doubled numbers in all ranges.
    open spec fn spec_part1(input: &str) -> Option<u64> {
        fit(total_doubled(spec_parse(input.spec_bytes())))
    }

    /// The sum of the numbers in all ranges that are a block written twice or
    /// more.
    open spec fn spec_part2(input: &str) -> Option<u64> {
        fit(total_repeated(spec_parse(input.spec_bytes())))
    }

    fn part1(input: &str) -> (r: Option<u64>) {
        let rs = parse(input);
        let mut acc: u64 = 0;
        let mut i: usize = 0;
        while i < rs.len()
            invariant
                i <= rs@.len(),
                rs@ == spec_parse(input.spec_bytes()),
                acc as nat == total_doubled(rs@.take(i as int)),
            decreases rs@.len() - i,
        {
            assert(rs@.take(i + 1).drop_last() =~= rs@.take(i as int));
            let v = collect_repeats(rs[i]);
            proof {
                lemma_totals_prefix(rs@, i + 1);
            }
            match sum_vec(&v) {
                Some(x) => match acc.checked_add(x) {
                    Some(y) => {
                        acc = y;
                    },
                    None => {
                        return None;
                    },
                },
                None => {
                    return None;
                },
            }
            i = i + 1;
        }
        assert(rs@.take(i as int) =~= rs@);
        Some(acc)
    }

    fn part2(input: &str) -> (r: Option<u64>) {
        let rs = parse(input);
        let mut acc: u64 = 0;
        let mut i: usize = 0;
        while i < rs.len()
            invariant
                i <= rs@.len(),
                rs@ == spec_parse(input.spec_bytes()),
                acc as nat == total_repeated(rs@.take(i as int)),
            decreases rs@.len() - i,
        {
            assert(rs@.take(i + 1).drop_last() =~= rs@.take(i as int));
            let v = any_repeats(rs[i]);
            proof {
                lemma_totals_prefix(rs@, i + 1);
            }
            match sum_vec(&v) {
                Some(x) => match acc.checked_add(x) {
                    Some(y) => {
                        acc = y;
                    },
                    None => {
                        return None;
                    },
                },
                None => {
                    return None;
                },
            }
            i = i + 1;
        }
        assert(rs@.take(i as int) =~= rs@);
        Some(acc)
    }
}

} // verus!
