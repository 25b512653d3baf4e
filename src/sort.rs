//! Sorting triples of integers into increasing order, and the one sequence
//! that such a sort can give.
use vstd::prelude::*;

verus! {

/// The order of `(u64, usize, usize)` that std's `Ord` on tuples gives:
/// lexicographic.
pub open spec fn triple_lt(a: (u64, usize, usize), b: (u64, usize, usize)) -> bool {
    a.0 < b.0 || (a.0 == b.0 && (a.1 < b.1 || (a.1 == b.1 && a.2 < b.2)))
}

/// Each element is below the next.
pub open spec fn increasing(s: Seq<(u64, usize, usize)>) -> bool {
    forall|i: int, j: int| 0 <= i < j < s.len() ==> triple_lt(#[trigger] s[i], #[trigger] s[j])
}

pub open spec fn distinct(s: Seq<(u64, usize, usize)>) -> bool {
    forall|i: int, j: int| 0 <= i < j < s.len() ==> #[trigger] s[i] != #[trigger] s[j]
}

/// `a` and `b` hold the same elements.
pub open spec fn same_elems(a: Seq<(u64, usize, usize)>, b: Seq<(u64, usize, usize)>) -> bool {
    forall|x: (u64, usize, usize)| a.contains(x) <==> b.contains(x)
}

/// The elements of `s` in increasing order.
pub open spec fn sorted(s: Seq<(u64, usize, usize)>) -> Seq<(u64, usize, usize)> {
    choose|t: Seq<(u64, usize, usize)>| increasing(t) && same_elems(t, s)
}

/// Relies on `slice::sort_unstable`, which puts a slice in the order of its
/// elements' `Ord` (for tuples, lexicographic) and keeps the elements; of
/// elements that are all different the result is increasing.
#[verifier::external_body]
pub fn sort_triples(v: &mut Vec<(u64, usize, usize)>)
    requires
        distinct(old(v)@),
    ensures
        final(v)@.len() == old(v)@.len(),
        same_elems(final(v)@, old(v)@),
        increasing(final(v)@),
{
    v.sort_unstable();
}

proof fn lemma_lt_asym(a: (u64, usize, usize), b: (u64, usize, usize))
    ensures
        !(triple_lt(a, b) && triple_lt(b, a)),
        !triple_lt(a, a),
{
}

/// Two increasing sequences with the same elements are equal.
pub proof fn lemma_increasing_unique(a: Seq<(u64, usize, usize)>, b: Seq<(u64, usize, usize)>)
    requires
        increasing(a),
        increasing(b),
        same_elems(a, b),
    ensures
        a == b,
    decreases a.len() + b.len(),
{
    if a.len() == 0 {
        if b.len() > 0 {
            assert(b.contains(b[0]));
        }
        assert(a =~= b);
    } else if b.len() == 0 {
        assert(a.contains(a[0]));
    } else {
        assert(a.contains(a[0]));
        assert(b.contains(b[0]));
        let j = choose|j: int| 0 <= j < b.len() && b[j] == a[0];
        let i = choose|i: int| 0 <= i < a.len() && a[i] == b[0];
        if j > 0 {
            assert(triple_lt(b[0], b[j]));
            if i > 0 {
                assert(triple_lt(a[0], a[i]));
                lemma_lt_asym(a[0], b[0]);
            } else {
                lemma_lt_asym(a[0], a[0]);
            }
        }
        assert(a[0] == b[0]);
        let a2 = a.drop_first();
        let b2 = b.drop_first();
        assert forall|x: (u64, usize, usize)| a2.contains(x) <==> b2.contains(x) by {
            if a2.contains(x) {
                let p = choose|p: int| 0 <= p < a2.len() && a2[p] == x;
                assert(a.contains(x)) by {
                    assert(a[p + 1] == x);
                }
                let q = choose|q: int| 0 <= q < b.len() && b[q] == x;
                assert(triple_lt(a[0], a[p + 1]));
                if q == 0 {
                    lemma_lt_asym(a[0], a[0]);
                }
                assert(b2[q - 1] == x);
            }
            if b2.contains(x) {
                let p = choose|p: int| 0 <= p < b2.len() && b2[p] == x;
                assert(b.contains(x)) by {
                    assert(b[p + 1] == x);
                }
                let q = choose|q: int| 0 <= q < a.len() && a[q] == x;
                assert(triple_lt(b[0], b[p + 1]));
                if q == 0 {
                    lemma_lt_asym(b[0], b[0]);
                }
                assert(a2[q - 1] == x);
            }
        }
        lemma_increasing_unique(a2, b2);
        assert(a =~= seq![a[0]] + a2);
        assert(b =~= seq![b[0]] + b2);
    }
}

/// What `sort_triples` gives is `sorted` of what it was given.
pub proof fn lemma_sorted_is(t: Seq<(u64, usize, usize)>, s: Seq<(u64, usize, usize)>)
    requires
        increasing(t),
        same_elems(t, s),
    ensures
        sorted(s) == t,
{
    let c = sorted(s);
    assert(increasing(c) && same_elems(c, s));
    lemma_increasing_unique(c, t);
}

} // verus!
