//! Ascending order on sequences of numbers.
//!
//! A list of numbers stands for a multiset. Its ascending arrangement is the
//! one representative that every list with the same numbers shares.

use vstd::prelude::*;
use vstd::seq_lib::{
    group_to_multiset_ensures, lemma_sorted_unique, to_multiset_build, to_multiset_insert,
};

verus! {

/// The order `<=` on `u32`, as a relation.
pub open spec fn ascending() -> spec_fn(u32, u32) -> bool {
    |a: u32, b: u32| a <= b
}

/// No number of `s` is followed by a smaller one.
pub open spec fn is_sorted(s: Seq<u32>) -> bool {
    forall|i: int, j: int| 0 <= i <= j < s.len() ==> s[i] <= s[j]
}

/// The numbers of `s` in ascending order.
pub open spec fn canonical(s: Seq<u32>) -> Seq<u32> {
    s.sort_by(ascending())
}

/// The ascending arrangement is sorted and holds the same numbers, each as
/// often as the sequence it was made from.
pub proof fn law_canonical(s: Seq<u32>)
    ensures
        is_sorted(canonical(s)),
        canonical(s).to_multiset() == s.to_multiset(),
        canonical(s).len() == s.len(),
{
    broadcast use group_to_multiset_ensures;

    s.lemma_sort_by_ensures(ascending());
    let c = canonical(s);
    assert forall|i: int, j: int| 0 <= i <= j < c.len() implies c[i] <= c[j] by {
        if i < j {
            assert(ascending()(c[i], c[j]));
        }
    }
    assert(c.to_multiset().len() == s.to_multiset().len());
}

/// Two sorted sequences that hold the same numbers equally often are equal:
/// the order of a sorted sequence carries no information of its own.
pub proof fn law_sorted_unique(a: Seq<u32>, b: Seq<u32>)
    requires
        is_sorted(a),
        is_sorted(b),
        a.to_multiset() == b.to_multiset(),
    ensures
        a == b,
{
    lemma_sorted_unique(a, b, ascending());
}

/// A sorted sequence with the numbers of `s` is the ascending arrangement of `s`.
pub proof fn lemma_sorted_is_canonical(s: Seq<u32>, t: Seq<u32>)
    requires
        is_sorted(t),
        t.to_multiset() == s.to_multiset(),
    ensures
        t == canonical(s),
{
    law_canonical(s);
    law_sorted_unique(t, canonical(s));
}

/// Sequences with the same numbers have the same ascending arrangement: the
/// order in which the numbers are given makes no difference.
pub proof fn law_canonical_of_permutation(s: Seq<u32>, t: Seq<u32>)
    requires
        s.to_multiset() == t.to_multiset(),
    ensures
        canonical(s) == canonical(t),
{
    law_canonical(s);
    lemma_sorted_is_canonical(t, canonical(s));
}

/// Sorts by insertion: each number goes behind the numbers not larger than it.
pub fn sort_ascending(v: Vec<u32>) -> (r: Vec<u32>)
    ensures
        r@ == canonical(v@),
        is_sorted(r@),
        r@.to_multiset() == v@.to_multiset(),
        r@.len() == v@.len(),
{
    let mut out: Vec<u32> = Vec::with_capacity(v.len());
    let mut i: usize = 0;
    assert(out@ == v@.take(0));
    while i < v.len()
        invariant
            i <= v.len(),
            is_sorted(out@),
            out@.to_multiset() == v@.take(i as int).to_multiset(),
        decreases v.len() - i,
    {
        let x = v[i];
        let mut k: usize = 0;
        while k < out.len() && out[k] <= x
            invariant
                k <= out.len(),
                forall|m: int| 0 <= m < k ==> out@[m] <= x,
            decreases out.len() - k,
        {
            k += 1;
        }
        let ghost before = out@;
        assert(is_sorted(before.insert(k as int, x)));
        out.insert(k, x);
        proof {
            let seen = v@.take(i as int);
            assert(v@.take(i + 1) == seen.push(x));
            to_multiset_insert(before, k as int, x);
            to_multiset_build(seen, x);
        }
        i += 1;
    }
    proof {
        assert(v@.take(v.len() as int) == v@);
        lemma_sorted_is_canonical(v@, out@);
        law_canonical(v@);
    }
    out
}

} // verus!
