//! Facts about sequences as multisets: exchanging two places is a
//! permutation, a permutation keeps pointwise facts about the values, and a
//! permutation of a window is a permutation of the whole.

use vstd::prelude::*;
use vstd::seq_lib::group_to_multiset_ensures;
use vstd::seq_lib::lemma_multiset_commutative;

verus! {

/// The sequence `s` with the values at places `a` and `b` exchanged.
pub open spec fn swapped<T>(s: Seq<T>, a: int, b: int) -> Seq<T> {
    s.update(a, s[b]).update(b, s[a])
}

/// Exchanging two places keeps the multiset of the sequence.
pub proof fn lemma_swap_to_multiset<T>(s: Seq<T>, a: int, b: int)
    requires
        0 <= a < s.len(),
        0 <= b < s.len(),
    ensures
        swapped(s, a, b).to_multiset() == s.to_multiset(),
{
    broadcast use group_to_multiset_ensures;
    broadcast use vstd::multiset::group_multiset_axioms;
    broadcast use vstd::multiset::group_multiset_properties;

    if a == b {
        assert(swapped(s, a, b) =~= s);
    } else {
        assert(s.contains(s[a]));
        assert(s.contains(s[b]));
        assert(swapped(s, a, b).to_multiset() =~= s.to_multiset());
    }
}

/// Exchanging two places inside a window keeps the window's multiset, and
/// the whole sequence's multiset, and touches nothing outside the window.
pub proof fn lemma_swap_window_multiset<T>(s: Seq<T>, lo: int, hi: int, a: int, b: int)
    requires
        0 <= lo <= a < hi <= s.len(),
        lo <= b < hi,
    ensures
        swapped(s, a, b).subrange(lo, hi).to_multiset() == s.subrange(lo, hi).to_multiset(),
        swapped(s, a, b).to_multiset() == s.to_multiset(),
{
    lemma_swap_to_multiset(s, a, b);
    let t = s.subrange(lo, hi);
    assert(swapped(s, a, b).subrange(lo, hi) =~= swapped(t, a - lo, b - lo));
    lemma_swap_to_multiset(t, a - lo, b - lo);
}

/// A fact that holds of every value of a sequence holds of every value of
/// any rearrangement of it.
pub proof fn lemma_multiset_pointwise<T>(s1: Seq<T>, s2: Seq<T>, pred: spec_fn(T) -> bool)
    requires
        s1.to_multiset() == s2.to_multiset(),
        forall|i: int| 0 <= i < s1.len() ==> pred(#[trigger] s1[i]),
    ensures
        forall|i: int| 0 <= i < s2.len() ==> pred(#[trigger] s2[i]),
{
    broadcast use group_to_multiset_ensures;

    assert forall|i: int| 0 <= i < s2.len() implies pred(s2[i]) by {
        assert(s2.contains(s2[i]));
        assert(s2.to_multiset().count(s2[i]) > 0);
        assert(s1.contains(s2[i]));
        let j = choose|j: int| 0 <= j < s1.len() && s1[j] == s2[i];
        assert(pred(s1[j]));
    }
}

/// Two sequences that agree outside a window and whose windows hold the same
/// multiset are rearrangements of one another, as is any prefix that covers
/// the window.
pub proof fn lemma_window_multiset_extends<T>(s1: Seq<T>, s2: Seq<T>, lo: int, hi: int)
    requires
        s1.len() == s2.len(),
        0 <= lo <= hi <= s1.len(),
        forall|i: int| 0 <= i < lo ==> s1[i] == #[trigger] s2[i],
        forall|i: int| hi <= i < s1.len() ==> s1[i] == #[trigger] s2[i],
        s1.subrange(lo, hi).to_multiset() == s2.subrange(lo, hi).to_multiset(),
    ensures
        s1.subrange(0, hi).to_multiset() == s2.subrange(0, hi).to_multiset(),
        s1.to_multiset() == s2.to_multiset(),
{
    assert(s1.subrange(0, lo) =~= s2.subrange(0, lo));
    assert(s1.subrange(hi, s1.len() as int) =~= s2.subrange(hi, s2.len() as int));
    assert(s1.subrange(0, hi) =~= s1.subrange(0, lo) + s1.subrange(lo, hi));
    assert(s2.subrange(0, hi) =~= s2.subrange(0, lo) + s2.subrange(lo, hi));
    lemma_multiset_commutative(s1.subrange(0, lo), s1.subrange(lo, hi));
    lemma_multiset_commutative(s2.subrange(0, lo), s2.subrange(lo, hi));
    assert(s1.subrange(0, hi).to_multiset() == s2.subrange(0, hi).to_multiset());
    assert(s1 =~= s1.subrange(0, hi) + s1.subrange(hi, s1.len() as int));
    assert(s2 =~= s2.subrange(0, hi) + s2.subrange(hi, s2.len() as int));
    lemma_multiset_commutative(s1.subrange(0, hi), s1.subrange(hi, s1.len() as int));
    lemma_multiset_commutative(s2.subrange(0, hi), s2.subrange(hi, s2.len() as int));
}

} // verus!
