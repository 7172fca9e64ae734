//! The ordering vocabulary: which relations a comparator stands for, the
//! consistency the algorithm assumes of them, and the shape of a partially
//! sorted sequence.

use std::cmp::Ordering;

use vstd::prelude::*;
use vstd::relations::total_ordering;

verus! {

/// The comparator may be called on any pair of references.
pub open spec fn cmp_callable<T, F: Fn(&T, &T) -> bool>(f: F) -> bool {
    forall|a: &T, b: &T| #[trigger] call_requires(f, (a, b))
}

/// The three-way comparator may be called on any pair of references.
pub open spec fn ord_cmp_callable<T, F: Fn(&T, &T) -> Ordering>(f: F) -> bool {
    forall|a: &T, b: &T| #[trigger] call_requires(f, (a, b))
}

/// The three-way comparator stands for the relation `lt`: its contract
/// allows `Ordering::Less` on a pair of references exactly when `lt` holds
/// of the two values.
pub open spec fn ord_cmp_denotes<T, F: Fn(&T, &T) -> Ordering>(
    f: F,
    lt: spec_fn(T, T) -> bool,
) -> bool {
    forall|a: &T, b: &T, o: Ordering|
        #[trigger] call_ensures(f, (a, b), o) ==> ((o == Ordering::Less) == lt(*a, *b))
}

/// A strict weak ordering the three-way comparator stands for.
pub open spec fn ord_cmp_ordering<T, F: Fn(&T, &T) -> Ordering>(
    f: F,
    lt: spec_fn(T, T) -> bool,
) -> bool {
    &&& strict_weak_order(lt)
    &&& ord_cmp_denotes(f, lt)
}

/// The comparator stands for the relation `lt`: every result its contract
/// allows on a pair of references is the value of `lt` on the two values.
pub open spec fn cmp_denotes<T, F: Fn(&T, &T) -> bool>(f: F, lt: spec_fn(T, T) -> bool) -> bool {
    forall|a: &T, b: &T, r: bool| #[trigger] call_ensures(f, (a, b), r) ==> r == lt(*a, *b)
}

/// `lt` is a strict weak ordering: it is asymmetric, and "not above", its
/// reversed negation, is transitive. This is the consistency the algorithm
/// assumes of a comparison; distinct values may still be mutually unordered.
pub open spec fn strict_weak_order<T>(lt: spec_fn(T, T) -> bool) -> bool {
    &&& forall|a: T, b: T| #[trigger] lt(a, b) ==> !lt(b, a)
    &&& forall|a: T, b: T, c: T|
        #![trigger lt(b, a), lt(c, b)]
        !lt(b, a) && !lt(c, b) ==> !lt(c, a)
}

/// A strict weak ordering the comparator stands for: all the ordering
/// guarantees of this crate are stated against every such relation.
pub open spec fn cmp_ordering<T, F: Fn(&T, &T) -> bool>(
    f: F,
    lt: spec_fn(T, T) -> bool,
) -> bool {
    &&& strict_weak_order(lt)
    &&& cmp_denotes(f, lt)
}

/// Values that `lt` cannot tell apart are equal. Together with
/// `strict_weak_order` this makes `lt` a strict total order.
pub open spec fn ties_are_equal<T>(lt: spec_fn(T, T) -> bool) -> bool {
    forall|a: T, b: T| #![trigger lt(a, b), lt(b, a)] !lt(a, b) && !lt(b, a) ==> a == b
}

/// The reflexive "not above" relation derived from `lt`.
pub open spec fn le_of<T>(lt: spec_fn(T, T) -> bool) -> spec_fn(T, T) -> bool {
    |a: T, b: T| !lt(b, a)
}

/// The reversed relation: `a` is below `b` exactly when `lt` puts `b` below `a`.
pub open spec fn flip_rel<T>(lt: spec_fn(T, T) -> bool) -> spec_fn(T, T) -> bool {
    |a: T, b: T| lt(b, a)
}

/// The first `last` places of `s` are ascending under `lt`: no later element
/// of the prefix is below an earlier one.
pub open spec fn ascending_prefix<T>(s: Seq<T>, lt: spec_fn(T, T) -> bool, last: int) -> bool {
    forall|i: int, j: int| 0 <= i < j < last ==> !(#[trigger] lt(s[j], s[i]))
}

/// No element of `s` in `[last, upto)` is below any element before `last`.
pub open spec fn prefix_below_range<T>(
    s: Seq<T>,
    lt: spec_fn(T, T) -> bool,
    last: int,
    upto: int,
) -> bool {
    forall|k: int, j: int| 0 <= k < last <= j < upto ==> !(#[trigger] lt(s[j], s[k]))
}

/// The prefix holds least elements of the whole sequence: no element at or
/// past `last` is below any element before `last`.
pub open spec fn prefix_below_tail<T>(s: Seq<T>, lt: spec_fn(T, T) -> bool, last: int) -> bool {
    prefix_below_range(s, lt, last, s.len() as int)
}

/// The whole postcondition shape of a partial sort of `s` to depth `last`:
/// an ascending prefix that holds least elements of the whole sequence.
pub open spec fn partially_sorted<T>(s: Seq<T>, lt: spec_fn(T, T) -> bool, last: int) -> bool {
    &&& ascending_prefix(s, lt, last)
    &&& prefix_below_tail(s, lt, last)
}

/// A strict weak ordering whose ties are equalities induces a total order
/// "not above", the order under which sorted rearrangements are unique.
pub proof fn lemma_le_of_total<T>(lt: spec_fn(T, T) -> bool)
    requires
        strict_weak_order(lt),
        ties_are_equal(lt),
    ensures
        total_ordering(le_of(lt)),
{
    assert forall|a: T, b: T| #[trigger] le_of(lt)(a, b) || le_of(lt)(b, a) by {
        assert(lt(b, a) ==> !lt(a, b));
    }
}

} // verus!
