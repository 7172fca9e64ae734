//! Partial sorting of a vector in place: after a call, the first `last`
//! positions hold the `last` smallest elements under a caller-supplied
//! comparison, in ascending order, and the remaining positions hold the rest
//! of the elements in some unspecified order.
//!
//! Which of several mutually unordered elements end up inside the prefix,
//! and in which order, is left open: callers that allow ties should compare
//! multisets, not positions.

pub mod heap;
pub mod laws;
pub mod order;
pub mod perm;

use std::cmp::Ordering;

use vstd::prelude::*;
use vstd::seq_lib::group_to_multiset_ensures;
use vstd::seq_lib::lemma_sorted_unique;

use crate::heap::{adjust_heap, heap_from, lemma_root_greatest, make_heap, sort_heap};
use crate::order::{
    ascending_prefix, cmp_callable, cmp_denotes, cmp_ordering, le_of, lemma_le_of_total,
    ord_cmp_callable, ord_cmp_ordering, partially_sorted, prefix_below_range, ties_are_equal,
};
use crate::perm::{lemma_multiset_pointwise, lemma_swap_to_multiset};

verus! {

/// The method surface: partial sorting with a three-way comparison, whose
/// `Ordering::Less` outcome is taken as "is less".
pub trait PartialSort {
    type Item;

    /// The sequence of elements the container holds.
    spec fn contents(&self) -> Seq<Self::Item>;

    /// Rearranges elements so that the range `[0, last)` holds the `last`
    /// smallest elements of the whole container, in ascending order under
    /// `cmp`; the rest follow in an unspecified order.
    fn partial_sort<F: Fn(&Self::Item, &Self::Item) -> Ordering>(&mut self, last: usize, cmp: F)
        requires
            last <= old(self).contents().len(),
            ord_cmp_callable::<Self::Item, F>(cmp),
        ensures
            final(self).contents().len() == old(self).contents().len(),
            final(self).contents().to_multiset() == old(self).contents().to_multiset(),
            forall|lt: spec_fn(Self::Item, Self::Item) -> bool|
                #[trigger] ord_cmp_ordering(cmp, lt) ==> partially_sorted(
                    final(self).contents(),
                    lt,
                    last as int,
                ),
            forall|lt: spec_fn(Self::Item, Self::Item) -> bool|
                #[trigger] ord_cmp_ordering(cmp, lt) && ties_are_equal(lt) && partially_sorted(
                    old(self).contents(),
                    lt,
                    last as int,
                ) ==> final(self).contents() == old(self).contents(),
    ;
}

impl<T> PartialSort for Vec<T> {
    type Item = T;

    open spec fn contents(&self) -> Seq<T> {
        self@
    }

    fn partial_sort<F: Fn(&T, &T) -> Ordering>(&mut self, last: usize, cmp: F) {
        let cmp_ref = &cmp;
        let is_less = |a: &T, b: &T| -> (r: bool)
            ensures
                exists|o: Ordering|
                    #[trigger] call_ensures(*cmp_ref, (a, b), o) && r == (o == Ordering::Less),
            {
                matches!((*cmp_ref)(a, b), Ordering::Less)
            };
        partial_sort(self, last, is_less);
        proof {
            // every relation the three-way comparator stands for, the
            // derived boolean comparator stands for as well
            assert forall|lt: spec_fn(T, T) -> bool|
                #[trigger] ord_cmp_ordering(cmp, lt) implies cmp_ordering(is_less, lt) by {
                assert forall|a: &T, b: &T, r: bool|
                    #[trigger] call_ensures(is_less, (a, b), r) implies r == lt(*a, *b) by {
                    let o = choose|o: Ordering|
                        #[trigger] call_ensures(cmp, (a, b), o) && r == (o == Ordering::Less);
                    assert((o == Ordering::Less) == lt(*a, *b));
                }
                assert(cmp_denotes(is_less, lt));
            }
        }
    }
}

/// Rearrange `v` so that `[0, last)` holds the `last` smallest elements
/// under `is_less`, ascending; `[last, n)` keeps the other elements in an
/// unspecified order.
///
/// The ordering clauses hold for every strict weak ordering the comparator
/// stands for; a comparator consistent with none still leaves `v` a
/// rearrangement of its old self. The final clause is idempotence: an input
/// that already satisfies the postcondition of an ordering without ties is
/// handed back unchanged.
pub fn partial_sort<T, F: Fn(&T, &T) -> bool>(v: &mut Vec<T>, last: usize, is_less: F)
    requires
        last <= old(v).len(),
        cmp_callable::<T, F>(is_less),
    ensures
        final(v)@.len() == old(v)@.len(),
        final(v)@.to_multiset() == old(v)@.to_multiset(),
        forall|lt: spec_fn(T, T) -> bool|
            #[trigger] cmp_ordering(is_less, lt) ==> partially_sorted(final(v)@, lt, last as int),
        forall|lt: spec_fn(T, T) -> bool|
            #[trigger] cmp_ordering(is_less, lt) && ties_are_equal(lt) && partially_sorted(
                old(v)@,
                lt,
                last as int,
            ) ==> final(v)@ == old(v)@,
{
    if last == 0 {
        return;
    }
    let ghost v0 = v@;
    make_heap(v, last, &is_less);
    let n: usize = v.len();
    let mut i: usize = last;
    while i < n
        invariant
            0 < last <= i <= n,
            n == v@.len(),
            v@.len() == v0.len(),
            cmp_callable::<T, F>(is_less),
            v@.to_multiset() == v0.to_multiset(),
            forall|j: int| i <= j < n ==> v@[j] == #[trigger] v0[j],
            forall|lt: spec_fn(T, T) -> bool|
                #[trigger] cmp_ordering(is_less, lt) ==> heap_from(v@, lt, last as int, 0)
                    && prefix_below_range(v@, lt, last as int, i as int),
            forall|lt: spec_fn(T, T) -> bool|
                #[trigger] cmp_ordering(is_less, lt) && ties_are_equal(lt) && partially_sorted(
                    v0,
                    lt,
                    last as int,
                ) ==> (forall|j: int| last <= j < i ==> v@[j] == #[trigger] v0[j])
                    && v@.subrange(0, last as int).to_multiset() == v0.subrange(
                    0,
                    last as int,
                ).to_multiset(),
        decreases n - i,
    {
        let ghost s = v@;
        if is_less(&v[i], &v[0]) {
            proof {
                lemma_swap_to_multiset(s, 0, i as int);
            }
            crate::heap::swap_places(v, 0, i);
            let ghost s1 = v@;
            proof {
                assert forall|lt: spec_fn(T, T) -> bool|
                    #[trigger] cmp_ordering(is_less, lt) implies heap_from(
                    s1,
                    lt,
                    last as int,
                    1,
                ) by {
                    assert(heap_from(s, lt, last as int, 0));
                    assert forall|c: int|
                        1 <= c < last && crate::heap::heap_parent(c) >= 1 implies !(lt(
                        s1[crate::heap::heap_parent(c)],
                        s1[c],
                    )) by {
                        let p = crate::heap::heap_parent(c);
                        assert(s1[p] == s[p]);
                        assert(s1[c] == s[c]);
                        assert(!lt(s[p], s[c]));
                    }
                }
            }
            adjust_heap(v, 0, last, &is_less);
            proof {
                assert forall|j: int| i + 1 <= j < n implies v@[j] == v0[j] by {
                    assert(s1[j] == s[j]);
                    assert(v@[j] == s1[j]);
                }
                assert forall|lt: spec_fn(T, T) -> bool|
                    #[trigger] cmp_ordering(is_less, lt) implies heap_from(v@, lt, last as int, 0)
                    && prefix_below_range(v@, lt, last as int, i as int + 1) by {
                    assert(lt(s[i as int], s[0]));
                    let win1 = s1.subrange(0, last as int);
                    let win2 = v@.subrange(0, last as int);
                    assert forall|k: int, j: int|
                        0 <= k < last <= j < i + 1 implies !(lt(v@[j], v@[k])) by {
                        if j == i as int {
                            assert(s1[j] == s[0]);
                            assert(v@[j] == s1[j]);
                            let pred = |x: T| !lt(s[0], x);
                            assert forall|q: int| 0 <= q < win1.len() implies pred(win1[q]) by {
                                if q == 0 {
                                    assert(win1[0] == s[i as int]);
                                    assert(!lt(s[0], s[i as int]));
                                } else {
                                    assert(win1[q] == s[q]);
                                    lemma_root_greatest(s, lt, last as int, q);
                                }
                            }
                            lemma_multiset_pointwise(win1, win2, pred);
                            assert(pred(win2[k]));
                        } else {
                            assert(v@[j] == s1[j]);
                            assert(s1[j] == s[j]);
                            let pred = |x: T| !lt(s[j], x);
                            assert forall|q: int| 0 <= q < win1.len() implies pred(win1[q]) by {
                                if q == 0 {
                                    assert(win1[0] == s[i as int]);
                                    assert(!lt(s[j], s[0]));
                                    assert(!lt(s[0], s[i as int]));
                                } else {
                                    assert(win1[q] == s[q]);
                                    assert(!lt(s[j], s[q]));
                                }
                            }
                            lemma_multiset_pointwise(win1, win2, pred);
                            assert(pred(win2[k]));
                        }
                    }
                }
                assert forall|lt: spec_fn(T, T) -> bool|
                    #[trigger] cmp_ordering(is_less, lt) && ties_are_equal(lt) && partially_sorted(
                        v0,
                        lt,
                        last as int,
                    ) implies (forall|j: int| last <= j < i + 1 ==> v@[j] == #[trigger] v0[j])
                    && v@.subrange(0, last as int).to_multiset() == v0.subrange(
                    0,
                    last as int,
                ).to_multiset() by {
                    // the prefix already held least elements, so the root
                    // could not have been above the scanned element
                    broadcast use group_to_multiset_ensures;

                    let win = s.subrange(0, last as int);
                    assert(win[0] == s[0]);
                    assert(win.contains(s[0]));
                    assert(win.to_multiset().count(s[0]) > 0);
                    assert(v0.subrange(0, last as int).to_multiset().count(s[0]) > 0);
                    assert(v0.subrange(0, last as int).contains(s[0]));
                    let m = choose|m: int|
                        0 <= m < last && v0.subrange(0, last as int)[m] == s[0];
                    assert(v0[m] == s[0]);
                    assert(s[i as int] == v0[i as int]);
                    assert(lt(s[i as int], s[0]));
                    assert(!lt(v0[i as int], v0[m]));
                    assert(false);
                }
            }
        } else {
            proof {
                assert forall|lt: spec_fn(T, T) -> bool|
                    #[trigger] cmp_ordering(is_less, lt) implies prefix_below_range(
                    v@,
                    lt,
                    last as int,
                    i as int + 1,
                ) by {
                    assert(!lt(s[i as int], s[0]));
                    assert forall|k: int, j: int|
                        0 <= k < last <= j < i + 1 implies !(lt(v@[j], v@[k])) by {
                        if j == i as int {
                            lemma_root_greatest(s, lt, last as int, k);
                            assert(!lt(s[0], s[k]));
                        }
                    }
                }
            }
        }
        i = i + 1;
    }
    let ghost s3 = v@;
    sort_heap(v, last, &is_less);
    proof {
        assert forall|lt: spec_fn(T, T) -> bool|
            #[trigger] cmp_ordering(is_less, lt) implies partially_sorted(
            v@,
            lt,
            last as int,
        ) by {
            assert(ascending_prefix(v@, lt, last as int));
            let win3 = s3.subrange(0, last as int);
            let win4 = v@.subrange(0, last as int);
            assert forall|k: int, j: int|
                0 <= k < last <= j < v@.len() implies !(lt(v@[j], v@[k])) by {
                assert(v@[j] == s3[j]);
                let pred = |x: T| !lt(s3[j], x);
                assert forall|q: int| 0 <= q < win3.len() implies pred(win3[q]) by {
                    assert(win3[q] == s3[q]);
                    assert(!lt(s3[j], s3[q]));
                }
                lemma_multiset_pointwise(win3, win4, pred);
                assert(pred(win4[k]));
            }
        }
        assert forall|lt: spec_fn(T, T) -> bool|
            #[trigger] cmp_ordering(is_less, lt) && ties_are_equal(lt) && partially_sorted(
                v0,
                lt,
                last as int,
            ) implies v@ == v0 by {
            lemma_le_of_total(lt);
            let leq = le_of(lt);
            let a = v@.subrange(0, last as int);
            let b = v0.subrange(0, last as int);
            assert forall|x: int, y: int| 0 <= x < y < a.len() implies #[trigger] leq(
                a[x],
                a[y],
            ) by {
                assert(!lt(v@[y], v@[x]));
            }
            assert forall|x: int, y: int| 0 <= x < y < b.len() implies #[trigger] leq(
                b[x],
                b[y],
            ) by {
                assert(!lt(v0[y], v0[x]));
            }
            assert(a.to_multiset() == s3.subrange(0, last as int).to_multiset());
            assert(b.to_multiset() == a.to_multiset());
            lemma_sorted_unique(a, b, leq);
            assert forall|j: int| 0 <= j < v@.len() implies v@[j] == v0[j] by {
                if j < last {
                    assert(a[j] == b[j]);
                } else {
                    assert(v@[j] == s3[j]);
                }
            }
            assert(v@ =~= v0);
        }
    }
}

} // verus!
