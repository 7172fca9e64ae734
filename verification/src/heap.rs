//! The heap engine: a binary max-heap laid out in a prefix of a vector by
//! index arithmetic, with the sift-down repair, linear-time construction,
//! and extraction into ascending order.

use vstd::prelude::*;

use crate::order::{ascending_prefix, cmp_callable, cmp_ordering, strict_weak_order};
use crate::perm::{
    lemma_multiset_pointwise, lemma_swap_window_multiset, lemma_window_multiset_extends, swapped,
};

verus! {

/// The place of the parent of heap place `c`.
pub open spec fn heap_parent(c: int) -> int {
    (c - 1) / 2
}

/// The heap property over the window `[0, len)` of `s`, restricted to the
/// edges whose parent place is at or past `root`: no parent is below its
/// child under `lt`.
pub open spec fn heap_from<T>(s: Seq<T>, lt: spec_fn(T, T) -> bool, len: int, root: int) -> bool {
    forall|c: int|
        1 <= c < len && heap_parent(c) >= root ==> !(#[trigger] lt(s[heap_parent(c)], s[c]))
}

/// During a repair at `h`: every heap edge with parent at or past `root`
/// holds, except possibly the edges out of `h` itself.
spec fn edges_except<T>(s: Seq<T>, lt: spec_fn(T, T) -> bool, len: int, root: int, h: int) -> bool {
    forall|c: int|
        1 <= c < len && heap_parent(c) >= root && heap_parent(c) != h
            ==> !(#[trigger] lt(s[heap_parent(c)], s[c]))
}

/// During a repair that has moved below its starting place: the children of
/// the current place are not above the value standing over it.
spec fn children_bounded<T>(
    s: Seq<T>,
    lt: spec_fn(T, T) -> bool,
    len: int,
    root: int,
    h: int,
) -> bool {
    h > root ==> forall|c: int|
        1 <= c < len && heap_parent(c) == h ==> !(#[trigger] lt(s[heap_parent(h)], s[c]))
}

/// In a max-heap no element is above the root.
pub proof fn lemma_root_greatest<T>(s: Seq<T>, lt: spec_fn(T, T) -> bool, len: int, k: int)
    requires
        strict_weak_order(lt),
        heap_from(s, lt, len, 0),
        0 <= k < len <= s.len(),
    ensures
        !lt(s[0], s[k]),
    decreases k,
{
    if k > 0 {
        let p = heap_parent(k);
        lemma_root_greatest(s, lt, len, p);
        assert(!lt(s[p], s[k]));
    }
}

/// Relies on `<[T]>::swap`: the elements at the two given places are
/// exchanged and every other element stays where it was.
#[verifier::external_body]
pub(crate) fn swap_places<T>(v: &mut Vec<T>, a: usize, b: usize)
    requires
        a < old(v).len(),
        b < old(v).len(),
    ensures
        final(v)@ == swapped(old(v)@, a as int, b as int),
{
    v.swap(a, b);
}

/// Restore the heap property at `hole` over the window `[0, len)`, assuming
/// both subtrees under `hole` already satisfy it: the value at `hole` sinks
/// along the path of greater children until it is not below a child.
pub fn adjust_heap<T, F: Fn(&T, &T) -> bool>(v: &mut Vec<T>, hole: usize, len: usize, is_less: &F)
    requires
        len <= old(v).len(),
        hole < len,
        cmp_callable::<T, F>(*is_less),
    ensures
        final(v)@.len() == old(v)@.len(),
        forall|i: int| 0 <= i < hole ==> final(v)@[i] == #[trigger] old(v)@[i],
        forall|i: int| len <= i < old(v)@.len() ==> final(v)@[i] == #[trigger] old(v)@[i],
        final(v)@.subrange(hole as int, len as int).to_multiset() == old(v)@.subrange(
            hole as int,
            len as int,
        ).to_multiset(),
        final(v)@.subrange(0, len as int).to_multiset() == old(v)@.subrange(
            0,
            len as int,
        ).to_multiset(),
        final(v)@.to_multiset() == old(v)@.to_multiset(),
        forall|lt: spec_fn(T, T) -> bool|
            #[trigger] cmp_ordering(*is_less, lt) && heap_from(
                old(v)@,
                lt,
                len as int,
                hole as int + 1,
            ) ==> heap_from(final(v)@, lt, len as int, hole as int),
{
    let ghost v0 = v@;
    let mut h: usize = hole;
    loop
        invariant
            hole <= h < len <= v@.len(),
            v@.len() == v0.len(),
            cmp_callable::<T, F>(*is_less),
            forall|i: int| 0 <= i < hole ==> v@[i] == #[trigger] v0[i],
            forall|i: int| len <= i < v0.len() ==> v@[i] == #[trigger] v0[i],
            v@.subrange(hole as int, len as int).to_multiset() == v0.subrange(
                hole as int,
                len as int,
            ).to_multiset(),
            v@.to_multiset() == v0.to_multiset(),
            forall|lt: spec_fn(T, T) -> bool|
                #[trigger] cmp_ordering(*is_less, lt) && heap_from(
                    v0,
                    lt,
                    len as int,
                    hole as int + 1,
                ) ==> edges_except(v@, lt, len as int, hole as int, h as int) && children_bounded(
                    v@,
                    lt,
                    len as int,
                    hole as int,
                    h as int,
                ),
        ensures
            forall|lt: spec_fn(T, T) -> bool|
                #[trigger] cmp_ordering(*is_less, lt) && heap_from(
                    v0,
                    lt,
                    len as int,
                    hole as int + 1,
                ) ==> heap_from(v@, lt, len as int, hole as int),
        decreases len - h,
    {
        if h >= len / 2 {
            // no child of `h` lies inside the window: the repair is done
            proof {
                assert forall|lt: spec_fn(T, T) -> bool|
                    cmp_ordering(*is_less, lt) && heap_from(
                        v0,
                        lt,
                        len as int,
                        hole as int + 1,
                    ) implies heap_from(v@, lt, len as int, hole as int) by {
                    assert forall|c: int|
                        1 <= c < len && heap_parent(c) >= hole implies !(lt(
                        v@[heap_parent(c)],
                        v@[c],
                    )) by {
                        if heap_parent(c) == h as int {
                            assert(c >= 2 * (h as int) + 1);
                            assert(2 * (h as int) + 1 >= len);
                        } else {
                            assert(edges_except(v@, lt, len as int, hole as int, h as int));
                        }
                    }
                }
            }
            break;
        }
        proof {
            assert(2 * (h as int) + 1 < len as int);
        }
        let child0: usize = 2 * h + 1;
        let mut child: usize = child0;
        if child0 + 1 < len {
            if (*is_less)(&v[child0], &v[child0 + 1]) {
                child = child0 + 1;
            }
        }
        let ghost s = v@;
        proof {
            assert(heap_parent(child0 as int) == h as int);
            assert(heap_parent(child0 as int + 1) == h as int);
            // the chosen child is not below its sibling
            assert forall|lt: spec_fn(T, T) -> bool|
                #[trigger] cmp_ordering(*is_less, lt) implies (forall|c: int|
                1 <= c < len && heap_parent(c) == h as int ==> !(#[trigger] lt(
                    s[child as int],
                    s[c],
                ))) by {
                assert forall|c: int|
                    1 <= c < len && heap_parent(c) == h as int implies !(lt(
                    s[child as int],
                    s[c],
                )) by {
                    assert(c == child0 as int || c == child0 as int + 1);
                    if c != child as int {
                        // the comparison picked `child` over `c`
                    } else {
                        // nothing is below itself
                        assert(lt(s[c], s[c]) ==> !lt(s[c], s[c]));
                    }
                }
            }
        }
        if (*is_less)(&v[h], &v[child]) {
            proof {
                lemma_swap_window_multiset(s, hole as int, len as int, h as int, child as int);
            }
            swap_places(v, h, child);
            proof {
                assert(heap_parent(child as int) == h as int);
                assert forall|lt: spec_fn(T, T) -> bool|
                    cmp_ordering(*is_less, lt) && heap_from(
                        v0,
                        lt,
                        len as int,
                        hole as int + 1,
                    ) implies edges_except(v@, lt, len as int, hole as int, child as int)
                    && children_bounded(v@, lt, len as int, hole as int, child as int) by {
                    assert(edges_except(s, lt, len as int, hole as int, h as int));
                    assert(children_bounded(s, lt, len as int, hole as int, h as int));
                    assert(lt(s[h as int], s[child as int]));
                    assert forall|c: int|
                        1 <= c < len && heap_parent(c) >= hole && heap_parent(c) != child as int
                            implies !(lt(v@[heap_parent(c)], v@[c])) by {
                        let p = heap_parent(c);
                        if c == h as int {
                            // the edge into the old place: bounded by the value over it
                            assert(h as int > hole as int);
                            assert(!lt(s[heap_parent(h as int)], s[child as int]));
                        } else if c == child as int {
                            // the sunk value is below the value that rose
                            assert(!lt(s[child as int], s[h as int]));
                        } else if p == h as int {
                            // a sibling of the chosen child
                            assert(!lt(s[child as int], s[c]));
                        } else {
                            assert(!lt(s[p], s[c]));
                        }
                    }
                    assert forall|c: int|
                        1 <= c < len && heap_parent(c) == child as int implies !(lt(
                        v@[heap_parent(child as int)],
                        v@[c],
                    )) by {
                        // an old edge out of the chosen child, both ends below the swap
                        assert(!lt(s[child as int], s[c]));
                        assert(v@[c] == s[c]);
                    }
                }
            }
            h = child;
        } else {
            proof {
                assert forall|lt: spec_fn(T, T) -> bool|
                    cmp_ordering(*is_less, lt) && heap_from(
                        v0,
                        lt,
                        len as int,
                        hole as int + 1,
                    ) implies heap_from(v@, lt, len as int, hole as int) by {
                    assert(edges_except(v@, lt, len as int, hole as int, h as int));
                    assert(!lt(s[h as int], s[child as int]));
                    assert forall|c: int|
                        1 <= c < len && heap_parent(c) >= hole implies !(lt(
                        v@[heap_parent(c)],
                        v@[c],
                    )) by {
                        if heap_parent(c) == h as int {
                            assert(!lt(s[child as int], s[c]));
                            assert(!lt(s[h as int], s[c]));
                        }
                    }
                }
            }
            break;
        }
    }
    proof {
        lemma_window_multiset_extends(v0, v@, hole as int, len as int);
    }
}

/// Rearrange the window `[0, last)` in place into a max-heap under the
/// comparison, repairing every subtree from the last parent place down to
/// the root.
pub fn make_heap<T, F: Fn(&T, &T) -> bool>(v: &mut Vec<T>, last: usize, is_less: &F)
    requires
        last <= old(v).len(),
        cmp_callable::<T, F>(*is_less),
    ensures
        final(v)@.len() == old(v)@.len(),
        forall|i: int| last <= i < old(v)@.len() ==> final(v)@[i] == #[trigger] old(v)@[i],
        final(v)@.subrange(0, last as int).to_multiset() == old(v)@.subrange(
            0,
            last as int,
        ).to_multiset(),
        final(v)@.to_multiset() == old(v)@.to_multiset(),
        forall|lt: spec_fn(T, T) -> bool|
            #[trigger] cmp_ordering(*is_less, lt) ==> heap_from(final(v)@, lt, last as int, 0),
{
    if last < 2 {
        return;
    }
    let ghost v0 = v@;
    let mut p: usize = (last - 2) / 2;
    proof {
        assert forall|lt: spec_fn(T, T) -> bool| #[trigger] cmp_ordering(*is_less, lt) implies heap_from(
            v@,
            lt,
            last as int,
            p as int + 1,
        ) by {
            assert forall|c: int| 1 <= c < last implies heap_parent(c) <= p as int by {
                assert((c - 1) / 2 <= (last as int - 2) / 2);
            }
        }
    }
    loop
        invariant
            p as int <= (last as int - 2) / 2,
            last <= v@.len(),
            v@.len() == v0.len(),
            cmp_callable::<T, F>(*is_less),
            forall|i: int| last <= i < v0.len() ==> v@[i] == #[trigger] v0[i],
            v@.subrange(0, last as int).to_multiset() == v0.subrange(0, last as int).to_multiset(),
            v@.to_multiset() == v0.to_multiset(),
            forall|lt: spec_fn(T, T) -> bool|
                #[trigger] cmp_ordering(*is_less, lt) ==> heap_from(v@, lt, last as int, p as int + 1),
        ensures
            last <= v@.len(),
            v@.len() == v0.len(),
            forall|i: int| last <= i < v0.len() ==> v@[i] == #[trigger] v0[i],
            v@.subrange(0, last as int).to_multiset() == v0.subrange(0, last as int).to_multiset(),
            v@.to_multiset() == v0.to_multiset(),
            forall|lt: spec_fn(T, T) -> bool|
                #[trigger] cmp_ordering(*is_less, lt) ==> heap_from(v@, lt, last as int, 0),
        decreases p,
    {
        proof {
            assert(p as int <= (last as int - 2) / 2 < last as int);
        }
        adjust_heap(v, p, last, is_less);
        if p == 0 {
            break;
        }
        p = p - 1;
    }
}

/// Turn a max-heap over `[0, last)` into ascending order in place: the root,
/// a greatest element of a shrinking window, moves to the window's end, and
/// the window is repaired, until one element is left.
pub fn sort_heap<T, F: Fn(&T, &T) -> bool>(v: &mut Vec<T>, last: usize, is_less: &F)
    requires
        last <= old(v).len(),
        cmp_callable::<T, F>(*is_less),
    ensures
        final(v)@.len() == old(v)@.len(),
        forall|i: int| last <= i < old(v)@.len() ==> final(v)@[i] == #[trigger] old(v)@[i],
        final(v)@.subrange(0, last as int).to_multiset() == old(v)@.subrange(
            0,
            last as int,
        ).to_multiset(),
        final(v)@.to_multiset() == old(v)@.to_multiset(),
        forall|lt: spec_fn(T, T) -> bool|
            #[trigger] cmp_ordering(*is_less, lt) && heap_from(old(v)@, lt, last as int, 0)
                ==> ascending_prefix(final(v)@, lt, last as int),
{
    let ghost v0 = v@;
    let mut b: usize = last;
    while b > 1
        invariant
            b <= last <= v@.len(),
            v@.len() == v0.len(),
            cmp_callable::<T, F>(*is_less),
            forall|i: int| last <= i < v0.len() ==> v@[i] == #[trigger] v0[i],
            v@.subrange(0, last as int).to_multiset() == v0.subrange(0, last as int).to_multiset(),
            v@.to_multiset() == v0.to_multiset(),
            forall|lt: spec_fn(T, T) -> bool|
                #[trigger] cmp_ordering(*is_less, lt) && heap_from(v0, lt, last as int, 0)
                    ==> heap_from(v@, lt, b as int, 0) && (forall|i: int, j: int|
                    b <= i < j < last ==> !(#[trigger] lt(v@[j], v@[i]))) && (forall|k: int, j: int|
                    0 <= k < b <= j < last ==> !(#[trigger] lt(v@[j], v@[k]))),
        decreases b,
    {
        b = b - 1;
        let ghost s = v@;
        proof {
            lemma_swap_window_multiset(s, 0, last as int, 0, b as int);
        }
        swap_places(v, 0, b);
        let ghost s1 = v@;
        proof {
            assert forall|lt: spec_fn(T, T) -> bool|
                cmp_ordering(*is_less, lt) && heap_from(v0, lt, last as int, 0) implies heap_from(
                s1,
                lt,
                b as int,
                1,
            ) by {
                assert(heap_from(s, lt, b as int + 1, 0));
                assert forall|c: int| 1 <= c < b && heap_parent(c) >= 1 implies !(lt(
                    s1[heap_parent(c)],
                    s1[c],
                )) by {
                    assert(s1[heap_parent(c)] == s[heap_parent(c)]);
                    assert(s1[c] == s[c]);
                    assert(!lt(s[heap_parent(c)], s[c]));
                }
            }
        }
        adjust_heap(v, 0, b, is_less);
        proof {
            // the repair permutes `[0, b)`, so the whole window `[0, last)`
            // still holds the same elements
            assert(s1.subrange(0, last as int).subrange(0, b as int) =~= s1.subrange(0, b as int));
            assert(v@.subrange(0, last as int).subrange(0, b as int) =~= v@.subrange(0, b as int));
            assert forall|j: int| b <= j < last implies s1.subrange(0, last as int)[j] == v@.subrange(
                0,
                last as int,
            )[j] by {
                assert(v@[j] == s1[j]);
            }
            lemma_window_multiset_extends(
                s1.subrange(0, last as int),
                v@.subrange(0, last as int),
                0,
                b as int,
            );
            assert forall|i: int| last <= i < v0.len() implies v@[i] == v0[i] by {
                assert(s1[i] == s[i]);
                assert(v@[i] == s1[i]);
            }
            assert forall|lt: spec_fn(T, T) -> bool|
                cmp_ordering(*is_less, lt) && heap_from(v0, lt, last as int, 0) implies heap_from(
                v@,
                lt,
                b as int,
                0,
            ) && (forall|i: int, j: int| b <= i < j < last ==> !(#[trigger] lt(v@[j], v@[i]))) && (
            forall|k: int, j: int|
                0 <= k < b <= j < last ==> !(#[trigger] lt(v@[j], v@[k]))) by {
                let win0 = s1.subrange(0, b as int);
                let win1 = v@.subrange(0, b as int);
                // the element moved to place `b` and the untouched suffix
                assert(s1[b as int] == s[0]);
                assert(v@[b as int] == s1[b as int]);
                assert forall|j: int| b < j < last implies v@[j] == s[j] by {
                    assert(s1[j] == s[j]);
                    assert(v@[j] == s1[j]);
                }
                // sorted suffix: the new entry at `b` was the greatest of the window
                assert forall|i: int, j: int| b <= i < j < last implies !(lt(v@[j], v@[i])) by {
                    if i == b as int {
                        assert(!lt(s[j], s[0]));
                    } else {
                        assert(!lt(s[j], s[i]));
                    }
                }
                // everything left in the window is not above anything at or past `b`
                assert forall|k: int, j: int| 0 <= k < b <= j < last implies !(lt(v@[j], v@[k])) by {
                    if j == b as int {
                        let pred = |x: T| !lt(s[0], x);
                        assert forall|q: int| 0 <= q < win0.len() implies pred(win0[q]) by {
                            if q == 0 {
                                lemma_root_greatest(s, lt, b as int + 1, b as int);
                                assert(!lt(s[0], s[b as int]));
                            } else {
                                lemma_root_greatest(s, lt, b as int + 1, q);
                                assert(!lt(s[0], s[q]));
                            }
                        }
                        lemma_multiset_pointwise(win0, win1, pred);
                        assert(pred(win1[k]));
                        assert(v@[j] == s[0]);
                    } else {
                        let pred = |x: T| !lt(s[j], x);
                        assert forall|q: int| 0 <= q < win0.len() implies pred(win0[q]) by {
                            if q == 0 {
                                assert(!lt(s[j], s[b as int]));
                            } else {
                                assert(!lt(s[j], s[q]));
                            }
                        }
                        lemma_multiset_pointwise(win0, win1, pred);
                        assert(pred(win1[k]));
                        assert(v@[j] == s[j]);
                    }
                }
            }
        }
    }
    proof {
        assert forall|lt: spec_fn(T, T) -> bool|
            cmp_ordering(*is_less, lt) && heap_from(v0, lt, last as int, 0) implies ascending_prefix(
            v@,
            lt,
            last as int,
        ) by {
            assert forall|i: int, j: int| 0 <= i < j < last implies !(lt(v@[j], v@[i])) by {
                if i < b as int {
                    assert(!lt(v@[j], v@[i]));
                }
            }
        }
    }
}

} // verus!
