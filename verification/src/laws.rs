//! The stated laws of partial sorting: the sorted prefix agrees with the
//! prefix of any full sort of the same elements, and a reversed comparison
//! selects the greatest elements, descending.

use vstd::prelude::*;
use vstd::seq_lib::group_to_multiset_ensures;

use crate::order::{
    ascending_prefix, flip_rel, partially_sorted, strict_weak_order, ties_are_equal,
};

verus! {

/// Prefix correctness: a partially sorted rearrangement of a sequence agrees
/// place by place, over the whole prefix, with any fully sorted
/// rearrangement of the same elements — provided the ordering leaves no ties
/// between distinct values. With ties the law is narrower: mutually
/// unordered values can stand in for one another at the prefix's edge, and
/// only the ordering classes of the two prefixes agree.
pub proof fn lemma_prefix_matches_full_sort<T>(
    a: Seq<T>,
    b: Seq<T>,
    lt: spec_fn(T, T) -> bool,
    k: int,
)
    requires
        strict_weak_order(lt),
        ties_are_equal(lt),
        a.to_multiset() == b.to_multiset(),
        0 <= k <= a.len(),
        partially_sorted(a, lt, k),
        ascending_prefix(b, lt, b.len() as int),
    ensures
        a.subrange(0, k) == b.subrange(0, k),
    decreases k,
{
    broadcast use group_to_multiset_ensures;

    assert(a.to_multiset().len() == a.len());
    assert(b.to_multiset().len() == b.len());
    if k > 0 {
        // the first element of either sequence is a least element of it
        assert forall|m: int| 0 <= m < a.len() implies !(#[trigger] lt(a[m], a[0])) by {
            if m >= k {
                assert(!lt(a[m], a[0]));
            }
        }
        assert(a.contains(a[0]));
        assert(a.to_multiset().count(a[0]) > 0);
        assert(b.to_multiset().count(a[0]) > 0);
        assert(b.contains(a[0]));
        let j = choose|j: int| 0 <= j < b.len() && b[j] == a[0];
        assert(!lt(a[0], b[0]));
        assert(b.contains(b[0]));
        assert(a.to_multiset().count(b[0]) > 0);
        assert(a.contains(b[0]));
        let m0 = choose|m: int| 0 <= m < a.len() && a[m] == b[0];
        assert(!lt(b[0], a[0]));
        assert(a[0] == b[0]);
        // drop the common least element and use the law one place further in
        let a1 = a.drop_first();
        let b1 = b.drop_first();
        assert(a1 =~= a.remove(0));
        assert(b1 =~= b.remove(0));
        assert(a1.to_multiset() == a.to_multiset().remove(a[0]));
        assert(b1.to_multiset() == b.to_multiset().remove(b[0]));
        assert forall|x: int, y: int| 0 <= x < y < k - 1 implies !(lt(a1[y], a1[x])) by {
            assert(!lt(a[y + 1], a[x + 1]));
        }
        assert forall|x: int, y: int| 0 <= x < k - 1 <= y < a1.len() implies !(lt(
            a1[y],
            a1[x],
        )) by {
            assert(!lt(a[y + 1], a[x + 1]));
        }
        assert forall|x: int, y: int| 0 <= x < y < b1.len() implies !(lt(b1[y], b1[x])) by {
            assert(!lt(b[y + 1], b[x + 1]));
        }
        lemma_prefix_matches_full_sort(a1, b1, lt, k - 1);
        assert forall|q: int| 0 <= q < k implies a.subrange(0, k)[q] == b.subrange(0, k)[q] by {
            if q > 0 {
                assert(a1.subrange(0, k - 1)[q - 1] == b1.subrange(0, k - 1)[q - 1]);
                assert(a1[q - 1] == a[q]);
                assert(b1[q - 1] == b[q]);
            }
        }
        assert(a.subrange(0, k) =~= b.subrange(0, k));
    } else {
        assert(a.subrange(0, 0) =~= b.subrange(0, 0));
    }
}

/// A reversed comparison is as consistent as the comparison it reverses.
pub proof fn lemma_flip_strict_weak<T>(lt: spec_fn(T, T) -> bool)
    requires
        strict_weak_order(lt),
    ensures
        strict_weak_order(flip_rel(lt)),
{
    let gt = flip_rel(lt);
    assert forall|x: T, y: T| #[trigger] gt(x, y) implies !gt(y, x) by {
        assert(lt(y, x) ==> !lt(x, y));
    }
    assert forall|x: T, y: T, z: T|
        #![trigger gt(y, x), gt(z, y)]
        !gt(y, x) && !gt(z, y) implies !gt(z, x) by {
        assert(!lt(y, z) && !lt(x, y) ==> !lt(x, z));
    }
}

/// Reversal: the partial-sort postcondition under the reversed comparison
/// says that the prefix holds the greatest elements, in descending order.
pub proof fn lemma_reversed_selects_greatest<T>(s: Seq<T>, lt: spec_fn(T, T) -> bool, k: int)
    requires
        0 <= k <= s.len(),
        partially_sorted(s, flip_rel(lt), k),
    ensures
        forall|i: int, j: int| 0 <= i < j < k ==> !(#[trigger] lt(s[i], s[j])),
        forall|i: int, j: int| 0 <= i < k <= j < s.len() ==> !(#[trigger] lt(s[i], s[j])),
{
    let gt = flip_rel(lt);
    assert forall|i: int, j: int| 0 <= i < j < k implies !(lt(s[i], s[j])) by {
        assert(!gt(s[j], s[i]));
    }
    assert forall|i: int, j: int| 0 <= i < k <= j < s.len() implies !(lt(s[i], s[j])) by {
        assert(!gt(s[j], s[i]));
    }
}

} // verus!
