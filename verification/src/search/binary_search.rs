//! Binary search by halving an interval in a loop.
use vstd::prelude::*;
use crate::order::{eqv, gt, le, lemma_compare, lemma_le_trans, lt, sorted, total_order};

verus! {

/// The position that halving finds for `x` in `s` between `left` and
/// `right`: the middle of the interval where `x` is equivalent to the
/// element there, else what the half on the side of `x` gives.
pub open spec fn bisect<T: PartialOrd>(s: Seq<T>, x: T, left: int, right: int) -> Option<int>
    decreases right - left,
{
    if left >= right {
        None
    } else {
        let mid = left + (right - left) / 2;
        if lt(x, s[mid]) {
            bisect(s, x, left, mid)
        } else if gt(x, s[mid]) {
            bisect(s, x, mid + 1, right)
        } else {
            Some(mid)
        }
    }
}

/// `bisect` as an index of the slice.
pub open spec fn bisect_index<T: PartialOrd>(s: Seq<T>, x: T, left: int, right: int) -> Option<
    usize,
> {
    match bisect(s, x, left, right) {
        Some(i) => Some(i as usize),
        None => None,
    }
}

/// What halving finds lies in the interval and is equivalent to `x`.
pub proof fn lemma_bisect_found<T: PartialOrd>(s: Seq<T>, x: T, left: int, right: int)
    requires
        total_order::<T>(),
        0 <= left,
        right <= s.len(),
    ensures
        bisect(s, x, left, right) matches Some(i) ==> left <= i < right && eqv(x, s[i]),
    decreases right - left,
{
    if left < right {
        let mid = left + (right - left) / 2;
        lemma_compare(x, s[mid]);
        if lt(x, s[mid]) {
            lemma_bisect_found(s, x, left, mid);
        } else if gt(x, s[mid]) {
            lemma_bisect_found(s, x, mid + 1, right);
        }
    }
}

/// In a sorted sequence halving misses `x` only where no element of the
/// interval is equivalent to it.
pub proof fn lemma_bisect_complete<T: PartialOrd>(s: Seq<T>, x: T, left: int, right: int)
    requires
        total_order::<T>(),
        sorted(s),
        0 <= left,
        right <= s.len(),
        bisect(s, x, left, right) is None,
    ensures
        forall|i: int| left <= i < right ==> !eqv(x, #[trigger] s[i]),
    decreases right - left,
{
    if left < right {
        let mid = left + (right - left) / 2;
        lemma_compare(x, s[mid]);
        if lt(x, s[mid]) {
            lemma_bisect_complete(s, x, left, mid);
            assert forall|i: int| mid <= i < right implies !eqv(x, #[trigger] s[i]) by {
                lemma_compare(x, s[i]);
                if eqv(x, s[i]) {
                    assert(le(s[mid], s[i]));
                    lemma_le_trans(s[mid], s[i], x);
                }
            }
        } else {
            lemma_bisect_complete(s, x, mid + 1, right);
            assert forall|i: int| left <= i <= mid implies !eqv(x, #[trigger] s[i]) by {
                lemma_compare(x, s[i]);
                if eqv(x, s[i]) {
                    assert(le(s[i], s[mid]));
                    lemma_le_trans(x, s[i], s[mid]);
                }
            }
        }
    }
}

/// Looks for `item` in `arr` by halving the interval in which it can lie.
///
/// A position that is returned holds an element equivalent to `item`. In a
/// sorted slice `None` is returned only where no element is equivalent to
/// `item`; in any slice the result is the one that `bisect` describes.
pub fn binary_search<T: Ord>(item: &T, arr: &[T]) -> (r: Option<usize>)
    requires
        total_order::<T>(),
    ensures
        r == bisect_index(arr@, *item, 0, arr@.len() as int),
        r matches Some(i) ==> i < arr@.len() && eqv(*item, arr@[i as int]),
        sorted(arr@) && r is None ==> forall|i: int|
            0 <= i < arr@.len() ==> !eqv(*item, #[trigger] arr@[i]),
{
    let mut left: usize = 0;
    let mut right: usize = arr.len();
    proof {
        lemma_bisect_found(arr@, *item, 0, arr@.len() as int);
        if sorted(arr@) && bisect(arr@, *item, 0, arr@.len() as int) is None {
            lemma_bisect_complete(arr@, *item, 0, arr@.len() as int);
        }
    }
    while left < right
        invariant
            total_order::<T>(),
            left <= right <= arr@.len(),
            bisect(arr@, *item, left as int, right as int) == bisect(
                arr@,
                *item,
                0,
                arr@.len() as int,
            ),
        decreases right - left,
    {
        let mid = left + (right - left) / 2;
        proof {
            lemma_compare(*item, arr@[mid as int]);
        }
        if *item < arr[mid] {
            right = mid;
        } else if *item > arr[mid] {
            left = mid + 1;
        } else {
            return Some(mid);
        }
    }
    None
}

} // verus!
