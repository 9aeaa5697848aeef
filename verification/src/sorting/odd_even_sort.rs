//! Odd-even transposition sort.
use vstd::prelude::*;
use crate::order::{le, permutation, sorted, total_order};
use crate::sorting::inversions::{disorder, exchange_if_above};
use crate::sorting::slices::{lemma_ascending_sorted, lemma_sorted_whole};

verus! {

/// Sorts `arr` in place by rounds that first compare every element at an
/// odd position with its right neighbour, then every element at an even
/// position, and exchange those that are out of order, until a round
/// exchanges nothing.
pub fn odd_even_sort<T: Ord>(arr: &mut [T])
    requires
        total_order::<T>(),
    ensures
        sorted(final(arr)@),
        permutation(final(arr)@, old(arr)@),
{
    let len = arr.len();
    if len == 0 {
        return;
    }
    let mut sorted = false;
    while !sorted
        invariant
            total_order::<T>(),
            len == arr@.len(),
            len >= 1,
            permutation(arr@, old(arr)@),
            sorted ==> crate::order::sorted(arr@),
        decreases
                disorder(arr@),
                (if sorted {
                    0int
                } else {
                    1int
                }),
    {
        let ghost round_start = arr@;
        sorted = true;
        let mut i: usize = 1;
        while i < len - 1
            invariant
                total_order::<T>(),
                len == arr@.len(),
                len >= 1,
                i % 2 == 1,
                permutation(arr@, old(arr)@),
                !sorted ==> disorder(arr@) < disorder(round_start),
                sorted ==> arr@ == round_start,
                sorted ==> forall|k: int|
                    0 <= k < i && k + 1 < len && k % 2 == 1 ==> le(#[trigger] arr@[k], arr@[k + 1]),
            decreases len - i,
        {
            if exchange_if_above(arr, i, i + 1) {
                sorted = false;
            }
            i += 2;
        }
        let ghost turn = arr@;
        let ghost odd_clean = sorted;
        let mut i: usize = 0;
        while i < len - 1
            invariant
                total_order::<T>(),
                len == arr@.len(),
                len >= 1,
                i % 2 == 0,
                permutation(arr@, old(arr)@),
                !odd_clean ==> disorder(turn) < disorder(round_start),
                odd_clean ==> turn == round_start,
                !sorted ==> !odd_clean || disorder(arr@) < disorder(turn),
                !sorted ==> disorder(arr@) <= disorder(turn),
                sorted ==> odd_clean && arr@ == turn,
                sorted ==> forall|k: int|
                    0 <= k < i && k + 1 < len && k % 2 == 0 ==> le(#[trigger] arr@[k], arr@[k + 1]),
            decreases len - i,
        {
            if exchange_if_above(arr, i, i + 1) {
                sorted = false;
            }
            i += 2;
        }
        proof {
            if sorted {
                assert forall|k: int| 0 <= k && k + 1 < len implies le(
                    #[trigger] arr@[k],
                    arr@[k + 1],
                ) by {
                    if k % 2 == 1 {
                        assert(le(round_start[k], round_start[k + 1]));
                    } else {
                        assert(le(arr@[k], arr@[k + 1]));
                    }
                }
                lemma_ascending_sorted(arr@, 0, len as int);
                lemma_sorted_whole(arr@);
            }
        }
    }
}

} // verus!
