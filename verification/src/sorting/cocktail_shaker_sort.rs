//! Cocktail shaker sort: bubble passes that alternate in direction.
use vstd::prelude::*;
use crate::order::{permutation, sorted, total_order};
use crate::sorting::inversions::{disorder, exchange_if_above};
use crate::sorting::slices::{ascending, lemma_ascending_sorted, lemma_sorted_whole};

verus! {

/// Sorts `arr` in place by passes that run forwards and backwards in turn
/// and exchange neighbours that are out of order, until a pass exchanges
/// nothing.
pub fn cocktail_shaker_sort<T: Ord>(arr: &mut [T])
    requires
        total_order::<T>(),
    ensures
        sorted(final(arr)@),
        permutation(final(arr)@, old(arr)@),
{
    let len = arr.len();
    if len == 0 {
        return;
    }
    loop
        invariant
            total_order::<T>(),
            len == arr@.len(),
            len >= 1,
            permutation(arr@, old(arr)@),
        ensures
            sorted(arr@),
            permutation(arr@, old(arr)@),
        decreases disorder(arr@),
    {
        let ghost round_start = arr@;
        let mut swapped = false;
        let mut i: usize = 0;
        while i < len - 1
            invariant
                total_order::<T>(),
                len == arr@.len(),
                len >= 1,
                i <= len - 1,
                permutation(arr@, old(arr)@),
                swapped ==> disorder(arr@) < disorder(round_start),
                !swapped ==> arr@ == round_start && ascending(arr@, 0, i + 1),
            decreases len - i,
        {
            if exchange_if_above(arr, i, i + 1) {
                swapped = true;
            }
            i += 1;
        }
        if !swapped {
            proof {
                lemma_ascending_sorted(arr@, 0, len as int);
                lemma_sorted_whole(arr@);
            }
            break;
        }
        let ghost turn = arr@;
        swapped = false;
        let mut i: usize = len - 1;
        while i > 0
            invariant
                total_order::<T>(),
                len == arr@.len(),
                len >= 1,
                i <= len - 1,
                permutation(arr@, old(arr)@),
                disorder(turn) < disorder(round_start),
                swapped ==> disorder(arr@) < disorder(turn),
                !swapped ==> arr@ == turn && ascending(arr@, i as int, len as int),
            decreases i,
        {
            i -= 1;
            if exchange_if_above(arr, i, i + 1) {
                swapped = true;
            }
        }
        if !swapped {
            proof {
                lemma_ascending_sorted(arr@, 0, len as int);
                lemma_sorted_whole(arr@);
            }
            break;
        }
    }
}

} // verus!
