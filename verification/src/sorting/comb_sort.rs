//! Comb sort: bubble passes over elements a shrinking gap apart.
use vstd::prelude::*;
use crate::order::{permutation, sorted, total_order};
use crate::sorting::inversions::{disorder, exchange_if_above};
use crate::sorting::slices::{ascending, lemma_ascending_sorted, lemma_sorted_whole};

verus! {

/// The gap that follows `gap`: ten thirteenths of it, rounded down, which
/// shrinks it by the factor 1.3.
pub open spec fn shrunk(gap: nat) -> nat {
    gap * 10 / 13
}

/// The gap that follows `gap`.
fn shrink(gap: usize) -> (next: usize)
    ensures
        next == shrunk(gap as nat),
        gap >= 1 ==> next < gap,
{
    let whole = gap / 13;
    let rest = gap % 13;
    proof {
        assert(gap == 13 * whole + rest);
        assert((13 * whole + rest) * 10 / 13 == whole * 10 + rest * 10 / 13) by (nonlinear_arith)
            requires
                0 <= rest < 13,
        ;
    }
    whole * 10 + rest * 10 / 13
}

/// Sorts `arr` in place by passes that compare elements a gap apart and
/// exchange those that are out of order. The gap starts at the length of
/// the slice and shrinks by the factor 1.3 from pass to pass; once it is
/// one, passes are repeated until one exchanges nothing.
pub fn comb_sort<T: Ord>(arr: &mut [T])
    requires
        total_order::<T>(),
    ensures
        sorted(final(arr)@),
        permutation(final(arr)@, old(arr)@),
{
    let len = arr.len();
    if len == 0 {
        return;
    }
    let mut gap = len;
    let mut sorted = false;
    while !sorted
        invariant
            total_order::<T>(),
            len == arr@.len(),
            len >= 1,
            1 <= gap <= len,
            permutation(arr@, old(arr)@),
            sorted ==> crate::order::sorted(arr@),
        decreases
                gap,
                disorder(arr@),
                (if sorted {
                    0int
                } else {
                    1int
                }),
    {
        let ghost pass_start = arr@;
        gap = shrink(gap);
        if gap <= 1 {
            gap = 1;
            sorted = true;
        }
        let mut i: usize = 0;
        while i < len - gap
            invariant
                total_order::<T>(),
                len == arr@.len(),
                1 <= gap <= len,
                i <= len - gap,
                permutation(arr@, old(arr)@),
                disorder(arr@) <= disorder(pass_start),
                sorted ==> gap == 1 && arr@ == pass_start && ascending(arr@, 0, i + 1),
                gap == 1 && !sorted ==> disorder(arr@) < disorder(pass_start),
            decreases len - i,
        {
            let j = i + gap;
            if exchange_if_above(arr, i, j) {
                sorted = false;
            }
            i += 1;
        }
        proof {
            if sorted {
                lemma_ascending_sorted(arr@, 0, len as int);
                lemma_sorted_whole(arr@);
            }
        }
    }
}

} // verus!
