//! Bubble sort, with and without the early exit.
use vstd::prelude::*;
use crate::order::{le, lemma_compare, lemma_le_refl, lemma_le_trans, permutation, sorted, total_order};
use crate::sorting::slices::{
    ascending, lemma_ascending_sorted, lemma_sorted_parts, lemma_swap_permutation, sorted_between,
    split_at,
};

verus! {

/// Sorts `arr` in place by repeated passes that carry the largest remaining
/// element to the end of the unsorted prefix.
pub fn bubble_sort_without_flag<T: PartialOrd>(arr: &mut [T])
    requires
        total_order::<T>(),
    ensures
        sorted(final(arr)@),
        permutation(final(arr)@, old(arr)@),
{
    let n = arr.len();
    if n == 0 {
        return;
    }
    let mut i: usize = n - 1;
    while i >= 1
        invariant
            total_order::<T>(),
            n == arr@.len(),
            i < n,
            permutation(arr@, old(arr)@),
            forall|a: int, b: int| i < a <= b < n ==> le(arr@[a], arr@[b]),
            forall|a: int, b: int| 0 <= a <= i < b < n ==> le(arr@[a], arr@[b]),
        decreases i,
    {
        let mut j: usize = 0;
        while j < i
            invariant
                total_order::<T>(),
                n == arr@.len(),
                1 <= i < n,
                j <= i,
                permutation(arr@, old(arr)@),
                forall|a: int, b: int| i < a <= b < n ==> le(arr@[a], arr@[b]),
                forall|a: int, b: int| 0 <= a <= i < b < n ==> le(arr@[a], arr@[b]),
                forall|a: int| 0 <= a <= j ==> le(arr@[a], arr@[j as int]),
            decreases i - j,
        {
            let ghost before = arr@;
            proof {
                lemma_compare(before[j as int], before[j + 1]);
            }
            if arr[j] > arr[j + 1] {
                proof {
                    lemma_swap_permutation(arr@, j as int, j + 1);
                }
                arr.swap(j, j + 1);
            }
            proof {
                let after = arr@;
                let top = after[j + 1];
                assert forall|a: int| 0 <= a <= j + 1 implies le(#[trigger] after[a], top) by {
                    if a == j + 1 {
                        lemma_le_refl(top);
                    } else if a < j {
                        assert(after[a] == before[a]);
                        lemma_le_trans(before[a], before[j as int], top);
                    }
                }
            }
            j += 1;
        }
        i -= 1;
    }
}

/// Sorts `arr` in place by passes that carry the largest remaining element
/// to the end, and stops after the first pass that exchanges nothing.
pub fn bubble_sort<T: PartialOrd>(arr: &mut [T])
    requires
        total_order::<T>(),
    ensures
        sorted(final(arr)@),
        permutation(final(arr)@, old(arr)@),
{
    if arr.len() <= 1 {
        return;
    }
    let size = arr.len();
    let mut i: usize = 0;
    while i < size - 1
        invariant
            total_order::<T>(),
            size == arr@.len(),
            size >= 2,
            i <= size - 1,
            permutation(arr@, old(arr)@),
            sorted_between(arr@, size - i, size as int),
            split_at(arr@, size - i),
        ensures
            sorted(arr@),
            permutation(arr@, old(arr)@),
        decreases size - i,
    {
        let mut swapped = false;
        let mut j: usize = 1;
        while j < size - i
            invariant
                total_order::<T>(),
                size == arr@.len(),
                i < size - 1,
                1 <= j <= size - i,
                permutation(arr@, old(arr)@),
                sorted_between(arr@, size - i, size as int),
                split_at(arr@, size - i),
                forall|a: int| 0 <= a < j ==> le(#[trigger] arr@[a], arr@[j - 1]),
                !swapped ==> ascending(arr@, 0, j as int),
            decreases size - j,
        {
            let ghost before = arr@;
            proof {
                lemma_compare(before[j - 1], before[j as int]);
            }
            if arr[j - 1] > arr[j] {
                proof {
                    lemma_swap_permutation(arr@, j - 1, j as int);
                }
                arr.swap(j - 1, j);
                swapped = true;
            }
            proof {
                let after = arr@;
                let top = after[j as int];
                assert forall|a: int| 0 <= a < j + 1 implies le(#[trigger] after[a], top) by {
                    if a == j {
                        lemma_le_refl(top);
                    } else if a < j - 1 {
                        assert(after[a] == before[a]);
                        lemma_le_trans(before[a], before[j - 1], top);
                    }
                }
            }
            j += 1;
        }
        if !swapped {
            proof {
                lemma_ascending_sorted(arr@, 0, size - i);
                lemma_sorted_parts(arr@, size - i);
            }
            break;
        }
        i += 1;
    }
}

} // verus!
