//! Selection sort.
use vstd::prelude::*;
use crate::order::{le, lemma_compare, lemma_le_refl, lemma_le_trans, permutation, sorted, total_order};
use crate::sorting::slices::{lemma_swap_permutation, sorted_between, split_at};

verus! {

/// Sorts `arr` in place: for each position in turn, the smallest of the
/// remaining elements is exchanged into it.
pub fn selection_sort<T: PartialOrd>(arr: &mut [T])
    requires
        total_order::<T>(),
    ensures
        sorted(final(arr)@),
        permutation(final(arr)@, old(arr)@),
{
    if arr.len() <= 1 {
        return;
    }
    let size = arr.len();
    let mut i: usize = 0;
    while i < size - 1
        invariant
            total_order::<T>(),
            size == arr@.len(),
            size >= 2,
            i <= size - 1,
            permutation(arr@, old(arr)@),
            sorted_between(arr@, 0, i as int),
            split_at(arr@, i as int),
        decreases size - i,
    {
        let mut min_index = i;
        let mut j: usize = i + 1;
        while j < size
            invariant
                total_order::<T>(),
                size == arr@.len(),
                i < size - 1,
                i < j <= size,
                i <= min_index < j,
                forall|a: int| i <= a < j ==> le(arr@[min_index as int], #[trigger] arr@[a]),
            decreases size - j,
        {
            let ghost best = arr@[min_index as int];
            proof {
                lemma_compare(arr@[j as int], best);
            }
            if arr[j] < arr[min_index] {
                proof {
                    let low = arr@[j as int];
                    assert forall|a: int| i <= a < j + 1 implies le(low, #[trigger] arr@[a]) by {
                        if a == j {
                            lemma_le_refl(low);
                        } else {
                            lemma_le_trans(low, best, arr@[a]);
                        }
                    }
                }
                min_index = j;
            }
            j += 1;
        }
        let ghost before = arr@;
        if min_index != i {
            proof {
                lemma_swap_permutation(arr@, i as int, min_index as int);
            }
            arr.swap(i, min_index);
        }
        proof {
            let after = arr@;
            let low = after[i as int];
            assert(low == before[min_index as int]);
            assert forall|a: int, b: int| 0 <= a <= b < i + 1 implies le(after[a], after[b]) by {
                if b == i {
                    if a == i {
                        lemma_le_refl(low);
                    } else {
                        assert(le(before[a], before[min_index as int]));
                    }
                } else {
                    assert(le(before[a], before[b]));
                }
            }
            assert forall|a: int, b: int| 0 <= a < i + 1 <= b < after.len() implies le(
                after[a],
                after[b],
            ) by {
                if a == i {
                    if b == min_index {
                        assert(after[b] == before[i as int]);
                        assert(le(before[min_index as int], before[i as int]));
                    } else {
                        assert(after[b] == before[b]);
                        assert(le(before[min_index as int], before[b]));
                    }
                } else {
                    if b == min_index {
                        assert(after[b] == before[i as int]);
                        assert(le(before[a], before[i as int]));
                    } else {
                        assert(le(before[a], before[b]));
                    }
                }
            }
        }
        i += 1;
    }
    proof {
        assert forall|a: int, b: int| 0 <= a <= b < arr@.len() implies le(arr@[a], arr@[b]) by {
            if b < size - 1 {
                assert(le(arr@[a], arr@[b]));
            } else if a < size - 1 {
                assert(le(arr@[a], arr@[b]));
            } else {
                lemma_le_refl(arr@[a]);
            }
        }
    }
}

} // verus!
