//! Gnome sort.
use vstd::prelude::*;
use crate::order::{le, lemma_compare, lemma_le_refl, lemma_le_trans, permutation, sorted, total_order};
use crate::sorting::slices::{clone_of, lemma_swap_permutation, sorted_between};

verus! {

/// Returns a sorted vector of clones of the elements of `arr`.
///
/// The element at the front of the unsorted part walks down, one exchange
/// at a time, until the element before it is strictly smaller.
pub fn gnome_sort<T>(arr: &[T]) -> (r: Vec<T>) where T: PartialEq + PartialOrd + Clone
    requires
        total_order::<T>(),
        arr@.len() < usize::MAX,
    ensures
        sorted(r@),
        exists|copy: Seq<T>| clone_of(arr@, copy) && permutation(r@, copy),
{
    let mut arr = arr.to_vec();
    let ghost copy = arr@;
    let len = arr.len();
    let mut i: usize = 1;
    let mut j: usize = 2;
    while i < len
        invariant
            total_order::<T>(),
            len == arr@.len(),
            len < usize::MAX,
            1 <= i < j,
            i < len ==> j <= len,
            permutation(arr@, copy),
            sorted_between(arr@, 0, i as int),
            i < len ==> sorted_between(arr@, i as int, j as int),
            i < len ==> forall|p: int, q: int| 0 <= p < i < q < j ==> le(arr@[p], arr@[q]),
        decreases len + 1 - j, i,
    {
        let ghost before = arr@;
        proof {
            lemma_compare(before[i - 1], before[i as int]);
        }
        if arr[i - 1] < arr[i] {
            proof {
                assert forall|a: int, b: int| 0 <= a <= b < j implies le(before[a], before[b]) by {
                    if b < i {
                        assert(le(before[a], before[b]));
                    } else if a >= i {
                        assert(le(before[a], before[b]));
                    } else {
                        assert(le(before[a], before[i - 1]));
                        assert(le(before[i as int], before[b]));
                        lemma_le_trans(before[a], before[i - 1], before[i as int]);
                        lemma_le_trans(before[a], before[i as int], before[b]);
                    }
                }
            }
            i = j;
            j = i + 1;
        } else {
            proof {
                lemma_swap_permutation(arr@, i - 1, i as int);
            }
            arr.swap(i - 1, i);
            let ghost after = arr@;
            proof {
                let x = before[i as int];
                let y = before[i - 1];
                assert(after[i - 1] == x && after[i as int] == y);
                assert forall|a: int, b: int| i - 1 <= a <= b < j implies le(
                    after[a],
                    after[b],
                ) by {
                    if a == b {
                        lemma_le_refl(after[a]);
                    } else if a == i - 1 {
                        if b == i {
                        } else {
                            assert(after[b] == before[b]);
                            assert(le(before[i as int], before[b]));
                        }
                    } else if a == i {
                        assert(after[b] == before[b]);
                        assert(le(before[i - 1], before[b]));
                    } else {
                        assert(le(before[a], before[b]));
                    }
                }
                assert forall|p: int, q: int| 0 <= p < i - 1 < q < j implies le(
                    after[p],
                    after[q],
                ) by {
                    if q == i {
                        assert(le(before[p], before[i - 1]));
                    } else {
                        assert(le(before[p], before[q]));
                    }
                }
                assert forall|a: int, b: int| 0 <= a <= b < i - 1 implies le(
                    after[a],
                    after[b],
                ) by {
                    assert(le(before[a], before[b]));
                }
            }
            i -= 1;
            if i == 0 {
                i = j;
                j += 1;
            }
        }
    }
    arr
}

} // verus!
