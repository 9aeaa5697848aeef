//! Merge sort, top down.
use vstd::prelude::*;
use crate::order::{le, lemma_compare, lemma_le_refl, permutation, sorted, total_order};
use crate::sorting::slices::{
    lemma_in_order_left, lemma_in_order_right, lemma_merged_all, lemma_merged_left,
    lemma_merged_none, lemma_merged_right, lemma_sorted_stretch, merged, merged_in_order,
    sorted_between,
};

verus! {

/// Sorts `arr` in place by sorting its two halves and merging them.
pub fn merge_sort<T>(arr: &mut [T]) where T: PartialOrd + Clone + Default
    requires
        total_order::<T>(),
    ensures
        sorted(final(arr)@),
        permutation(final(arr)@, old(arr)@),
{
    if arr.len() > 1 {
        merge_sort_range(arr, 0, arr.len() - 1);
    }
}

/// Sorts the elements of `arr` from position `lo` to position `hi`, both
/// included, and leaves the others where they are.
fn merge_sort_range<T>(arr: &mut [T], lo: usize, hi: usize) where T: PartialOrd + Clone + Default
    requires
        total_order::<T>(),
        lo <= hi < old(arr)@.len(),
    ensures
        final(arr)@.len() == old(arr)@.len(),
        permutation(final(arr)@, old(arr)@),
        sorted_between(final(arr)@, lo as int, hi + 1),
        forall|k: int|
            0 <= k < old(arr)@.len() && !(lo <= k <= hi) ==> final(arr)@[k] == old(arr)@[k],
    decreases hi - lo,
{
    if lo < hi {
        let width = hi - lo;
        let half = width >> 1;
        proof {
            assert(width >> 1 == width / 2) by (bit_vector);
        }
        let mid = lo + half;
        merge_sort_range(arr, lo, mid);
        let ghost first = arr@;
        merge_sort_range(arr, mid + 1, hi);
        proof {
            assert forall|a: int, b: int| lo <= a <= b < mid + 1 implies le(arr@[a], arr@[b]) by {
                assert(le(first[a], first[b]));
            }
        }
        merge_two_arrays(arr, lo, mid, hi);
    } else {
        proof {
            lemma_le_refl(arr@[lo as int]);
        }
    }
}

/// Moves the elements of `arr` from position `from` up to, but not
/// including, `to` into a vector of their own. What is left in their places
/// is unspecified.
fn move_out<T: Default>(arr: &mut [T], from: usize, to: usize) -> (run: Vec<T>)
    requires
        from <= to <= old(arr)@.len(),
    ensures
        run@ == old(arr)@.subrange(from as int, to as int),
        final(arr)@.len() == old(arr)@.len(),
        forall|k: int|
            0 <= k < old(arr)@.len() && !(from <= k < to) ==> final(arr)@[k] == old(arr)@[k],
{
    let mut run: Vec<T> = Vec::new();
    let mut p: usize = from;
    while p < to
        invariant
            from <= p <= to <= arr@.len(),
            arr@.len() == old(arr)@.len(),
            run@ == old(arr)@.subrange(from as int, p as int),
            forall|k: int|
                0 <= k < old(arr)@.len() && !(from <= k < p) ==> arr@[k] == old(arr)@[k],
        decreases to - p,
    {
        let x = core::mem::take(&mut arr[p]);
        run.push(x);
        proof {
            assert(run@ =~= old(arr)@.subrange(from as int, p + 1));
        }
        p += 1;
    }
    run
}

/// Merges the run of `arr` from `lo` to `mid` with the run from `mid + 1` to
/// `hi` (positions included). The stretch from `lo` to `hi` holds
/// afterwards what it held before, in sorted order where both runs were
/// sorted; the rest of `arr` stays as it was.
fn merge_two_arrays<T>(arr: &mut [T], lo: usize, mid: usize, hi: usize) where
    T: PartialOrd + Clone + Default,

    requires
        total_order::<T>(),
        lo <= mid < hi < old(arr)@.len(),
    ensures
        final(arr)@.len() == old(arr)@.len(),
        permutation(final(arr)@, old(arr)@),
        sorted_between(old(arr)@, lo as int, mid + 1) && sorted_between(
            old(arr)@,
            mid + 1,
            hi + 1,
        ) ==> sorted_between(final(arr)@, lo as int, hi + 1),
        forall|k: int|
            0 <= k < old(arr)@.len() && !(lo <= k <= hi) ==> final(arr)@[k] == old(arr)@[k],
{
    let n = arr.len();
    let mut arr1 = move_out(arr, lo, mid + 1);
    let mut arr2 = move_out(arr, mid + 1, hi + 1);
    let ghost l = arr1@;
    let ghost r = arr2@;
    let ghost runs_sorted = sorted_between(old(arr)@, lo as int, mid + 1) && sorted_between(
        old(arr)@,
        mid + 1,
        hi + 1,
    );
    let (mut i, mut j): (usize, usize) = (0, 0);
    proof {
        lemma_merged_none(arr@, lo as int, l, r);
        if runs_sorted {
            lemma_sorted_stretch(old(arr)@, lo as int, mid + 1);
            lemma_sorted_stretch(old(arr)@, mid + 1, hi + 1);
        }
    }
    while i < arr1.len() || j < arr2.len()
        invariant
            total_order::<T>(),
            n == arr@.len(),
            arr@.len() == old(arr)@.len(),
            lo <= mid < hi < n,
            l == old(arr)@.subrange(lo as int, mid + 1),
            r == old(arr)@.subrange(mid + 1, hi + 1),
            arr1@.len() == l.len(),
            arr2@.len() == r.len(),
            i <= l.len(),
            j <= r.len(),
            forall|p: int| i <= p < l.len() ==> arr1@[p] == l[p],
            forall|q: int| j <= q < r.len() ==> arr2@[q] == r[q],
            merged(arr@, lo as int, lo + i + j, l, i as int, r, j as int),
            forall|x: int| 0 <= x < n && !(lo <= x <= hi) ==> arr@[x] == old(arr)@[x],
            runs_sorted ==> sorted_between(l, 0, l.len() as int) && sorted_between(
                r,
                0,
                r.len() as int,
            ),
            runs_sorted ==> merged_in_order(arr@, lo as int, lo + i + j, l, i as int, r, j as int),
        decreases l.len() - i + r.len() - j,
    {
        let ghost before = arr@;
        let take_left = if j >= arr2.len() {
            true
        } else if i >= arr1.len() {
            false
        } else {
            proof {
                lemma_compare(l[i as int], r[j as int]);
            }
            arr1[i] < arr2[j]
        };
        if take_left {
            let x = core::mem::take(&mut arr1[i]);
            arr[i + j + lo] = x;
            proof {
                lemma_merged_left(before, arr@, lo as int, lo + i + j, l, i as int, r, j as int);
                if runs_sorted {
                    lemma_in_order_left(
                        before,
                        arr@,
                        lo as int,
                        lo + i + j,
                        l,
                        i as int,
                        r,
                        j as int,
                    );
                }
            }
            i += 1;
        } else {
            let x = core::mem::take(&mut arr2[j]);
            arr[i + j + lo] = x;
            proof {
                lemma_merged_right(before, arr@, lo as int, lo + i + j, l, i as int, r, j as int);
                if runs_sorted {
                    lemma_in_order_right(
                        before,
                        arr@,
                        lo as int,
                        lo + i + j,
                        l,
                        i as int,
                        r,
                        j as int,
                    );
                }
            }
            j += 1;
        }
    }
    proof {
        lemma_merged_all(old(arr)@, arr@, lo as int, mid + 1, hi + 1);
    }
}

} // verus!
