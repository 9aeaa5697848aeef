//! Selection of the k-th smallest element by repeated splitting.
use vstd::prelude::*;
use crate::order::{le, lemma_le_trans, permutation, total_order};
use crate::sorting::quick_sort::{
    lemma_permuted_step,
    lemma_permuted_whole,
    partition,
    permuted_within,
};
use crate::sorting::slices::lemma_stretch_member;

verus! {

/// The element at position `t` of `s` is in its sorted place within the
/// stretch from `lo` to `hi` (positions included): nothing before it in the
/// stretch is above it, and nothing after it is below it.
pub open spec fn in_place<T: PartialOrd>(s: Seq<T>, lo: int, t: int, hi: int) -> bool {
    &&& lo <= t <= hi
    &&& forall|a: int| lo <= a < t ==> le(#[trigger] s[a], s[t])
    &&& forall|b: int| t < b <= hi ==> le(s[t], #[trigger] s[b])
}

/// Returns the `k`-th smallest element of `input`, counting from one, or
/// `None` where `input` is empty.
///
/// The elements of `input` are rearranged so that the one returned stands at
/// position `k - 1`, behind everything below it and before everything above
/// it, as it would in sorted order.
pub fn kth_smallest<T>(input: &mut [T], k: usize) -> (r: Option<T>) where T: PartialOrd + Copy
    requires
        total_order::<T>(),
        old(input)@.len() > 0 ==> 1 <= k <= old(input)@.len(),
    ensures
        permutation(final(input)@, old(input)@),
        old(input)@.len() == 0 ==> r is None,
        old(input)@.len() > 0 ==> r == Some(final(input)@[k - 1]) && in_place(
            final(input)@,
            0,
            k - 1,
            final(input)@.len() - 1,
        ),
{
    if input.is_empty() {
        return None;
    }
    let kth = _kth_smallest(input, k, 0, input.len() - 1);
    proof {
        lemma_permuted_whole(old(input)@, input@, 0, input@.len() - 1);
    }
    Some(kth)
}

/// Returns the `k`-th smallest element, counting from one, of the stretch of
/// `input` from `lo` to `hi` (positions included), and rearranges the
/// stretch so that this element stands in its sorted place.
fn _kth_smallest<T>(input: &mut [T], k: usize, lo: usize, hi: usize) -> (r: T) where
    T: PartialOrd + Copy,

    requires
        total_order::<T>(),
        lo <= hi < old(input)@.len(),
        1 <= k <= hi - lo + 1,
    ensures
        permuted_within(old(input)@, final(input)@, lo as int, hi as int),
        r == final(input)@[lo + k - 1],
        in_place(final(input)@, lo as int, lo + k - 1, hi as int),
    decreases hi - lo,
{
    if lo == hi {
        return input[lo];
    }
    let n = input.len();
    let pivot = partition(input, lo, hi);
    let ghost first = input@;
    let ghost pv = first[pivot as int];
    let i = pivot - lo + 1;
    if k == i {
        input[pivot]
    } else if k < i {
        let r = _kth_smallest(input, k, lo, pivot - 1);
        proof {
            let t = lo + k - 1;
            let y = lemma_stretch_member(first, input@, lo as int, pivot as int, t);
            assert(le(first[y], pv));
            assert forall|b: int| t < b <= hi implies le(input@[t], #[trigger] input@[b]) by {
                if b >= pivot {
                    assert(input@[b] == first[b]);
                    if b == pivot {
                    } else {
                        assert(le(pv, first[b]));
                        lemma_le_trans(r, pv, first[b]);
                    }
                }
            }
            lemma_permuted_step(old(input)@, first, input@, lo as int, hi as int, lo as int, pivot - 1);
        }
        r
    } else {
        let r = _kth_smallest(input, k - i, pivot + 1, hi);
        proof {
            let t = lo + k - 1;
            let y = lemma_stretch_member(first, input@, pivot + 1, hi + 1, t);
            assert(le(pv, first[y]));
            assert forall|a: int| lo <= a < t implies le(#[trigger] input@[a], input@[t]) by {
                if a <= pivot {
                    assert(input@[a] == first[a]);
                    assert(le(first[a], pv));
                    lemma_le_trans(first[a], pv, r);
                }
            }
            lemma_permuted_step(old(input)@, first, input@, lo as int, hi as int, pivot + 1, hi as int);
        }
        r
    }
}

} // verus!
