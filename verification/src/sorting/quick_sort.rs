//! Quick sort with the first element of each stretch as its pivot.
use vstd::prelude::*;
use rand::Rng;
use crate::order::{
    le,
    lemma_compare,
    lemma_le_refl,
    lemma_le_trans,
    lt,
    permutation,
    sorted,
    total_order,
};
use crate::sorting::slices::{
    lemma_replace_stretch,
    lemma_stretch_member,
    lemma_stretch_widen,
    lemma_swap_in_stretch,
    sorted_between,
    swapped,
};

verus! {

/// The stretch of `s` from `lo` to `hi` (positions included) is split at
/// position `p` around the value `pv`: nothing up to `p` is above `pv` and
/// nothing after `p` is below it.
pub open spec fn split_around<T: PartialOrd>(s: Seq<T>, lo: int, p: int, hi: int, pv: T) -> bool {
    &&& lo <= p <= hi
    &&& forall|x: int| lo <= x <= p ==> le(#[trigger] s[x], pv)
    &&& forall|x: int| p < x <= hi ==> le(pv, #[trigger] s[x])
}

/// `after` differs from `before` only by a permutation of the stretch from
/// `lo` to `hi` (positions included).
pub open spec fn permuted_within<T>(before: Seq<T>, after: Seq<T>, lo: int, hi: int) -> bool {
    &&& after.len() == before.len()
    &&& forall|k: int| 0 <= k < before.len() && !(lo <= k <= hi) ==> after[k] == before[k]
    &&& lo <= hi ==> permutation(after.subrange(lo, hi + 1), before.subrange(lo, hi + 1))
    &&& lo > hi ==> after == before
}

/// A permutation within a stretch is a permutation of the whole.
pub proof fn lemma_permuted_whole<T>(before: Seq<T>, after: Seq<T>, lo: int, hi: int)
    requires
        0 <= lo,
        hi < before.len(),
        permuted_within(before, after, lo, hi),
    ensures
        permutation(after, before),
{
    if lo <= hi {
        lemma_replace_stretch(before, after, lo, hi + 1);
    }
}

/// Permutations within stretches of a stretch compose to a permutation
/// within the stretch.
pub proof fn lemma_permuted_step<T>(
    before: Seq<T>,
    mid: Seq<T>,
    after: Seq<T>,
    lo: int,
    hi: int,
    a: int,
    b: int,
)
    requires
        0 <= lo <= hi < before.len(),
        permuted_within(before, mid, lo, hi),
        lo <= a,
        b <= hi,
        permuted_within(mid, after, a, b),
    ensures
        permuted_within(before, after, lo, hi),
{
    if a <= b {
        lemma_stretch_widen(mid, after, a, b + 1, lo, hi + 1);
    }
}

/// Moves the elements of the stretch from `lo` to `hi` that are above the
/// pivot, the element at `lo`, behind those that are below it, and returns
/// the position at which the two groups meet. The pivot stays at `lo`.
fn partition_helper<T: PartialOrd>(arr: &mut [T], pivot: usize, lo: usize, hi: usize) -> (p: usize)
    requires
        total_order::<T>(),
        pivot == lo,
        lo < old(arr)@.len(),
        hi < old(arr)@.len(),
    ensures
        permuted_within(old(arr)@, final(arr)@, lo as int, hi as int),
        final(arr)@[lo as int] == old(arr)@[lo as int],
        lo <= hi ==> split_around(final(arr)@, lo as int, p as int, hi as int, old(arr)@[lo as int]),
        lo > hi ==> p == lo,
{
    let mut left = lo;
    let mut right = hi;
    let ghost pv = arr@[lo as int];
    proof {
        lemma_le_refl(pv);
    }
    while left < right
        invariant
            total_order::<T>(),
            pivot == lo,
            lo < arr@.len(),
            hi < arr@.len(),
            lo > hi ==> left == lo && right == hi && arr@ == old(arr)@,
            lo <= hi ==> lo <= left <= right <= hi,
            arr@[lo as int] == pv,
            pv == old(arr)@[lo as int],
            permuted_within(old(arr)@, arr@, lo as int, hi as int),
            forall|x: int| lo <= x <= left ==> le(#[trigger] arr@[x], pv),
            forall|x: int| right < x <= hi ==> le(pv, #[trigger] arr@[x]),
        decreases
                right - left,
                (if le(pv, arr@[right as int]) {
                    0int
                } else {
                    1int
                }),
    {
        let ghost left0 = left;
        let ghost right0 = right;
        let ghost before = arr@;
        while left < right && arr[right] >= arr[pivot]
            invariant
                total_order::<T>(),
                pivot == lo,
                lo <= left <= right <= right0 <= hi < arr@.len(),
                left == left0,
                arr@ == before,
                arr@[lo as int] == pv,
                forall|x: int| right < x <= hi ==> le(pv, #[trigger] arr@[x]),
                right < right0 ==> le(pv, arr@[right0 as int]),
            decreases right,
        {
            proof {
                lemma_compare(arr@[right as int], pv);
            }
            right -= 1;
        }
        proof {
            lemma_compare(arr@[right as int], pv);
        }
        while left < right && arr[left] <= arr[pivot]
            invariant
                total_order::<T>(),
                pivot == lo,
                lo <= left0 <= left <= right <= hi < arr@.len(),
                arr@ == before,
                arr@[lo as int] == pv,
                forall|x: int| lo <= x < left ==> le(#[trigger] arr@[x], pv),
                le(arr@[left0 as int], pv),
                left0 < right ==> lt(arr@[right as int], pv),
            decreases right - left,
        {
            proof {
                lemma_compare(arr@[left as int], pv);
            }
            left += 1;
        }
        proof {
            lemma_compare(arr@[left as int], pv);
            lemma_compare(arr@[right as int], pv);
        }
        if left != right {
            proof {
                lemma_swap_in_stretch(arr@, lo as int, hi + 1, left as int, right as int);
            }
            arr.swap(left, right);
            proof {
                assert(arr@ == swapped(before, left as int, right as int));
                lemma_stretch_widen(before, arr@, lo as int, hi + 1, lo as int, hi + 1);
                lemma_compare(arr@[right as int], pv);
                assert forall|x: int| right < x <= hi implies le(pv, #[trigger] arr@[x]) by {
                    assert(arr@[x] == before[x]);
                }
                assert forall|x: int| lo <= x <= left implies le(#[trigger] arr@[x], pv) by {
                    if x < left {
                        assert(arr@[x] == before[x]);
                    }
                }
            }
        }
    }
    left
}

/// Splits the stretch of `arr` from `lo` to `hi` (positions included)
/// around its first element: that element ends up at the returned position,
/// behind everything below it and before everything above it.
pub fn partition<T: PartialOrd>(arr: &mut [T], lo: usize, hi: usize) -> (p: usize)
    requires
        total_order::<T>(),
        lo < old(arr)@.len(),
        hi < old(arr)@.len(),
    ensures
        permuted_within(old(arr)@, final(arr)@, lo as int, hi as int),
        permutation(final(arr)@, old(arr)@),
        lo > hi ==> p == lo,
        lo <= hi ==> {
            &&& final(arr)@[p as int] == old(arr)@[lo as int]
            &&& split_around(final(arr)@, lo as int, p as int, hi as int, final(arr)@[p as int])
        },
{
    let pivot = lo;
    let partition_pos = partition_helper(arr, pivot, lo, hi);
    let ghost mid = arr@;
    proof {
        if lo <= hi {
            lemma_swap_in_stretch(mid, lo as int, hi + 1, pivot as int, partition_pos as int);
        }
    }
    arr.swap(pivot, partition_pos);
    proof {
        assert(arr@ == swapped(mid, pivot as int, partition_pos as int));
        if lo <= hi {
            assert(permuted_within(mid, arr@, lo as int, hi as int));
            lemma_permuted_step(old(arr)@, mid, arr@, lo as int, hi as int, lo as int, hi as int);
            let pv = arr@[partition_pos as int];
            assert forall|x: int| lo <= x <= partition_pos implies le(#[trigger] arr@[x], pv) by {
                if x == lo {
                    assert(le(mid[partition_pos as int], pv));
                } else if x == partition_pos {
                    lemma_le_refl(pv);
                } else {
                    assert(le(mid[x], pv));
                }
            }
            assert forall|x: int| partition_pos < x <= hi implies le(pv, #[trigger] arr@[x]) by {
                assert(le(pv, mid[x]));
            }
        } else {
            assert(arr@ =~= old(arr)@);
        }
        lemma_permuted_whole(old(arr)@, arr@, lo as int, hi as int);
    }
    partition_pos
}

/// A position between `lo` and `hi`, both included, picked at random.
///
/// Calls `rand::thread_rng` and `Rng::gen_range` on the inclusive range,
/// which hands out a value of the range and panics on an empty one; which
/// value comes back is left open.
#[verifier::external_body]
fn random_between(lo: usize, hi: usize) -> (r: usize)
    requires
        lo <= hi,
    ensures
        lo <= r <= hi,
{
    let mut rng = rand::thread_rng();
    rng.gen_range(lo..=hi)
}

/// Splits the stretch of `arr` from `lo` to `hi` (positions included)
/// around one of its elements, picked at random: that element ends up at
/// the returned position, behind everything below it and before everything
/// above it.
pub fn partition_random<T: PartialOrd>(arr: &mut [T], lo: usize, hi: usize) -> (p: usize)
    requires
        total_order::<T>(),
        lo <= hi < old(arr)@.len(),
    ensures
        permuted_within(old(arr)@, final(arr)@, lo as int, hi as int),
        permutation(final(arr)@, old(arr)@),
        split_around(final(arr)@, lo as int, p as int, hi as int, final(arr)@[p as int]),
{
    let pivot = random_between(lo, hi);
    proof {
        lemma_swap_in_stretch(arr@, lo as int, hi + 1, lo as int, pivot as int);
    }
    arr.swap(lo, pivot);
    let ghost first = arr@;
    proof {
        assert(first == swapped(old(arr)@, lo as int, pivot as int));
        assert(permuted_within(old(arr)@, first, lo as int, hi as int));
    }
    let partition_pos = partition_helper(arr, lo, lo, hi);
    let ghost mid = arr@;
    proof {
        lemma_permuted_step(old(arr)@, first, mid, lo as int, hi as int, lo as int, hi as int);
        lemma_swap_in_stretch(mid, lo as int, hi + 1, lo as int, partition_pos as int);
    }
    arr.swap(lo, partition_pos);
    proof {
        assert(arr@ == swapped(mid, lo as int, partition_pos as int));
        assert(permuted_within(mid, arr@, lo as int, hi as int));
        lemma_permuted_step(old(arr)@, mid, arr@, lo as int, hi as int, lo as int, hi as int);
        let pv = arr@[partition_pos as int];
        assert forall|x: int| lo <= x <= partition_pos implies le(#[trigger] arr@[x], pv) by {
            if x == lo {
                assert(le(mid[partition_pos as int], pv));
            } else if x == partition_pos {
                lemma_le_refl(pv);
            } else {
                assert(le(mid[x], pv));
            }
        }
        assert forall|x: int| partition_pos < x <= hi implies le(pv, #[trigger] arr@[x]) by {
            assert(le(pv, mid[x]));
        }
        lemma_permuted_whole(old(arr)@, arr@, lo as int, hi as int);
    }
    partition_pos
}

/// Sorts the elements of `arr` from position `lo` to position `hi`, both
/// included, and leaves the others where they are.
fn quick_sort_range<T: PartialOrd>(arr: &mut [T], lo: usize, hi: usize)
    requires
        total_order::<T>(),
        lo < hi ==> hi < old(arr)@.len(),
    ensures
        lo < hi ==> permuted_within(old(arr)@, final(arr)@, lo as int, hi as int),
        lo >= hi ==> final(arr)@ == old(arr)@,
        lo < hi ==> sorted_between(final(arr)@, lo as int, hi + 1),
    decreases
            (if lo < hi {
                hi - lo
            } else {
                0
            }),
{
    if lo < hi {
        let n = arr.len();
        let pos = partition(arr, lo, hi);
        let ghost first = arr@;
        let ghost pv = first[pos as int];
        if pos != 0 {
            quick_sort_range(arr, lo, pos - 1);
        }
        let ghost second = arr@;
        proof {
            if lo >= pos - 1 {
                assert(second == first);
            }
        }
        quick_sort_range(arr, pos + 1, hi);
        let ghost third = arr@;
        proof {
            // the left part only holds what it held after the split
            assert forall|x: int| lo <= x < pos implies le(#[trigger] third[x], pv) by {
                assert(third[x] == second[x]);
                if lo < pos - 1 {
                    let y = lemma_stretch_member(first, second, lo as int, pos as int, x);
                    assert(le(first[y], pv));
                } else {
                    assert(le(first[x], pv));
                }
            }
            assert forall|x: int| pos < x <= hi implies le(pv, #[trigger] third[x]) by {
                if pos + 1 < hi {
                    let y = lemma_stretch_member(second, third, pos + 1, hi + 1, x);
                    assert(second[y] == first[y]);
                    assert(le(pv, first[y]));
                } else {
                    assert(third[x] == first[x]);
                    assert(le(pv, first[x]));
                }
            }
            assert(third[pos as int] == pv);
            assert forall|a: int, b: int| lo <= a <= b < hi + 1 implies le(third[a], third[b]) by {
                if b < pos {
                    assert(third[a] == second[a] && third[b] == second[b]);
                    if lo < pos - 1 {
                        assert(le(second[a], second[b]));
                    } else {
                        lemma_le_refl(third[a]);
                    }
                } else if a > pos {
                    if pos + 1 < hi {
                        assert(le(third[a], third[b]));
                    } else {
                        lemma_le_refl(third[a]);
                    }
                } else if a == pos {
                    if b == pos {
                        lemma_le_refl(pv);
                    }
                } else {
                    if b > pos {
                        lemma_le_trans(third[a], pv, third[b]);
                    }
                }
            }
            if lo < pos - 1 {
                lemma_permuted_step(old(arr)@, first, second, lo as int, hi as int, lo as int, pos - 1);
            }
            if pos + 1 < hi {
                lemma_permuted_step(old(arr)@, second, third, lo as int, hi as int, pos + 1, hi as int);
            }
        }
    }
}

/// Sorts `arr` in place by splitting around a pivot and sorting both sides.
pub fn quick_sort<T: PartialOrd>(arr: &mut [T])
    requires
        total_order::<T>(),
    ensures
        sorted(final(arr)@),
        permutation(final(arr)@, old(arr)@),
{
    if arr.len() > 1 {
        quick_sort_range(arr, 0, arr.len() - 1);
        proof {
            lemma_permuted_whole(old(arr)@, arr@, 0, arr@.len() - 1);
        }
    } else {
        proof {
            if arr@.len() == 1 {
                lemma_le_refl(arr@[0]);
            }
        }
    }
}

} // verus!
