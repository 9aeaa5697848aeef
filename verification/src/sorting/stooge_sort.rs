//! Stooge sort.
use vstd::prelude::*;
use crate::order::{
    le,
    lemma_compare,
    lemma_le_refl,
    lemma_le_trans,
    lt,
    permutation,
    sorted,
    total_order,
};
use crate::sorting::inversions::exchange_if_above;
use crate::sorting::quick_sort::{lemma_permuted_step, lemma_permuted_whole, permuted_within};
use crate::sorting::slices::{lemma_stretch_member, lemma_swap_in_stretch, sorted_between};

verus! {

/// How many elements of `s` are strictly below `x`.
pub open spec fn count_below<T: PartialOrd>(s: Seq<T>, x: T) -> nat
    decreases s.len(),
{
    if s.len() == 0 {
        0
    } else {
        count_below(s.drop_last(), x) + if lt(s.last(), x) {
            1nat
        } else {
            0nat
        }
    }
}

/// Taking an element out lowers the count by one if the element is below
/// `x`, and leaves it otherwise.
pub proof fn lemma_count_remove<T: PartialOrd>(s: Seq<T>, i: int, x: T)
    requires
        0 <= i < s.len(),
    ensures
        count_below(s, x) == count_below(s.remove(i), x) + if lt(s[i], x) {
            1nat
        } else {
            0nat
        },
    decreases s.len(),
{
    if i == s.len() - 1 {
        assert(s.remove(i) =~= s.drop_last());
    } else {
        lemma_count_remove(s.drop_last(), i, x);
        assert(s.remove(i).drop_last() =~= s.drop_last().remove(i));
        assert(s.remove(i).last() == s.last());
    }
}

/// Permutations of each other have equally many elements below `x`.
pub proof fn lemma_count_permutation<T: PartialOrd>(a: Seq<T>, b: Seq<T>, x: T)
    requires
        permutation(a, b),
    ensures
        count_below(a, x) == count_below(b, x),
    decreases a.len(),
{
    broadcast use vstd::seq_lib::group_to_multiset_ensures;

    assert(a.len() == a.to_multiset().len());
    assert(b.len() == b.to_multiset().len());
    if a.len() > 0 {
        let e = a.last();
        assert(a.contains(e));
        assert(b.to_multiset().count(e) > 0);
        assert(b.contains(e));
        let i = choose|i: int| 0 <= i < b.len() && b[i] == e;
        assert(a.drop_last() =~= a.remove(a.len() - 1));
        assert(a.remove(a.len() - 1).to_multiset() =~= b.remove(i).to_multiset());
        lemma_count_permutation(a.drop_last(), b.remove(i), x);
        lemma_count_remove(b, i, x);
    }
}

/// Where a stretch only holds elements below `x`, at least as many
/// elements as the stretch is long are below `x`.
pub proof fn lemma_count_at_least<T: PartialOrd>(s: Seq<T>, from: int, to: int, x: T)
    requires
        0 <= from <= to <= s.len(),
        forall|i: int| from <= i < to ==> lt(#[trigger] s[i], x),
    ensures
        count_below(s, x) >= to - from,
    decreases s.len(),
{
    if s.len() > 0 {
        if to == s.len() {
            if from < to {
                lemma_count_at_least(s.drop_last(), from, to - 1, x);
                assert(lt(s[to - 1], x));
            }
        } else {
            lemma_count_at_least(s.drop_last(), from, to, x);
        }
    }
}

/// Where a stretch holds no element below `x`, at most as many elements as
/// lie outside the stretch are below `x`.
pub proof fn lemma_count_at_most<T: PartialOrd>(s: Seq<T>, from: int, to: int, x: T)
    requires
        0 <= from <= to <= s.len(),
        forall|i: int| from <= i < to ==> !lt(#[trigger] s[i], x),
    ensures
        count_below(s, x) <= s.len() - (to - from),
    decreases s.len(),
{
    if s.len() > 0 {
        if to == s.len() {
            if from < to {
                lemma_count_at_most(s.drop_last(), from, to - 1, x);
                assert(!lt(s[to - 1], x));
            } else {
                lemma_count_at_most(s.drop_last(), 0, 0, x);
            }
        } else {
            lemma_count_at_most(s.drop_last(), from, to, x);
        }
    }
}

/// After the first two thirds have been sorted and then the last two
/// thirds, no element of the first third is above an element of the last.
proof fn lemma_top_third<T: PartialOrd>(
    first: Seq<T>,
    second: Seq<T>,
    start: int,
    end: int,
    k: int,
    a: int,
    q: int,
)
    requires
        total_order::<T>(),
        0 <= start,
        end < first.len(),
        1 <= k,
        3 * k <= end - start + 1,
        sorted_between(first, start, end - k + 1),
        permuted_within(first, second, start + k, end),
        sorted_between(second, start + k, end + 1),
        start <= a < start + k,
        end - k < q <= end,
    ensures
        le(second[a], second[q]),
{
    let x = second[a];
    assert(x == first[a]);
    lemma_compare(second[q], x);
    if lt(second[q], x) {
        let lo = start + k;
        let before = first.subrange(lo, end + 1);
        let after = second.subrange(lo, end + 1);
        // everything up to `q` is below `x`
        assert forall|i: int| 0 <= i < q - lo + 1 implies lt(#[trigger] after[i], x) by {
            assert(after[i] == second[lo + i]);
            assert(le(second[lo + i], second[q]));
            lemma_compare(second[lo + i], x);
            if le(x, second[lo + i]) {
                lemma_le_trans(x, second[lo + i], second[q]);
            }
        }
        lemma_count_at_least(after, 0, q - lo + 1, x);
        // nothing of the middle third was below `x`
        assert forall|i: int| 0 <= i < end - k + 1 - lo implies !lt(#[trigger] before[i], x) by {
            assert(before[i] == first[lo + i]);
            assert(le(first[a], first[lo + i]));
            lemma_compare(first[lo + i], x);
        }
        lemma_count_at_most(before, 0, end - k + 1 - lo, x);
        lemma_count_permutation(after, before, x);
    }
}

/// Sorts the elements of `arr` from position `start` to position `end`,
/// both included: the two ends are put in order, then the first two thirds
/// are sorted, the last two thirds, and the first two thirds again.
fn _stooge_sort<T: Ord>(arr: &mut [T], start: usize, end: usize)
    requires
        total_order::<T>(),
        start <= end < old(arr)@.len(),
    ensures
        permuted_within(old(arr)@, final(arr)@, start as int, end as int),
        sorted_between(final(arr)@, start as int, end + 1),
    decreases end - start,
{
    let n = arr.len();
    let ghost given = arr@;
    if start < end {
        proof {
            lemma_swap_in_stretch(arr@, start as int, end + 1, start as int, end as int);
        }
        exchange_if_above(arr, start, end);
    } else {
        proof {
            lemma_le_refl(arr@[start as int]);
        }
    }
    let ghost ends = arr@;
    proof {
        assert(permuted_within(given, ends, start as int, end as int));
    }
    if start + 1 >= end {
        proof {
            assert forall|a: int, b: int| start <= a <= b < end + 1 implies le(ends[a], ends[b]) by {
                if a == b {
                    lemma_le_refl(ends[a]);
                }
            }
        }
        return;
    }
    let k = (end - start + 1) / 3;
    _stooge_sort(arr, start, end - k);
    let ghost first = arr@;
    _stooge_sort(arr, start + k, end);
    let ghost second = arr@;
    _stooge_sort(arr, start, end - k);
    proof {
        let third = arr@;
        lemma_permuted_step(given, ends, first, start as int, end as int, start as int, end - k);
        lemma_permuted_step(given, first, second, start as int, end as int, start + k, end as int);
        lemma_permuted_step(given, second, third, start as int, end as int, start as int, end - k);
        assert forall|a: int, b: int| start <= a <= b < end + 1 implies le(third[a], third[b]) by {
            if b <= end - k {
                assert(le(third[a], third[b]));
            } else if a > end - k {
                assert(third[a] == second[a] && third[b] == second[b]);
                assert(le(second[a], second[b]));
            } else {
                // `a` in the first two thirds, `b` in the last third
                assert(third[b] == second[b]);
                let y = lemma_stretch_member(second, third, start as int, end - k + 1, a);
                if y < start + k {
                    lemma_top_third(first, second, start as int, end as int, k as int, y, b);
                } else {
                    assert(le(second[y], second[b]));
                }
            }
        }
    }
}

/// Sorts `arr` in place.
pub fn stooge_sort<T: Ord>(arr: &mut [T])
    requires
        total_order::<T>(),
    ensures
        sorted(final(arr)@),
        permutation(final(arr)@, old(arr)@),
{
    let len = arr.len();
    if len == 0 {
        return;
    }
    _stooge_sort(arr, 0, len - 1);
    proof {
        lemma_permuted_whole(old(arr)@, arr@, 0, len - 1);
    }
}

} // verus!
