//! Shell sort: insertion sort over elements a shrinking gap apart.
use vstd::prelude::*;
use crate::order::{le, lemma_compare, lemma_le_refl, lemma_le_trans, permutation, sorted, total_order};
use crate::sorting::inversions::exchange_if_above;
use crate::sorting::slices::{lemma_sorted_whole, sorted_between};

verus! {

/// Sorts by insertion the elements of `values` that stand at `start`,
/// `start + gap`, `start + 2 * gap` and so on among themselves. With
/// `start` zero and `gap` one this sorts all of `values`.
fn insertion<T: Ord + Copy>(values: &mut Vec<T>, start: usize, gap: usize)
    requires
        total_order::<T>(),
        gap >= 1,
    ensures
        permutation(final(values)@, old(values)@),
        final(values)@.len() == old(values)@.len(),
        start == 0 && gap == 1 ==> sorted(final(values)@),
{
    let len = values.len();
    let plain = start == 0 && gap == 1;
    if len <= start || len - start <= gap {
        proof {
            if plain {
                if len == 1 {
                    lemma_le_refl(values@[0]);
                }
            }
        }
        return;
    }
    let mut i: usize = start + gap;
    proof {
        if plain {
            lemma_le_refl(values@[0]);
        }
    }
    loop
        invariant
            total_order::<T>(),
            gap >= 1,
            len == values@.len(),
            plain == (start == 0 && gap == 1),
            start + gap <= i < len,
            permutation(values@, old(values)@),
            plain ==> sorted_between(values@, 0, i as int),
        ensures
            len == values@.len(),
            permutation(values@, old(values)@),
            plain ==> sorted_between(values@, 0, len as int),
        decreases len - i,
    {
        let mut pos: usize = i;
        while pos >= gap && pos - gap >= start
            invariant
                total_order::<T>(),
                gap >= 1,
                len == values@.len(),
                plain == (start == 0 && gap == 1),
                pos <= i < len,
                permutation(values@, old(values)@),
                plain ==> sorted_between(values@, 0, pos as int),
                plain ==> sorted_between(values@, pos as int, i + 1),
                plain ==> forall|p: int, q: int| 0 <= p < pos < q <= i ==> le(values@[p], values@[q]),
            ensures
                len == values@.len(),
                permutation(values@, old(values)@),
                plain ==> sorted_between(values@, 0, i + 1),
            decreases pos,
        {
            let ghost before = values@;
            if !exchange_if_above(values.as_mut_slice(), pos - gap, pos) {
                proof {
                    if plain {
                        assert forall|a: int, b: int| 0 <= a <= b < i + 1 implies le(
                            before[a],
                            before[b],
                        ) by {
                            if b < pos {
                            } else if a >= pos {
                            } else if b > pos {
                            } else {
                                assert(le(before[a], before[pos - 1]));
                                lemma_le_trans(before[a], before[pos - 1], before[pos as int]);
                            }
                        }
                    }
                }
                break;
            }
            proof {
                if plain {
                    let after = values@;
                    lemma_compare(before[pos - 1], before[pos as int]);
                    assert forall|a: int, b: int| pos - 1 <= a <= b < i + 1 implies le(
                        after[a],
                        after[b],
                    ) by {
                        if a == b {
                            lemma_le_refl(after[a]);
                        } else if a == pos - 1 {
                            if b > pos {
                                assert(le(before[pos as int], before[b]));
                            }
                        } else if a == pos {
                            assert(le(before[pos - 1], before[b]));
                        } else {
                            assert(le(before[a], before[b]));
                        }
                    }
                    assert forall|p: int, q: int| 0 <= p < pos - 1 < q <= i implies le(
                        after[p],
                        after[q],
                    ) by {
                        if q == pos {
                            assert(le(before[p], before[pos - 1]));
                        } else {
                            assert(le(before[p], before[q]));
                        }
                    }
                    assert forall|a: int, b: int| 0 <= a <= b < pos - 1 implies le(
                        after[a],
                        after[b],
                    ) by {
                        assert(le(before[a], before[b]));
                    }
                }
            }
            pos -= gap;
        }
        if len - i <= gap {
            break;
        }
        i += gap;
    }
    proof {
        if plain {
            lemma_sorted_whole(values@);
        }
    }
}

/// Sorts `values` in place by insertion sorts over the elements a gap
/// apart, where the gap starts at half the length and is halved from pass
/// to pass; the last pass, with gap one, is a plain insertion sort.
pub fn shell_sort<T: Ord + Copy>(values: &mut Vec<T>)
    requires
        total_order::<T>(),
    ensures
        sorted(final(values)@),
        permutation(final(values)@, old(values)@),
{
    let mut count_sublist: usize = values.len() / 2;
    proof {
        if values@.len() == 1 {
            lemma_le_refl(values@[0]);
        }
    }
    while count_sublist > 0
        invariant
            total_order::<T>(),
            values@.len() == old(values)@.len(),
            permutation(values@, old(values)@),
            count_sublist == 0 ==> sorted(values@),
            count_sublist <= values@.len() / 2,
        decreases count_sublist,
    {
        let mut pos_start: usize = 0;
        while pos_start < count_sublist
            invariant
                total_order::<T>(),
                values@.len() == old(values)@.len(),
                permutation(values@, old(values)@),
                count_sublist >= 1,
                pos_start <= count_sublist,
                count_sublist == 1 && pos_start == 1 ==> sorted(values@),
            decreases count_sublist - pos_start,
        {
            insertion(values, pos_start, count_sublist);
            pos_start += 1;
        }
        count_sublist /= 2;
    }
}

} // verus!
