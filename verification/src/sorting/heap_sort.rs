//! Heap sort on a binary max-heap laid out in the slice.
use vstd::prelude::*;
use crate::order::{le, lemma_compare, lemma_le_refl, lemma_le_trans, permutation, sorted, total_order};
use crate::sorting::slices::{lemma_swap_permutation, sorted_between, split_at, swapped};

verus! {

/// Within the first `end` positions, the element at `i` is not below its
/// children, which stand at `2 * i + 1` and `2 * i + 2`.
pub open spec fn node_ok<T: PartialOrd>(s: Seq<T>, i: int, end: int) -> bool {
    &&& 2 * i + 1 < end ==> le(s[2 * i + 1], s[i])
    &&& 2 * i + 2 < end ==> le(s[2 * i + 2], s[i])
}

/// Every position from `from` up to, but not including, `end` is not below
/// its children.
pub open spec fn heap_from<T: PartialOrd>(s: Seq<T>, from: int, end: int) -> bool {
    forall|i: int| from <= i < end ==> #[trigger] node_ok(s, i, end)
}

/// Position `j` lies in the subtree whose top is position `top`.
pub open spec fn inside(top: int, j: int) -> bool
    decreases j,
{
    j == top || (j > top && j > 0 && inside(top, (j - 1) / 2))
}

/// A position in a subtree is not before the subtree's top.
pub proof fn lemma_inside_after(top: int, j: int)
    requires
        inside(top, j),
    ensures
        top <= j,
    decreases j,
{
    if j != top {
        lemma_inside_after(top, (j - 1) / 2);
    }
}

/// The subtree of a child lies in the subtree of its parent.
pub proof fn lemma_inside_child(top: int, child: int, j: int)
    requires
        0 <= top,
        child == 2 * top + 1 || child == 2 * top + 2,
        inside(child, j),
    ensures
        inside(top, j),
    decreases j,
{
    if j == child {
        assert(inside(top, top));
        assert((j - 1) / 2 == top);
    } else {
        lemma_inside_after(child, (j - 1) / 2);
        lemma_inside_child(top, child, (j - 1) / 2);
    }
}

/// Every position lies in the subtree of position zero.
pub proof fn lemma_inside_whole(j: int)
    requires
        0 <= j,
    ensures
        inside(0, j),
    decreases j,
{
    if j > 0 {
        lemma_inside_whole((j - 1) / 2);
    }
}

/// In a heap no element of a subtree is above the subtree's top.
pub proof fn lemma_heap_top<T: PartialOrd>(s: Seq<T>, top: int, end: int, j: int)
    requires
        total_order::<T>(),
        0 <= top,
        end <= s.len(),
        heap_from(s, top, end),
        inside(top, j),
        j < end,
    ensures
        le(s[j], s[top]),
    decreases j,
{
    if j == top {
        lemma_le_refl(s[j]);
    } else {
        let p = (j - 1) / 2;
        lemma_inside_after(top, p);
        lemma_heap_top(s, top, end, p);
        assert(node_ok(s, p, end));
        assert(j == 2 * p + 1 || j == 2 * p + 2);
        lemma_le_trans(s[j], s[p], s[top]);
    }
}

/// `after` differs from `before` only within the subtree of `top` among the
/// first `end` positions, and what that subtree holds afterwards it held
/// before.
pub open spec fn sifted<T>(before: Seq<T>, after: Seq<T>, top: int, end: int) -> bool {
    &&& after.len() == before.len()
    &&& forall|j: int|
        0 <= j < before.len() && !(inside(top, j) && j < end) ==> #[trigger] after[j] == before[j]
    &&& forall|j: int|
        inside(top, j) && j < end ==> exists|k: int|
            inside(top, k) && k < end && #[trigger] after[j] == before[k]
}

/// Lets the element at `root` sink until it is not below its children, so
/// that the first `end` positions form a heap from `root` on where they did
/// so behind `root` before.
fn heapify<T: PartialOrd>(arr: &mut [T], root: usize, end: usize)
    requires
        total_order::<T>(),
        root < end <= old(arr)@.len(),
        heap_from(old(arr)@, root + 1, end as int),
    ensures
        permutation(final(arr)@, old(arr)@),
        heap_from(final(arr)@, root as int, end as int),
        sifted(old(arr)@, final(arr)@, root as int, end as int),
    decreases end - root,
{
    let n = arr.len();
    let mut largest = root;
    if root < end / 2 {
        let left_child = 2 * root + 1;
        proof {
            lemma_compare(arr@[left_child as int], arr@[largest as int]);
        }
        if arr[left_child] > arr[largest] {
            largest = left_child;
        }
        let right_child = left_child + 1;
        if right_child < end {
            proof {
                lemma_compare(arr@[right_child as int], arr@[largest as int]);
                lemma_compare(arr@[right_child as int], arr@[root as int]);
                lemma_compare(arr@[left_child as int], arr@[root as int]);
                lemma_compare(arr@[left_child as int], arr@[right_child as int]);
            }
            if arr[right_child] > arr[largest] {
                proof {
                    if largest == left_child {
                        lemma_le_trans(
                            arr@[root as int],
                            arr@[left_child as int],
                            arr@[right_child as int],
                        );
                    }
                }
                largest = right_child;
            }
        }
    }
    let ghost before = arr@;
    proof {
        assert(inside(root as int, root as int));
    }
    if largest != root {
        proof {
            lemma_swap_permutation(before, root as int, largest as int);
            assert(heap_from(before, largest as int, end as int)) by {
                assert forall|i: int| largest <= i < end implies #[trigger] node_ok(
                    before,
                    i,
                    end as int,
                ) by {
                    assert(node_ok(before, i, end as int));
                }
            }
        }
        arr.swap(root, largest);
        let ghost mid = arr@;
        proof {
            assert(mid == swapped(before, root as int, largest as int));
            assert forall|i: int| largest + 1 <= i < end implies #[trigger] node_ok(
                mid,
                i,
                end as int,
            ) by {
                assert(node_ok(before, i, end as int));
            }
        }
        heapify(arr, largest, end);
        proof {
            let after = arr@;
            let top = before[largest as int];
            assert(inside(largest as int, largest as int));
            lemma_inside_child(root as int, largest as int, largest as int);
            // what the subtree of `largest` holds is not above the new top
            assert forall|j: int| inside(largest as int, j) && j < end implies le(
                #[trigger] after[j],
                top,
            ) by {
                let k = choose|k: int| inside(largest as int, k) && k < end && after[j] == mid[k];
                lemma_inside_after(largest as int, k);
                if k == largest {
                    lemma_compare(before[root as int], top);
                } else {
                    lemma_heap_top(before, largest as int, end as int, k);
                }
            }
            assert forall|i: int| root <= i < end implies #[trigger] node_ok(
                after,
                i,
                end as int,
            ) by {
                if i >= largest {
                    assert(node_ok(after, i, end as int));
                } else if i == root {
                    let l = 2 * root + 1;
                    let r = 2 * root + 2;
                    assert(after[root as int] == top);
                    if l < end {
                        if l == largest {
                        } else {
                            assert(!inside(largest as int, l)) by {
                                if inside(largest as int, l) {
                                    lemma_inside_after(largest as int, l);
                                }
                            }
                            assert(after[l] == mid[l]);
                            lemma_compare(before[l], top);
                        }
                    }
                    if r < end {
                        if r == largest {
                        } else {
                            assert(!inside(largest as int, r)) by {
                                if inside(largest as int, r) {
                                    lemma_inside_after(largest as int, r);
                                    assert(inside(largest as int, (r - 1) / 2));
                                    lemma_inside_after(largest as int, (r - 1) / 2);
                                }
                            }
                            assert(after[r] == mid[r]);
                            lemma_compare(before[r], top);
                        }
                    }
                } else {
                    // strictly between root and largest: nothing near it moved
                    assert(node_ok(before, i, end as int));
                    assert(!inside(largest as int, i)) by {
                        if inside(largest as int, i) {
                            lemma_inside_after(largest as int, i);
                        }
                    }
                    let l = 2 * i + 1;
                    let r = 2 * i + 2;
                    if l < end {
                        assert(!inside(largest as int, l)) by {
                            if inside(largest as int, l) {
                                assert(l != largest);
                                assert((l - 1) / 2 == i);
                            }
                        }
                    }
                    if r < end {
                        assert(!inside(largest as int, r)) by {
                            if inside(largest as int, r) {
                                assert(r != largest);
                                assert((r - 1) / 2 == i);
                            }
                        }
                    }
                }
            }
            assert forall|j: int|
                0 <= j < before.len() && !(inside(root as int, j) && j < end) implies #[trigger] after[j]
                == before[j] by {
                if inside(largest as int, j) {
                    lemma_inside_child(root as int, largest as int, j);
                }
                assert(after[j] == mid[j]);
            }
            assert forall|j: int| inside(root as int, j) && j < end implies exists|k: int|
                inside(root as int, k) && k < end && #[trigger] after[j] == before[k] by {
                if inside(largest as int, j) {
                    let k = choose|k: int|
                        inside(largest as int, k) && k < end && after[j] == mid[k];
                    lemma_inside_child(root as int, largest as int, k);
                    if k == largest {
                        assert(mid[k] == before[root as int]);
                    } else {
                        lemma_inside_after(largest as int, k);
                        assert(mid[k] == before[k]);
                    }
                } else if j == root {
                    assert(after[j] == mid[j]);
                    assert(after[j] == before[largest as int]);
                } else {
                    assert(after[j] == mid[j]);
                    assert(after[j] == before[j]);
                }
            }
        }
    } else {
        proof {
            assert forall|i: int| root <= i < end implies #[trigger] node_ok(
                before,
                i,
                end as int,
            ) by {
                if i > root {
                    assert(node_ok(before, i, end as int));
                }
            }
        }
    }
}

/// Sorts `arr` in place: the slice is made a max-heap, then the largest
/// element is exchanged to the end of the heap again and again while the
/// heap shrinks.
pub fn heap_sort<T: PartialOrd>(arr: &mut [T])
    requires
        total_order::<T>(),
    ensures
        sorted(final(arr)@),
        permutation(final(arr)@, old(arr)@),
{
    let size = arr.len();
    let mut i: usize = size / 2;
    while i > 0
        invariant
            total_order::<T>(),
            size == arr@.len(),
            i <= size / 2,
            permutation(arr@, old(arr)@),
            heap_from(arr@, i as int, size as int),
        decreases i,
    {
        i -= 1;
        heapify(arr, i, size);
    }
    let mut end: usize = size;
    while end > 1
        invariant
            total_order::<T>(),
            size == arr@.len(),
            end <= size,
            permutation(arr@, old(arr)@),
            heap_from(arr@, 0, end as int),
            sorted_between(arr@, end as int, size as int),
            split_at(arr@, end as int),
        decreases end,
    {
        let ghost before = arr@;
        let last = end - 1;
        proof {
            lemma_swap_permutation(before, 0, last as int);
            assert forall|j: int| 0 <= j < end implies le(#[trigger] before[j], before[0]) by {
                lemma_inside_whole(j);
                lemma_heap_top(before, 0, end as int, j);
            }
        }
        arr.swap(0, last);
        let ghost mid = arr@;
        proof {
            assert(mid == swapped(before, 0, last as int));
            assert forall|k: int| 1 <= k < last implies #[trigger] node_ok(mid, k, last as int) by {
                assert(node_ok(before, k, end as int));
            }
        }
        heapify(arr, 0, last);
        proof {
            let after = arr@;
            assert forall|a: int, b: int| last <= a <= b < size implies le(after[a], after[b]) by {
                assert(after[a] == mid[a] && after[b] == mid[b]);
                if a == last {
                    if b == last {
                        lemma_le_refl(after[a]);
                    } else {
                        assert(le(before[0], before[b]));
                    }
                } else {
                    assert(le(before[a], before[b]));
                }
            }
            assert forall|a: int, b: int| 0 <= a < last <= b < size implies le(
                after[a],
                after[b],
            ) by {
                lemma_inside_whole(a);
                let k = choose|k: int| inside(0, k) && k < last && after[a] == mid[k];
                lemma_inside_after(0, k);
                assert(after[b] == mid[b]);
                if b == last {
                    if k == 0 {
                        assert(le(before[last as int], before[0]));
                    } else {
                        assert(le(before[k], before[0]));
                    }
                } else {
                    if k == 0 {
                        assert(le(before[last as int], before[b]));
                    } else {
                        assert(le(before[k], before[b]));
                    }
                }
            }
        }
        end = last;
    }
    proof {
        assert forall|a: int, b: int| 0 <= a <= b < size implies le(arr@[a], arr@[b]) by {
            if a == b {
                lemma_le_refl(arr@[a]);
            } else if a >= end {
                assert(le(arr@[a], arr@[b]));
            } else {
                assert(le(arr@[a], arr@[b]));
            }
        }
    }
}

} // verus!
