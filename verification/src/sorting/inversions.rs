//! Inversions: pairs of positions whose elements are out of order. Their
//! number goes down with every exchange of two elements that are out of
//! order, which is why sorting by such exchanges comes to an end.
use vstd::prelude::*;
use crate::order::{gt, le, lemma_compare, lemma_le_trans, permutation, total_order};
use crate::sorting::slices::{lemma_swap_permutation, swapped};

verus! {

/// The pairs of positions of `s` at which the earlier element is strictly
/// above the later one.
pub open spec fn inversions<T: PartialOrd>(s: Seq<T>) -> Set<(int, int)> {
    Set::new(|p: (int, int)| 0 <= p.0 < p.1 < s.len() && gt(s[p.0], s[p.1]))
}

/// The number of inversions of `s`.
pub open spec fn disorder<T: PartialOrd>(s: Seq<T>) -> nat {
    inversions(s).len()
}

/// All pairs of numbers below `n`.
pub open spec fn pairs_below(n: int) -> Set<(int, int)> {
    Set::new(|p: (int, int)| 0 <= p.0 < n && 0 <= p.1 < n)
}

/// There are finitely many pairs of numbers below `n`.
pub proof fn lemma_pairs_finite(n: int)
    requires
        0 <= n,
    ensures
        pairs_below(n).finite(),
    decreases n,
{
    if n == 0 {
        assert(pairs_below(n) =~= Set::empty());
    } else {
        lemma_pairs_finite(n - 1);
        vstd::set_lib::lemma_int_range(0, n);
        let numbers = vstd::set_lib::set_int_range(0, n);
        let row = numbers.map(|k: int| (n - 1, k));
        let column = numbers.map(|k: int| (k, n - 1));
        numbers.lemma_map_finite(|k: int| (n - 1, k));
        numbers.lemma_map_finite(|k: int| (k, n - 1));
        assert(pairs_below(n) =~= pairs_below(n - 1).union(row).union(column)) by {
            assert forall|p: (int, int)| pairs_below(n).contains(p) implies pairs_below(
                n - 1,
            ).union(row).union(column).contains(p) by {
                if p.0 == n - 1 {
                    assert(numbers.contains(p.1));
                    assert(row.contains((n - 1, p.1)));
                } else if p.1 == n - 1 {
                    assert(numbers.contains(p.0));
                    assert(column.contains((p.0, n - 1)));
                }
            }
        }
    }
}

/// A sequence has finitely many inversions.
pub proof fn lemma_inversions_finite<T: PartialOrd>(s: Seq<T>)
    ensures
        inversions(s).finite(),
{
    lemma_pairs_finite(s.len() as int);
    assert(inversions(s).subset_of(pairs_below(s.len() as int)));
    vstd::set_lib::lemma_len_subset(inversions(s), pairs_below(s.len() as int));
}

/// Where an inversion of the sequence after the exchange of positions `i`
/// and `j` comes from: the pair with the two positions exchanged back,
/// except for pairs that reach from `i` or to `j` across the stretch
/// between them, which stay as they are.
pub open spec fn origin(i: int, j: int, p: (int, int)) -> (int, int) {
    if (p.0 == i && i < p.1 < j) || (p.1 == j && i < p.0 < j) {
        p
    } else {
        (
            if p.0 == i {
                j
            } else if p.0 == j {
                i
            } else {
                p.0
            },
            if p.1 == i {
                j
            } else if p.1 == j {
                i
            } else {
                p.1
            },
        )
    }
}

/// Strictly above is transitive on a totally ordered type.
pub proof fn lemma_gt_trans<T: PartialOrd>(x: T, y: T, z: T)
    requires
        total_order::<T>(),
        gt(x, y),
        gt(y, z),
    ensures
        gt(x, z),
{
    lemma_compare(x, y);
    lemma_compare(y, z);
    lemma_compare(x, z);
    lemma_compare(z, y);
    if le(x, z) {
        lemma_le_trans(x, z, y);
    }
}

/// Exchanging two elements that are out of order leaves fewer inversions.
pub proof fn lemma_swap_less_disorder<T: PartialOrd>(s: Seq<T>, i: int, j: int)
    requires
        total_order::<T>(),
        0 <= i < j < s.len(),
        gt(s[i], s[j]),
    ensures
        disorder(swapped(s, i, j)) < disorder(s),
{
    let t = swapped(s, i, j);
    let before = inversions(s);
    let after = inversions(t);
    lemma_inversions_finite(s);
    lemma_inversions_finite(t);
    let f = |p: (int, int)| origin(i, j, p);
    lemma_compare(s[i], s[j]);
    assert forall|p: (int, int)| after.contains(p) implies before.remove((i, j)).contains(
        #[trigger] f(p),
    ) by {
        let (a, b) = p;
        assert(gt(t[a], t[b]));
        if a == i && i < b < j {
            lemma_gt_trans(s[i], s[j], s[b]);
        } else if b == j && i < a < j {
            lemma_gt_trans(s[a], s[i], s[j]);
        } else if a == i && b == j {
            lemma_compare(s[j], s[i]);
        }
    }
    assert(vstd::relations::injective_on(f, after)) by {
        assert forall|p: (int, int), q: (int, int)|
            after.contains(p) && after.contains(q) && #[trigger] f(p) == #[trigger] f(
                q,
            ) implies p == q by {
            assert(f(p) == origin(i, j, p));
            assert(f(q) == origin(i, j, q));
        }
    }
    let image = after.map(f);
    vstd::set_lib::lemma_map_size(after, image, f);
    assert(image.subset_of(before.remove((i, j)))) by {
        assert forall|q: (int, int)| image.contains(q) implies before.remove((i, j)).contains(
            q,
        ) by {
            let p = choose|p: (int, int)| after.contains(p) && f(p) == q;
            assert(before.remove((i, j)).contains(f(p)));
        }
    }
    vstd::set_lib::lemma_len_subset(image, before.remove((i, j)));
    assert(before.contains((i, j)));
}

/// Exchanges the elements at `i` and `j` if the one at `i`, the earlier
/// position, is strictly above the other, and tells whether it did. An
/// exchange leaves fewer inversions.
pub(crate) fn exchange_if_above<T: PartialOrd>(arr: &mut [T], i: usize, j: usize) -> (did: bool)
    requires
        total_order::<T>(),
        i < j < old(arr)@.len(),
    ensures
        did == gt(old(arr)@[i as int], old(arr)@[j as int]),
        did ==> final(arr)@ == swapped(old(arr)@, i as int, j as int) && disorder(final(arr)@)
            < disorder(old(arr)@),
        !did ==> final(arr)@ == old(arr)@ && le(old(arr)@[i as int], old(arr)@[j as int]),
        permutation(final(arr)@, old(arr)@),
        final(arr)@.len() == old(arr)@.len(),
{
    proof {
        lemma_compare(arr@[i as int], arr@[j as int]);
    }
    if arr[i] > arr[j] {
        proof {
            lemma_swap_less_disorder(arr@, i as int, j as int);
            lemma_swap_permutation(arr@, i as int, j as int);
        }
        arr.swap(i, j);
        true
    } else {
        false
    }
}

} // verus!
