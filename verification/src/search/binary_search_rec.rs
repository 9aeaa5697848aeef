//! Binary search by recursion on the halves of an interval.
use vstd::prelude::*;
use crate::order::{eqv, lemma_compare, sorted, total_order};
use crate::search::binary_search::{bisect, bisect_index, lemma_bisect_complete, lemma_bisect_found};

verus! {

/// Looks for `target` among the elements of `list_of_items` from position
/// `left` up to, but not including, `right`.
///
/// A position that is returned lies in that interval and holds an element
/// equivalent to `target`. In a sorted slice `None` is returned only where
/// no element of the interval is equivalent to `target`; in any slice the
/// result is the one that `bisect` describes.
pub fn binary_search_rec<T: Ord>(
    list_of_items: &[T],
    target: &T,
    left: &usize,
    right: &usize,
) -> (r: Option<usize>)
    requires
        total_order::<T>(),
        *left < *right ==> *right <= list_of_items@.len(),
    ensures
        r == bisect_index(list_of_items@, *target, *left as int, *right as int),
        r matches Some(i) ==> *left <= i < *right && eqv(*target, list_of_items@[i as int]),
        sorted(list_of_items@) && r is None ==> forall|i: int|
            *left <= i < *right ==> !eqv(*target, #[trigger] list_of_items@[i]),
    decreases *right - *left,
{
    if *left >= *right {
        return None;
    }
    proof {
        lemma_bisect_found(list_of_items@, *target, *left as int, *right as int);
        if sorted(list_of_items@) && bisect(list_of_items@, *target, *left as int, *right as int)
            is None {
            lemma_bisect_complete(list_of_items@, *target, *left as int, *right as int);
        }
    }
    let middle: usize = *left + (*right - *left) / 2;
    proof {
        lemma_compare(*target, list_of_items@[middle as int]);
    }
    if *target < list_of_items[middle] {
        binary_search_rec(list_of_items, target, left, &middle)
    } else if *target > list_of_items[middle] {
        let next = middle + 1;
        binary_search_rec(list_of_items, target, &next, right)
    } else {
        Some(middle)
    }
}

} // verus!
