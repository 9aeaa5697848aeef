//! Linear search.
use vstd::prelude::*;
use crate::order::{equatable, same};

verus! {

/// Returns the first position of `arr` whose element equals `item`, or
/// `None` where no element does.
pub fn linear_search<T: PartialEq>(item: &T, arr: &[T]) -> (r: Option<usize>)
    requires
        equatable::<T>(),
    ensures
        match r {
            Some(i) => {
                &&& i < arr@.len()
                &&& same(*item, arr@[i as int])
                &&& forall|j: int| 0 <= j < i ==> !same(*item, #[trigger] arr@[j])
            },
            None => forall|j: int| 0 <= j < arr@.len() ==> !same(*item, #[trigger] arr@[j]),
        },
{
    let mut i: usize = 0;
    while i < arr.len()
        invariant
            equatable::<T>(),
            i <= arr@.len(),
            forall|j: int| 0 <= j < i ==> !same(*item, #[trigger] arr@[j]),
        decreases arr@.len() - i,
    {
        if *item == arr[i] {
            return Some(i);
        }
        i += 1;
    }
    None
}

} // verus!
