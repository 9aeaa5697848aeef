//! Counting sort, and a check for sortedness.
use vstd::prelude::*;
use crate::order::{comparable, le, lemma_order_u32, permutation, sorted, total_order};
use crate::sorting::slices::{
    ascending, lemma_ascending_sorted, lemma_occurs_bound, lemma_occurs_empty, lemma_occurs_len,
    lemma_occurs_push, lemma_occurs_same, lemma_sorted_whole, occurs,
};

verus! {

/// Tells whether every element of `arr` is below or equivalent to its right
/// neighbour, which for a total order means that `arr` is sorted.
pub fn is_sorted<T: PartialOrd>(arr: &[T]) -> (r: bool)
    requires
        comparable::<T>(),
    ensures
        r == ascending(arr@, 0, arr@.len() as int),
        total_order::<T>() ==> r == sorted(arr@),
{
    let mut i: usize = 1;
    while i < arr.len()
        invariant
            comparable::<T>(),
            1 <= i,
            ascending(arr@, 0, i as int),
        decreases arr@.len() - i,
    {
        if !(arr[i - 1] <= arr[i]) {
            proof {
                assert(!le(arr@[i - 1], arr@[i - 1 + 1]));
                if total_order::<T>() && sorted(arr@) {
                    assert(le(arr@[i - 1], arr@[i as int]));
                }
            }
            return false;
        }
        proof {
            assert(le(arr@[i - 1], arr@[i as int]));
        }
        i += 1;
    }
    proof {
        if total_order::<T>() {
            lemma_ascending_sorted(arr@, 0, arr@.len() as int);
            lemma_sorted_whole(arr@);
        }
    }
    true
}

/// An unsigned machine integer whose values can be counted in a table: each
/// value stands for a natural number, and the values can be walked through
/// from zero upwards.
pub trait Countable: Copy + Sized {
    /// The natural number this value stands for.
    spec fn number(self) -> nat;

    /// The largest number the type can hold.
    spec fn highest() -> nat;

    /// Every value is within the type's range.
    proof fn lemma_in_range(self)
        ensures
            self.number() <= Self::highest(),
    ;

    /// Two values that stand for the same number are the same value.
    proof fn lemma_number_injective(a: Self, b: Self)
        requires
            a.number() == b.number(),
        ensures
            a == b,
    ;

    /// The value that stands for zero.
    fn zero() -> (r: Self)
        ensures
            r.number() == 0,
    ;

    /// The value that stands for the next number.
    fn next(self) -> (r: Self)
        requires
            self.number() < Self::highest(),
        ensures
            r.number() == self.number() + 1,
    ;

    /// The number of the value, as an index into a table.
    fn index(self) -> (r: usize)
        requires
            self.number() <= usize::MAX,
        ensures
            r == self.number(),
    ;
}

impl Countable for u8 {
    open spec fn number(self) -> nat {
        self as nat
    }

    open spec fn highest() -> nat {
        u8::MAX as nat
    }

    proof fn lemma_in_range(self) {
    }

    proof fn lemma_number_injective(a: Self, b: Self) {
    }

    fn zero() -> (r: Self) {
        0
    }

    fn next(self) -> (r: Self) {
        self + 1
    }

    fn index(self) -> (r: usize) {
        self as usize
    }
}

impl Countable for u16 {
    open spec fn number(self) -> nat {
        self as nat
    }

    open spec fn highest() -> nat {
        u16::MAX as nat
    }

    proof fn lemma_in_range(self) {
    }

    proof fn lemma_number_injective(a: Self, b: Self) {
    }

    fn zero() -> (r: Self) {
        0
    }

    fn next(self) -> (r: Self) {
        self + 1
    }

    fn index(self) -> (r: usize) {
        self as usize
    }
}

impl Countable for u32 {
    open spec fn number(self) -> nat {
        self as nat
    }

    open spec fn highest() -> nat {
        u32::MAX as nat
    }

    proof fn lemma_in_range(self) {
    }

    proof fn lemma_number_injective(a: Self, b: Self) {
    }

    fn zero() -> (r: Self) {
        0
    }

    fn next(self) -> (r: Self) {
        self + 1
    }

    fn index(self) -> (r: usize) {
        self as usize
    }
}

impl Countable for u64 {
    open spec fn number(self) -> nat {
        self as nat
    }

    open spec fn highest() -> nat {
        u64::MAX as nat
    }

    proof fn lemma_in_range(self) {
    }

    proof fn lemma_number_injective(a: Self, b: Self) {
    }

    fn zero() -> (r: Self) {
        0
    }

    fn next(self) -> (r: Self) {
        self + 1
    }

    fn index(self) -> (r: usize) {
        self as usize
    }
}

/// The values of `s` are in the order of their numbers.
pub open spec fn numbers_ascend<T: Countable>(s: Seq<T>) -> bool {
    forall|i: int, j: int| 0 <= i <= j < s.len() ==> s[i].number() <= s[j].number()
}

/// Sorts `arr` in place by counting how often each value occurs and writing
/// the values back in the order of their numbers, each as often as it
/// occurred. No value may stand for more than `maxval`.
pub fn generic_counting_sort<T: Countable>(arr: &mut [T], maxval: usize)
    requires
        maxval < usize::MAX,
        maxval <= T::highest(),
        forall|i: int| 0 <= i < old(arr)@.len() ==> (#[trigger] old(arr)@[i]).number() <= maxval,
    ensures
        numbers_ascend(final(arr)@),
        permutation(final(arr)@, old(arr)@),
{
    let n = arr.len();
    let ghost given = arr@;
    let mut occurrences: Vec<usize> = vec![0; maxval + 1];
    let mut idx: usize = 0;
    proof {
        assert(given.subrange(0, 0) =~= Seq::<T>::empty());
        assert forall|v: T| occurs(given.subrange(0, 0), v) == 0 by {
            lemma_occurs_empty(v);
        }
    }
    while idx < n
        invariant
            n == arr@.len(),
            arr@ == given,
            idx <= n,
            occurrences@.len() == maxval + 1,
            forall|i: int| 0 <= i < given.len() ==> (#[trigger] given[i]).number() <= maxval,
            forall|v: T|
                v.number() <= maxval ==> occurrences@[v.number() as int] == #[trigger] occurs(
                    given.subrange(0, idx as int),
                    v,
                ),
        decreases n - idx,
    {
        let data = arr[idx];
        let ghost seen = given.subrange(0, idx as int);
        let ghost table = occurrences@;
        let k = data.index();
        proof {
            assert(given.subrange(0, idx + 1) =~= seen.push(data));
            lemma_occurs_bound(seen, data);
            assert(table[k as int] == occurs(seen, data));
        }
        let count = occurrences[k];
        occurrences[k] = count + 1;
        proof {
            assert forall|v: T| v.number() <= maxval implies occurrences@[v.number() as int]
                == #[trigger] occurs(given.subrange(0, idx + 1), v) by {
                lemma_occurs_push(seen, data, v);
                assert(table[v.number() as int] == occurs(seen, v));
                if v.number() == data.number() {
                    T::lemma_number_injective(v, data);
                }
            }
        }
        idx += 1;
    }
    proof {
        assert(given.subrange(0, n as int) =~= given);
        assert(arr@.subrange(0, 0) =~= Seq::<T>::empty());
        assert forall|v: T| occurs(arr@.subrange(0, 0), v) == 0 by {
            lemma_occurs_empty(v);
        }
    }
    let mut i: usize = 0;
    let mut data = T::zero();
    let mut d: usize = 0;
    loop
        invariant_except_break
            forall|v: T|
                v.number() >= d ==> #[trigger] occurs(arr@.subrange(0, i as int), v) == 0,
            forall|p: int| 0 <= p < i ==> (#[trigger] arr@[p]).number() < d,
        invariant
            n == arr@.len(),
            n == given.len(),
            d <= maxval,
            d == data.number(),
            maxval < usize::MAX,
            maxval <= T::highest(),
            occurrences@.len() == maxval + 1,
            i <= n,
            forall|k: int| 0 <= k < given.len() ==> (#[trigger] given[k]).number() <= maxval,
            forall|v: T|
                v.number() <= maxval ==> occurrences@[v.number() as int] == #[trigger] occurs(
                    given,
                    v,
                ),
            forall|v: T|
                v.number() < d ==> #[trigger] occurs(arr@.subrange(0, i as int), v) == occurs(
                    given,
                    v,
                ),
            forall|p: int, q: int| 0 <= p <= q < i ==> arr@[p].number() <= arr@[q].number(),
        ensures
            i == n,
            numbers_ascend(arr@),
            permutation(arr@, given),
        decreases maxval - d,
    {
        let number = occurrences[d];
        let mut written: usize = 0;
        proof {
            assert(occurrences@[data.number() as int] == occurs(given, data));
        }
        while written < number
            invariant
                n == arr@.len(),
                n == given.len(),
                d <= maxval,
                d == data.number(),
                i <= n,
                written <= number,
                number == occurs(given, data),
                forall|v: T|
                    v.number() < d ==> #[trigger] occurs(arr@.subrange(0, i as int), v) == occurs(
                        given,
                        v,
                    ),
                forall|v: T|
                    v.number() > d ==> #[trigger] occurs(arr@.subrange(0, i as int), v) == 0,
                occurs(arr@.subrange(0, i as int), data) == written,
                forall|p: int, q: int| 0 <= p <= q < i ==> arr@[p].number() <= arr@[q].number(),
                forall|p: int| 0 <= p < i ==> (#[trigger] arr@[p]).number() <= d,
            decreases number - written,
        {
            let ghost out = arr@.subrange(0, i as int);
            proof {
                assert forall|v: T| occurs(out.push(data), v) <= occurs(given, v) by {
                    lemma_occurs_push(out, data, v);
                    if v.number() == d {
                        T::lemma_number_injective(v, data);
                    } else if v.number() < d {
                        assert(occurs(out, v) == occurs(given, v));
                    } else {
                        assert(occurs(out, v) == 0);
                    }
                }
                lemma_occurs_len(out.push(data), given);
            }
            arr[i] = data;
            proof {
                assert(arr@.subrange(0, i + 1) =~= out.push(data));
                assert forall|v: T| v.number() < d implies #[trigger] occurs(
                    arr@.subrange(0, i + 1),
                    v,
                ) == occurs(given, v) by {
                    lemma_occurs_push(out, data, v);
                    assert(occurs(out, v) == occurs(given, v));
                }
                assert forall|v: T| v.number() > d implies #[trigger] occurs(
                    arr@.subrange(0, i + 1),
                    v,
                ) == 0 by {
                    lemma_occurs_push(out, data, v);
                    assert(occurs(out, v) == 0);
                }
                lemma_occurs_push(out, data, data);
                assert forall|p: int, q: int| 0 <= p <= q < i + 1 implies arr@[p].number()
                    <= arr@[q].number() by {
                    if q < i {
                        assert(arr@[p] == out[p] && arr@[q] == out[q]);
                    } else if p < i {
                        assert(arr@[p] == out[p]);
                    }
                }
            }
            i += 1;
            written += 1;
        }
        if d == maxval {
            proof {
                let out = arr@.subrange(0, i as int);
                assert forall|v: T| occurs(out, v) == occurs(given, v) by {
                    if v.number() == d {
                        T::lemma_number_injective(v, data);
                    } else if v.number() < d {
                    } else {
                        assert(occurs(out, v) == 0);
                        lemma_occurs_bound(given, v);
                        if given.contains(v) {
                            let k = choose|k: int| 0 <= k < given.len() && given[k] == v;
                            assert(given[k].number() <= maxval);
                        }
                    }
                }
                lemma_occurs_same(out, given);
                assert(out =~= arr@);
            }
            break;
        }
        proof {
            let out = arr@.subrange(0, i as int);
            assert forall|v: T| v.number() >= d + 1 implies #[trigger] occurs(out, v) == 0 by {
            }
            assert forall|v: T| v.number() < d + 1 implies #[trigger] occurs(out, v) == occurs(
                given,
                v,
            ) by {
                if v.number() == d {
                    T::lemma_number_injective(v, data);
                }
            }
        }
        data = data.next();
        d += 1;
    }
}

/// Sorts `arr` in place by counting how often each value occurs and writing
/// the values back in order, each as often as it occurred. No value may be
/// above `maxval`.
pub fn counting_sort(arr: &mut [u32], maxval: usize)
    requires
        maxval < usize::MAX,
        maxval <= u32::MAX,
        forall|i: int| 0 <= i < old(arr)@.len() ==> #[trigger] old(arr)@[i] <= maxval,
    ensures
        sorted(final(arr)@),
        permutation(final(arr)@, old(arr)@),
{
    generic_counting_sort(arr, maxval);
    proof {
        lemma_order_u32();
        assert forall|i: int, j: int| 0 <= i <= j < arr@.len() implies le(arr@[i], arr@[j]) by {
            assert(arr@[i].number() <= arr@[j].number());
        }
    }
}

} // verus!
