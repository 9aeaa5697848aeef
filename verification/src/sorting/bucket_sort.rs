//! Bucket sort of natural numbers.
use vstd::prelude::*;
use crate::order::{le, lemma_order_usize, permutation, sorted};
use crate::sorting::slices::{
    lemma_occurs_bound,
    lemma_occurs_empty,
    lemma_occurs_permutation,
    lemma_occurs_push,
    lemma_occurs_same,
    occurs,
};
use crate::sorting::tim_sort::insert_sort;

verus! {

/// The bucket into which the number `x` goes when `len` numbers of at most
/// `max` are sorted: the share `x / max` of the last bucket, `len`.
pub open spec fn bucket_of(len: int, max: int, x: int) -> int {
    len * x / max
}

/// Larger numbers go to later buckets, or to the same.
pub proof fn lemma_bucket_monotone(len: int, max: int, x: int, y: int)
    requires
        0 <= len,
        0 < max,
        0 <= x <= y,
    ensures
        0 <= bucket_of(len, max, x) <= bucket_of(len, max, y),
        y <= max ==> bucket_of(len, max, y) <= len,
{
    assert(0 <= len * x <= len * y) by (nonlinear_arith)
        requires
            0 <= len,
            0 <= x <= y,
    ;
    vstd::arithmetic::div_mod::lemma_div_is_ordered(len * x, len * y, max);
    vstd::arithmetic::div_mod::lemma_div_is_ordered(0, len * x, max);
    if y <= max {
        assert(len * y <= len * max) by (nonlinear_arith)
            requires
                0 <= len,
                y <= max,
        ;
        vstd::arithmetic::div_mod::lemma_div_is_ordered(len * y, len * max, max);
        vstd::arithmetic::div_mod::lemma_div_by_multiple(len, max);
    }
}

/// The largest element of a non-empty slice.
fn largest(arr: &[usize]) -> (max: usize)
    requires
        arr@.len() > 0,
    ensures
        arr@.contains(max),
        forall|i: int| 0 <= i < arr@.len() ==> #[trigger] arr@[i] <= max,
{
    let mut max = arr[0];
    let mut i: usize = 1;
    while i < arr.len()
        invariant
            1 <= i <= arr@.len(),
            arr@.contains(max),
            forall|k: int| 0 <= k < i ==> #[trigger] arr@[k] <= max,
        decreases arr@.len() - i,
    {
        if arr[i] > max {
            max = arr[i];
        }
        i += 1;
    }
    max
}

/// The number of the bucket for `x`.
fn bucket_index(len: usize, max: usize, x: usize) -> (b: usize)
    requires
        0 < max,
        x <= max,
    ensures
        b == bucket_of(len as int, max as int, x as int),
        b <= len,
{
    proof {
        lemma_bucket_monotone(len as int, max as int, x as int, x as int);
        assert(len * x <= usize::MAX * usize::MAX) by (nonlinear_arith)
            requires
                0 <= len <= usize::MAX,
                0 <= x <= usize::MAX,
        ;
    }
    let wide = (len as u128) * (x as u128) / (max as u128);
    wide as usize
}

/// Returns the elements of `arr` in sorted order.
///
/// Each element goes into one of as many buckets as there are elements, and
/// one more, by its share of the largest element; the buckets are sorted
/// and then joined in their order.
pub fn bucket_sort(arr: &[usize]) -> (result: Vec<usize>)
    requires
        arr@.len() < usize::MAX,
    ensures
        sorted(result@),
        permutation(result@, arr@),
{
    proof {
        lemma_order_usize();
    }
    if arr.is_empty() {
        let empty: Vec<usize> = Vec::new();
        proof {
            assert(empty@ =~= arr@);
        }
        return empty;
    }
    let max = largest(arr);
    let len = arr.len();
    if max == 0 {
        let same = vstd::slice::slice_to_vec(arr);
        return same;
    }
    let mut buckets: Vec<Vec<usize>> = Vec::new();
    let mut made: usize = 0;
    let count = len + 1;
    while made < count
        invariant
            made <= count,
            count == len + 1,
            len == arr@.len(),
            buckets@.len() == made,
            forall|k: int| 0 <= k < made ==> (#[trigger] buckets@[k])@.len() == 0,
        decreases count - made,
    {
        buckets.push(Vec::new());
        made += 1;
    }
    let mut idx: usize = 0;
    proof {
        assert(arr@.subrange(0, 0) =~= Seq::<usize>::empty());
        assert forall|v: usize| occurs(arr@.subrange(0, 0), v) == 0 by {
            lemma_occurs_empty(v);
        }
        assert forall|k: int, v: usize| 0 <= k <= len implies #[trigger] occurs(
            buckets@[k]@,
            v,
        ) == 0 by {
            assert(buckets@[k]@ =~= Seq::<usize>::empty());
            lemma_occurs_empty(v);
        }
    }
    while idx < len
        invariant
            len == arr@.len(),
            idx <= len,
            0 < max,
            buckets@.len() == len + 1,
            forall|i: int| 0 <= i < arr@.len() ==> #[trigger] arr@[i] <= max,
            forall|k: int, j: int|
                0 <= k <= len && 0 <= j < buckets@[k]@.len() ==> bucket_of(
                    len as int,
                    max as int,
                    (#[trigger] buckets@[k]@[j]) as int,
                ) == k,
            forall|k: int, v: usize|
                0 <= k <= len ==> #[trigger] occurs(buckets@[k]@, v) == if bucket_of(
                    len as int,
                    max as int,
                    v as int,
                ) == k {
                    occurs(arr@.subrange(0, idx as int), v)
                } else {
                    0
                },
        decreases len - idx,
    {
        let x = arr[idx];
        let b = bucket_index(len, max, x);
        let ghost before = buckets@;
        let ghost seen = arr@.subrange(0, idx as int);
        let mut bucket = core::mem::take(&mut buckets[b]);
        bucket.push(x);
        buckets[b] = bucket;
        proof {
            assert(arr@.subrange(0, idx + 1) =~= seen.push(x));
            assert(buckets@[b as int]@ == before[b as int]@.push(x));
            assert forall|k: int, v: usize| 0 <= k <= len implies #[trigger] occurs(
                buckets@[k]@,
                v,
            ) == if bucket_of(len as int, max as int, v as int) == k {
                occurs(arr@.subrange(0, idx + 1), v)
            } else {
                0
            } by {
                lemma_occurs_push(seen, x, v);
                lemma_occurs_push(before[b as int]@, x, v);
                if k == b {
                    assert(occurs(before[k]@, v) == if bucket_of(
                        len as int,
                        max as int,
                        v as int,
                    ) == k {
                        occurs(seen, v)
                    } else {
                        0
                    });
                } else {
                    assert(buckets@[k] == before[k]);
                    assert(occurs(before[k]@, v) == if bucket_of(
                        len as int,
                        max as int,
                        v as int,
                    ) == k {
                        occurs(seen, v)
                    } else {
                        0
                    });
                }
            }
            assert forall|k: int, j: int|
                0 <= k <= len && 0 <= j < buckets@[k]@.len() implies bucket_of(
                len as int,
                max as int,
                (#[trigger] buckets@[k]@[j]) as int,
            ) == k by {
                if k == b {
                    if j < before[k]@.len() {
                        assert(buckets@[k]@[j] == before[k]@[j]);
                    }
                } else {
                    assert(buckets@[k] == before[k]);
                }
            }
        }
        idx += 1;
    }
    proof {
        assert(arr@.subrange(0, len as int) =~= arr@);
    }
    let mut k: usize = 0;
    while k < count
        invariant
            len == arr@.len(),
            count == len + 1,
            k <= len + 1,
            buckets@.len() == len + 1,
            forall|b: int, j: int|
                0 <= b <= len && 0 <= j < buckets@[b]@.len() ==> bucket_of(
                    len as int,
                    max as int,
                    (#[trigger] buckets@[b]@[j]) as int,
                ) == b,
            forall|b: int, v: usize|
                0 <= b <= len ==> #[trigger] occurs(buckets@[b]@, v) == if bucket_of(
                    len as int,
                    max as int,
                    v as int,
                ) == b {
                    occurs(arr@, v)
                } else {
                    0
                },
            forall|b: int| 0 <= b < k ==> sorted(#[trigger] buckets@[b]@),
        decreases len + 1 - k,
    {
        let ghost before = buckets@;
        let mut bucket = core::mem::take(&mut buckets[k]);
        let size = bucket.len();
        if size > 1 {
            insert_sort(bucket.as_mut_slice(), 0, size - 1);
        }
        let ghost done = bucket@;
        buckets[k] = bucket;
        proof {
            let was = before[k as int]@;
            assert(permutation(done, was));
            assert(sorted(done)) by {
                if size <= 1 {
                    assert forall|a: int, c: int| 0 <= a <= c < done.len() implies le(
                        done[a],
                        done[c],
                    ) by {
                    }
                }
            }
            assert forall|b: int, v: usize| 0 <= b <= len implies #[trigger] occurs(
                buckets@[b]@,
                v,
            ) == if bucket_of(len as int, max as int, v as int) == b {
                occurs(arr@, v)
            } else {
                0
            } by {
                if b == k {
                    lemma_occurs_permutation(done, was, v);
                    assert(occurs(before[b]@, v) == if bucket_of(
                        len as int,
                        max as int,
                        v as int,
                    ) == b {
                        occurs(arr@, v)
                    } else {
                        0
                    });
                } else {
                    assert(buckets@[b] == before[b]);
                    assert(occurs(before[b]@, v) == if bucket_of(
                        len as int,
                        max as int,
                        v as int,
                    ) == b {
                        occurs(arr@, v)
                    } else {
                        0
                    });
                }
            }
            assert forall|b: int, j: int|
                0 <= b <= len && 0 <= j < buckets@[b]@.len() implies bucket_of(
                len as int,
                max as int,
                (#[trigger] buckets@[b]@[j]) as int,
            ) == b by {
                if b == k {
                    let v = done[j];
                    lemma_occurs_bound(done, v);
                    lemma_occurs_permutation(done, was, v);
                    lemma_occurs_bound(was, v);
                    let i = choose|i: int| 0 <= i < was.len() && was[i] == v;
                    assert(bucket_of(len as int, max as int, before[b]@[i] as int) == b);
                } else {
                    assert(buckets@[b] == before[b]);
                }
            }
            assert forall|b: int| 0 <= b < k + 1 implies sorted(#[trigger] buckets@[b]@) by {
                if b < k {
                    assert(buckets@[b] == before[b]);
                }
            }
        }
        k += 1;
    }
    let mut result: Vec<usize> = Vec::new();
    let mut b: usize = 0;
    proof {
        assert forall|v: usize| occurs(result@, v) == 0 by {
            assert(result@ =~= Seq::<usize>::empty());
            lemma_occurs_empty(v);
        }
    }
    while b < count
        invariant
            len == arr@.len(),
            count == len + 1,
            0 < max,
            b <= len + 1,
            buckets@.len() == len + 1,
            forall|i: int| 0 <= i < arr@.len() ==> #[trigger] arr@[i] <= max,
            forall|k: int, j: int|
                0 <= k <= len && 0 <= j < buckets@[k]@.len() ==> bucket_of(
                    len as int,
                    max as int,
                    (#[trigger] buckets@[k]@[j]) as int,
                ) == k,
            forall|k: int, v: usize|
                0 <= k <= len ==> #[trigger] occurs(buckets@[k]@, v) == if bucket_of(
                    len as int,
                    max as int,
                    v as int,
                ) == k {
                    occurs(arr@, v)
                } else {
                    0
                },
            forall|k: int| 0 <= k <= len ==> sorted(#[trigger] buckets@[k]@),
            sorted(result@),
            forall|i: int|
                0 <= i < result@.len() ==> bucket_of(
                    len as int,
                    max as int,
                    (#[trigger] result@[i]) as int,
                ) < b,
            forall|v: usize| #[trigger]
                occurs(result@, v) == if bucket_of(len as int, max as int, v as int) < b {
                    occurs(arr@, v)
                } else {
                    0
                },
        decreases len + 1 - b,
    {
        let ghost bucket = buckets@[b as int]@;
        let ghost joined = result@;
        let mut j: usize = 0;
        while j < buckets[b].len()
            invariant
                len == arr@.len(),
                0 < max,
                b <= len,
                buckets@.len() == len + 1,
                bucket == buckets@[b as int]@,
                j <= bucket.len(),
                sorted(bucket),
                forall|i: int|
                    0 <= i < bucket.len() ==> bucket_of(
                        len as int,
                        max as int,
                        (#[trigger] bucket[i]) as int,
                    ) == b,
                result@ == joined + bucket.subrange(0, j as int),
                sorted(joined),
                forall|i: int|
                    0 <= i < joined.len() ==> bucket_of(
                        len as int,
                        max as int,
                        (#[trigger] joined[i]) as int,
                    ) < b,
            decreases bucket.len() - j,
        {
            let x = buckets[b][j];
            result.push(x);
            proof {
                assert(result@ =~= joined + bucket.subrange(0, j + 1));
            }
            j += 1;
        }
        proof {
            assert(bucket.subrange(0, bucket.len() as int) =~= bucket);
            let now = result@;
            assert(now == joined + bucket);
            assert forall|p: int, q: int| 0 <= p <= q < now.len() implies le(now[p], now[q]) by {
                if q < joined.len() {
                    assert(le(joined[p], joined[q]));
                } else if p >= joined.len() {
                    assert(le(bucket[p - joined.len()], bucket[q - joined.len()]));
                } else {
                    let x = joined[p];
                    let y = bucket[q - joined.len()];
                    if x > y {
                        lemma_bucket_monotone(len as int, max as int, y as int, x as int);
                    }
                }
            }
            assert forall|v: usize| #[trigger]
                occurs(now, v) == if bucket_of(len as int, max as int, v as int) < b + 1 {
                    occurs(arr@, v)
                } else {
                    0
                } by {
                vstd::seq_lib::lemma_multiset_commutative(joined, bucket);
                assert(occurs(now, v) == occurs(joined, v) + occurs(bucket, v));
                assert(occurs(buckets@[b as int]@, v) == if bucket_of(
                    len as int,
                    max as int,
                    v as int,
                ) == b {
                    occurs(arr@, v)
                } else {
                    0
                });
            }
        }
        b += 1;
    }
    proof {
        assert forall|v: usize| occurs(result@, v) == occurs(arr@, v) by {
            if !(bucket_of(len as int, max as int, v as int) < len + 1) {
                lemma_occurs_bound(arr@, v);
                if arr@.contains(v) {
                    let i = choose|i: int| 0 <= i < arr@.len() && arr@[i] == v;
                    lemma_bucket_monotone(len as int, max as int, v as int, v as int);
                }
            }
        }
        lemma_occurs_same(result@, arr@);
    }
    result
}

} // verus!
