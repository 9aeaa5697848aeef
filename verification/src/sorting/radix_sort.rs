//! Radix sort of natural numbers, least significant digit first.
use vstd::prelude::*;
use crate::order::{le, lemma_order_u64, permutation, sorted};
use crate::sorting::slices::{
    lemma_occurs_bound, lemma_occurs_empty, lemma_occurs_push, lemma_occurs_same, occurs,
};

verus! {

/// What is left of `x` below the place `place`: the digits that have been
/// sorted by.
pub open spec fn low(x: u64, place: int) -> int {
    x as int % place
}

/// The digit of `x` at the place `place`, to the base `radix`.
pub open spec fn digit(x: u64, place: int, radix: int) -> int {
    (x as int / place) % radix
}

/// The elements of `s` are in the order of what is left of them below
/// `place`.
pub open spec fn sorted_below(s: Seq<u64>, place: int) -> bool {
    forall|i: int, j: int| 0 <= i <= j < s.len() ==> low(s[i], place) <= low(s[j], place)
}

/// A number with a smaller digit at `place`, or with the same digit and no
/// more below it, has no more below the next place.
pub proof fn lemma_next_place(x: u64, y: u64, place: int, radix: int)
    requires
        0 < place,
        0 < radix,
        digit(x, place, radix) < digit(y, place, radix) || (digit(x, place, radix) == digit(
            y,
            place,
            radix,
        ) && low(x, place) <= low(y, place)),
    ensures
        low(x, place * radix) <= low(y, place * radix),
{
    vstd::arithmetic::div_mod::lemma_mod_breakdown(x as int, place, radix);
    vstd::arithmetic::div_mod::lemma_mod_breakdown(y as int, place, radix);
    vstd::arithmetic::div_mod::lemma_mod_bound(x as int, place);
    vstd::arithmetic::div_mod::lemma_mod_bound(y as int, place);
    let dx = digit(x, place, radix);
    let dy = digit(y, place, radix);
    if dx < dy {
        assert(place * dx + place <= place * dy) by (nonlinear_arith)
            requires
                dx + 1 <= dy,
                0 < place,
        ;
    }
}

/// The largest element of a non-empty slice.
fn largest(arr: &[u64]) -> (max: u64)
    requires
        arr@.len() > 0,
    ensures
        forall|i: int| 0 <= i < arr@.len() ==> #[trigger] arr@[i] <= max,
{
    let mut max = arr[0];
    let mut i: usize = 1;
    while i < arr.len()
        invariant
            1 <= i <= arr@.len(),
            forall|k: int| 0 <= k < i ==> #[trigger] arr@[k] <= max,
        decreases arr@.len() - i,
    {
        if arr[i] > max {
            max = arr[i];
        }
        i += 1;
    }
    max
}

/// The smallest power of two that is not below `n`.
fn power_of_two_from(n: usize) -> (r: usize)
    requires
        n <= usize::MAX / 2,
    ensures
        r >= 1,
        r >= n,
        n >= 2 ==> r < 2 * n,
        n <= 1 ==> r == 1,
{
    let mut r: usize = 1;
    while r < n
        invariant
            1 <= r,
            n <= usize::MAX / 2,
            r == 1 || r < 2 * n,
        decreases
                (if r < n {
                    n - r
                } else {
                    0
                }),
    {
        r = r * 2;
    }
    r
}

/// Sorts `arr` in place by one stable pass that orders the elements by
/// their digit at `place`: they are dealt out to one bucket for each digit
/// and collected again bucket by bucket.
fn sort_by_digit(arr: &mut [u64], place: u64, radix: usize)
    requires
        0 < place,
        0 < radix,
        sorted_below(old(arr)@, place as int),
    ensures
        final(arr)@.len() == old(arr)@.len(),
        permutation(final(arr)@, old(arr)@),
        sorted_below(final(arr)@, place * radix),
{
    let n = arr.len();
    let ghost given = arr@;
    let ghost p = place as int;
    let ghost r = radix as int;
    let mut buckets: Vec<Vec<u64>> = Vec::new();
    let mut made: usize = 0;
    while made < radix
        invariant
            made <= radix,
            buckets@.len() == made,
            forall|k: int| 0 <= k < made ==> (#[trigger] buckets@[k])@.len() == 0,
        decreases radix - made,
    {
        buckets.push(Vec::new());
        made += 1;
    }
    proof {
        assert(given.subrange(0, 0) =~= Seq::<u64>::empty());
        assert forall|v: u64| occurs(given.subrange(0, 0), v) == 0 by {
            lemma_occurs_empty(v);
        }
        assert forall|k: int, v: u64| 0 <= k < radix implies #[trigger] occurs(buckets@[k]@, v)
            == 0 by {
            assert(buckets@[k]@ =~= Seq::<u64>::empty());
            lemma_occurs_empty(v);
        }
    }
    let mut idx: usize = 0;
    while idx < n
        invariant
            n == arr@.len(),
            arr@ == given,
            idx <= n,
            0 < place,
            0 < radix,
            p == place as int,
            r == radix as int,
            buckets@.len() == radix,
            sorted_below(given, p),
            forall|k: int, j: int|
                0 <= k < radix && 0 <= j < buckets@[k]@.len() ==> digit(
                    #[trigger] buckets@[k]@[j],
                    p,
                    r,
                ) == k,
            forall|k: int, j: int|
                0 <= k < radix && 0 <= j < buckets@[k]@.len() ==> exists|t: int|
                    0 <= t < idx && given[t] == #[trigger] buckets@[k]@[j],
            forall|k: int| 0 <= k < radix ==> sorted_below(#[trigger] buckets@[k]@, p),
            forall|k: int, v: u64|
                0 <= k < radix ==> #[trigger] occurs(buckets@[k]@, v) == if digit(v, p, r) == k {
                    occurs(given.subrange(0, idx as int), v)
                } else {
                    0
                },
        decreases n - idx,
    {
        let x = arr[idx];
        proof {
            vstd::arithmetic::div_mod::lemma_mod_bound(x as int / p, r);
        }
        let d = ((x / place) % (radix as u64)) as usize;
        let ghost before = buckets@;
        let ghost seen = given.subrange(0, idx as int);
        let mut bucket = core::mem::take(&mut buckets[d]);
        bucket.push(x);
        buckets[d] = bucket;
        proof {
            assert(given.subrange(0, idx + 1) =~= seen.push(x));
            let grown = before[d as int]@.push(x);
            assert(buckets@[d as int]@ == grown);
            assert forall|k: int, v: u64| 0 <= k < radix implies #[trigger] occurs(
                buckets@[k]@,
                v,
            ) == if digit(v, p, r) == k {
                occurs(given.subrange(0, idx + 1), v)
            } else {
                0
            } by {
                lemma_occurs_push(seen, x, v);
                lemma_occurs_push(before[d as int]@, x, v);
                if k != d {
                    assert(buckets@[k] == before[k]);
                }
                assert(occurs(before[k]@, v) == if digit(v, p, r) == k {
                    occurs(seen, v)
                } else {
                    0
                });
            }
            assert forall|k: int, j: int|
                0 <= k < radix && 0 <= j < buckets@[k]@.len() implies digit(
                #[trigger] buckets@[k]@[j],
                p,
                r,
            ) == k && exists|t: int| 0 <= t < idx + 1 && given[t] == buckets@[k]@[j] by {
                if k == d {
                    if j < before[k]@.len() {
                        assert(buckets@[k]@[j] == before[k]@[j]);
                        let t = choose|t: int| 0 <= t < idx && given[t] == before[k]@[j];
                        assert(given[t] == buckets@[k]@[j]);
                    } else {
                        assert(given[idx as int] == buckets@[k]@[j]);
                    }
                } else {
                    assert(buckets@[k] == before[k]);
                    let t = choose|t: int| 0 <= t < idx && given[t] == before[k]@[j];
                    assert(given[t] == buckets@[k]@[j]);
                }
            }
            assert forall|k: int| 0 <= k < radix implies sorted_below(#[trigger] buckets@[k]@, p) by {
                if k == d {
                    assert forall|a: int, b: int| 0 <= a <= b < grown.len() implies low(
                        grown[a],
                        p,
                    ) <= low(grown[b], p) by {
                        if b < before[k]@.len() {
                            assert(grown[a] == before[k]@[a] && grown[b] == before[k]@[b]);
                        } else if a < before[k]@.len() {
                            assert(grown[a] == before[k]@[a]);
                            let t = choose|t: int| 0 <= t < idx && given[t] == before[k]@[a];
                            assert(low(given[t], p) <= low(given[idx as int], p));
                        }
                    }
                } else {
                    assert(buckets@[k] == before[k]);
                }
            }
        }
        idx += 1;
    }
    proof {
        assert(given.subrange(0, n as int) =~= given);
        assert(arr@.subrange(0, 0) =~= Seq::<u64>::empty());
        assert forall|v: u64| occurs(arr@.subrange(0, 0), v) == 0 by {
            lemma_occurs_empty(v);
        }
    }
    let mut k: usize = 0;
    let mut b: usize = 0;
    while b < radix
        invariant
            n == arr@.len(),
            n == given.len(),
            0 < place,
            0 < radix,
            p == place as int,
            r == radix as int,
            b <= radix,
            k <= n,
            buckets@.len() == radix,
            forall|c: int, j: int|
                0 <= c < radix && 0 <= j < buckets@[c]@.len() ==> digit(
                    #[trigger] buckets@[c]@[j],
                    p,
                    r,
                ) == c,
            forall|c: int| 0 <= c < radix ==> sorted_below(#[trigger] buckets@[c]@, p),
            forall|c: int, v: u64|
                0 <= c < radix ==> #[trigger] occurs(buckets@[c]@, v) == if digit(v, p, r) == c {
                    occurs(given, v)
                } else {
                    0
                },
            sorted_below(arr@.subrange(0, k as int), p * r),
            forall|i: int| 0 <= i < k ==> digit(#[trigger] arr@[i], p, r) < b,
            forall|v: u64| #[trigger]
                occurs(arr@.subrange(0, k as int), v) == if digit(v, p, r) < b {
                    occurs(given, v)
                } else {
                    0
                },
        decreases radix - b,
    {
        let ghost bucket = buckets@[b as int]@;
        let ghost joined = arr@.subrange(0, k as int);
        let mut j: usize = 0;
        while j < buckets[b].len()
            invariant
                n == arr@.len(),
                n == given.len(),
                0 < place,
                0 < radix,
                p == place as int,
                r == radix as int,
                b < radix,
                k <= n,
                buckets@.len() == radix,
                bucket == buckets@[b as int]@,
                j <= bucket.len(),
                sorted_below(bucket, p),
                forall|i: int| 0 <= i < bucket.len() ==> digit(#[trigger] bucket[i], p, r) == b,
                forall|v: u64| #[trigger]
                    occurs(bucket, v) == if digit(v, p, r) == b {
                        occurs(given, v)
                    } else {
                        0
                    },
                forall|v: u64| #[trigger]
                    occurs(joined, v) == if digit(v, p, r) < b {
                        occurs(given, v)
                    } else {
                        0
                    },
                k == joined.len() + j,
                arr@.subrange(0, k as int) == joined + bucket.subrange(0, j as int),
            decreases bucket.len() - j,
        {
            let x = buckets[b][j];
            let ghost out = arr@.subrange(0, k as int);
            proof {
                // there is room for one more: nothing is written more often
                // than it occurs
                let more = out.push(x);
                assert forall|v: u64| occurs(more, v) <= occurs(given, v) by {
                    lemma_occurs_push(out, x, v);
                    vstd::seq_lib::lemma_multiset_commutative(joined, bucket.subrange(0, j as int));
                    assert(occurs(out, v) == occurs(joined, v) + occurs(
                        bucket.subrange(0, j as int),
                        v,
                    ));
                    assert(bucket =~= bucket.subrange(0, j as int) + bucket.subrange(
                        j as int,
                        bucket.len() as int,
                    ));
                    vstd::seq_lib::lemma_multiset_commutative(
                        bucket.subrange(0, j as int),
                        bucket.subrange(j as int, bucket.len() as int),
                    );
                    let rest = bucket.subrange(j as int, bucket.len() as int);
                    assert(occurs(bucket, v) == occurs(bucket.subrange(0, j as int), v) + occurs(
                        rest,
                        v,
                    ));
                    if v == x {
                        assert(rest[0] == x);
                        lemma_occurs_bound(rest, x);
                        assert(rest.contains(x));
                    }
                }
                crate::sorting::slices::lemma_occurs_len(more, given);
            }
            arr[k] = x;
            proof {
                assert(arr@.subrange(0, k + 1) =~= out.push(x));
                assert(bucket.subrange(0, j + 1) =~= bucket.subrange(0, j as int).push(x));
                assert(arr@.subrange(0, k + 1) =~= joined + bucket.subrange(0, j + 1));
            }
            k += 1;
            j += 1;
        }
        proof {
            assert(bucket.subrange(0, bucket.len() as int) =~= bucket);
            let now = arr@.subrange(0, k as int);
            assert(now == joined + bucket);
            assert forall|a: int, c: int| 0 <= a <= c < now.len() implies low(now[a], p * r)
                <= low(now[c], p * r) by {
                if c < joined.len() {
                    assert(now[a] == joined[a] && now[c] == joined[c]);
                } else if a >= joined.len() {
                    let x = bucket[a - joined.len()];
                    let y = bucket[c - joined.len()];
                    assert(low(x, p) <= low(y, p));
                    lemma_next_place(x, y, p, r);
                } else {
                    let x = joined[a];
                    let y = bucket[c - joined.len()];
                    assert(x == arr@.subrange(0, joined.len() as int)[a]);
                    assert(digit(x, p, r) < b);
                    lemma_next_place(x, y, p, r);
                }
            }
            assert forall|i: int| 0 <= i < k implies digit(#[trigger] arr@[i], p, r) < b + 1 by {
                assert(arr@[i] == now[i]);
                if i >= joined.len() {
                    assert(now[i] == bucket[i - joined.len()]);
                } else {
                    assert(now[i] == joined[i]);
                    assert(joined[i] == arr@.subrange(0, joined.len() as int)[i]);
                }
            }
            assert forall|v: u64| #[trigger]
                occurs(now, v) == if digit(v, p, r) < b + 1 {
                    occurs(given, v)
                } else {
                    0
                } by {
                vstd::seq_lib::lemma_multiset_commutative(joined, bucket);
                assert(occurs(now, v) == occurs(joined, v) + occurs(bucket, v));
            }
        }
        b += 1;
    }
    proof {
        let out = arr@.subrange(0, k as int);
        assert forall|v: u64| occurs(out, v) == occurs(given, v) by {
            vstd::arithmetic::div_mod::lemma_mod_bound(v as int / p, r);
        }
        lemma_occurs_same(out, given);
        assert(out =~= arr@);
    }
}

/// Sorts `arr` in place, digit by digit from the least significant, to the
/// base of the smallest power of two that is not below the length of
/// `arr`.
pub fn radix_sort(arr: &mut [u64])
    requires
        old(arr)@.len() <= usize::MAX / 2,
    ensures
        sorted(final(arr)@),
        permutation(final(arr)@, old(arr)@),
{
    proof {
        lemma_order_u64();
    }
    if arr.len() <= 1 {
        return;
    }
    let max = largest(arr);
    let radix = power_of_two_from(arr.len());
    let mut place: u64 = 1;
    loop
        invariant_except_break
            sorted_below(arr@, place as int),
        invariant
            arr@.len() == old(arr)@.len(),
            2 <= radix,
            1 <= place,
            permutation(arr@, old(arr)@),
            forall|i: int| 0 <= i < old(arr)@.len() ==> #[trigger] old(arr)@[i] <= max,
        ensures
            sorted(arr@),
            permutation(arr@, old(arr)@),
        decreases max - place,
    {
        if place > max {
            proof {
                // every element is below `place`, so it is what is left of it
                assert forall|a: int, b: int| 0 <= a <= b < arr@.len() implies le(
                    arr@[a],
                    arr@[b],
                ) by {
                    lemma_bounded(old(arr)@, arr@, max, a);
                    lemma_bounded(old(arr)@, arr@, max, b);
                    assert(low(arr@[a], place as int) <= low(arr@[b], place as int));
                    vstd::arithmetic::div_mod::lemma_small_mod(arr@[a] as nat, place as nat);
                    vstd::arithmetic::div_mod::lemma_small_mod(arr@[b] as nat, place as nat);
                }
            }
            break;
        }
        sort_by_digit(arr, place, radix);
        if place > max / (radix as u64) {
            proof {
                let top = place * radix;
                assert(max < top) by (nonlinear_arith)
                    requires
                        place > max / (radix as u64),
                        radix >= 2,
                        top == place * radix,
                ;
                assert forall|a: int, b: int| 0 <= a <= b < arr@.len() implies le(
                    arr@[a],
                    arr@[b],
                ) by {
                    lemma_bounded(old(arr)@, arr@, max, a);
                    lemma_bounded(old(arr)@, arr@, max, b);
                    assert(low(arr@[a], top) <= low(arr@[b], top));
                    vstd::arithmetic::div_mod::lemma_small_mod(arr@[a] as nat, top as nat);
                    vstd::arithmetic::div_mod::lemma_small_mod(arr@[b] as nat, top as nat);
                }
            }
            break;
        }
        proof {
            assert(place * radix <= max) by (nonlinear_arith)
                requires
                    place <= max / (radix as u64),
                    radix >= 2,
            ;
            assert(place * radix >= place * 2) by (nonlinear_arith)
                requires
                    radix >= 2,
                    place >= 1,
            ;
        }
        place = place * (radix as u64);
    }
}

/// A bound on the elements of a sequence bounds the elements of its
/// permutations.
pub proof fn lemma_bounded(before: Seq<u64>, after: Seq<u64>, max: u64, i: int)
    requires
        permutation(after, before),
        forall|k: int| 0 <= k < before.len() ==> #[trigger] before[k] <= max,
        0 <= i < after.len(),
    ensures
        after[i] <= max,
{
    let v = after[i];
    lemma_occurs_bound(after, v);
    assert(after.contains(v));
    lemma_occurs_bound(before, v);
    let k = choose|k: int| 0 <= k < before.len() && before[k] == v;
    assert(before[k] <= max);
}

} // verus!
