//! Tim sort: runs sorted by insertion, then merged pairwise.
use vstd::prelude::*;
use crate::order::{le, lemma_compare, lemma_le_refl, lemma_le_trans, permutation, sorted, total_order};
use crate::sorting::slices::{
    lemma_in_order_left, lemma_in_order_right, lemma_merged_all, lemma_merged_left,
    lemma_merged_none, lemma_merged_right, lemma_sorted_stretch, merged_in_order, lemma_stretch_halves,
    lemma_swap_permutation, merged, sorted_between,
};
use vstd::slice::{slice_subrange, slice_to_vec};

verus! {

/// The run length for `n` elements when the bits shifted out so far have
/// left the carry `r`: `n` is halved until it is below 64, and one is added
/// at the end if any bit that was shifted out was set.
pub open spec fn min_run(n: nat, r: nat) -> nat
    decreases n,
{
    if n < 64 {
        n + r
    } else {
        min_run(
            n / 2,
            if n % 2 == 1 {
                1
            } else {
                r
            },
        )
    }
}

/// From 32 elements on, the run length lies between 32 and 64.
pub proof fn lemma_min_run_range(n: nat, r: nat)
    requires
        32 <= n,
        r <= 1,
    ensures
        32 <= min_run(n, r) <= 64,
    decreases n,
{
    if n >= 64 {
        lemma_min_run_range(
            n / 2,
            if n % 2 == 1 {
                1
            } else {
                r
            },
        );
    }
}

/// The length of the runs into which `n` elements are cut: `n` itself below
/// 64, else the six leading bits of `n`, plus one if any other bit is set.
pub fn find_min_run(n: usize) -> (run: usize)
    ensures
        run == min_run(n as nat, 0),
        n < 64 ==> run == n,
        n >= 64 ==> 32 <= run <= 64,
{
    let ghost start = n;
    let mut n = n;
    let mut r: usize = 0;
    let minimum: usize = 64;
    proof {
        if start >= 64 {
            lemma_min_run_range(start as nat, 0);
        }
    }
    while n >= minimum
        invariant
            minimum == 64,
            r <= 1,
            min_run(n as nat, r as nat) == min_run(start as nat, 0),
        decreases n,
    {
        let ghost n0 = n;
        let ghost r0 = r;
        r |= n & 1;
        n >>= 1;
        proof {
            assert(n0 >> 1 == n0 / 2) by (bit_vector);
            assert(r0 <= 1 ==> (r0 | (n0 & 1)) == if n0 % 2 == 1 {
                1usize
            } else {
                r0
            }) by (bit_vector);
        }
    }
    n + r
}

/// Sorts the elements of `arr` from position `left` to position `right`,
/// both included, and leaves the others where they are.
pub fn insert_sort<T>(arr: &mut [T], left: usize, right: usize) where T: PartialOrd + Copy
    requires
        total_order::<T>(),
        left < right ==> right < old(arr)@.len(),
    ensures
        final(arr)@.len() == old(arr)@.len(),
        permutation(final(arr)@, old(arr)@),
        left < right ==> sorted_between(final(arr)@, left as int, right + 1),
        forall|k: int|
            0 <= k < old(arr)@.len() && !(left <= k <= right) ==> final(arr)@[k] == old(arr)@[k],
{
    if left >= right {
        return;
    }
    let n = arr.len();
    let mut i: usize = left + 1;
    proof {
        assert forall|a: int, b: int| left <= a <= b < left + 1 implies le(arr@[a], arr@[b]) by {
            lemma_le_refl(arr@[a]);
        }
    }
    while i <= right
        invariant
            total_order::<T>(),
            left < right < arr@.len(),
            arr@.len() == old(arr)@.len(),
            n == arr@.len(),
            left < i <= right + 1,
            permutation(arr@, old(arr)@),
            sorted_between(arr@, left as int, i as int),
            forall|k: int|
                0 <= k < old(arr)@.len() && !(left <= k <= right) ==> arr@[k] == old(arr)@[k],
        decreases right + 1 - i,
    {
        let mut j: usize = i;
        while j > left && arr[j] < arr[j - 1]
            invariant
                total_order::<T>(),
                left < right < arr@.len(),
                arr@.len() == old(arr)@.len(),
                left <= j <= i <= right,
                permutation(arr@, old(arr)@),
                sorted_between(arr@, left as int, j as int),
                sorted_between(arr@, j as int, i + 1),
                forall|p: int, q: int| left <= p < j < q <= i ==> le(arr@[p], arr@[q]),
                forall|k: int|
                    0 <= k < old(arr)@.len() && !(left <= k <= right) ==> arr@[k] == old(arr)@[k],
            decreases j,
        {
            let ghost before = arr@;
            proof {
                lemma_compare(before[j as int], before[j - 1]);
                lemma_swap_permutation(arr@, j - 1, j as int);
            }
            arr.swap(j - 1, j);
            proof {
                let after = arr@;
                assert(after[j - 1] == before[j as int] && after[j as int] == before[j - 1]);
                assert forall|a: int, b: int| j - 1 <= a <= b < i + 1 implies le(
                    after[a],
                    after[b],
                ) by {
                    if a == b {
                        lemma_le_refl(after[a]);
                    } else if a == j - 1 {
                        if b > j {
                            assert(le(before[j as int], before[b]));
                        }
                    } else if a == j {
                        assert(le(before[j - 1], before[b]));
                    } else {
                        assert(le(before[a], before[b]));
                    }
                }
                assert forall|p: int, q: int| left <= p < j - 1 < q <= i implies le(
                    after[p],
                    after[q],
                ) by {
                    if q == j {
                        assert(le(before[p], before[j - 1]));
                    } else {
                        assert(le(before[p], before[q]));
                    }
                }
                assert forall|a: int, b: int| left <= a <= b < j - 1 implies le(
                    after[a],
                    after[b],
                ) by {
                    assert(le(before[a], before[b]));
                }
            }
            j -= 1;
        }
        proof {
            let s = arr@;
            if j > left {
                lemma_compare(s[j as int], s[j - 1]);
            }
            assert forall|a: int, b: int| left <= a <= b < i + 1 implies le(s[a], s[b]) by {
                if b < j {
                    assert(le(s[a], s[b]));
                } else if a >= j {
                    assert(le(s[a], s[b]));
                } else if b > j {
                    assert(le(s[a], s[b]));
                } else {
                    assert(le(s[a], s[j - 1]));
                    lemma_le_trans(s[a], s[j - 1], s[j as int]);
                }
            }
        }
        i += 1;
    }
}

/// Merges the run of `arr` from `left` to `mid` with the run from `mid + 1`
/// to `right` (positions included). The stretch from `left` to `right` holds
/// afterwards what it held before, in sorted order where both runs were
/// sorted; the rest of `arr` stays as it was.
pub fn merge<T>(arr: &mut [T], left: usize, mid: usize, right: usize) where T: PartialOrd + Copy
    requires
        total_order::<T>(),
        left <= mid <= right < old(arr)@.len(),
    ensures
        final(arr)@.len() == old(arr)@.len(),
        permutation(final(arr)@, old(arr)@),
        permutation(
            final(arr)@.subrange(left as int, right + 1),
            old(arr)@.subrange(left as int, right + 1),
        ),
        sorted_between(old(arr)@, left as int, mid + 1) && sorted_between(
            old(arr)@,
            mid + 1,
            right + 1,
        ) ==> sorted_between(final(arr)@, left as int, right + 1),
        forall|k: int|
            0 <= k < old(arr)@.len() && !(left <= k <= right) ==> final(arr)@[k] == old(arr)@[k],
{
    let n = arr.len();
    let array_length1 = mid - left + 1;
    let array_length2 = right - mid;
    let left_arr = slice_to_vec(slice_subrange(arr, left, left + array_length1));
    let right_arr = slice_to_vec(slice_subrange(arr, mid + 1, mid + 1 + array_length2));
    let ghost l = left_arr@;
    let ghost r = right_arr@;
    let ghost runs_sorted = sorted_between(old(arr)@, left as int, mid + 1) && sorted_between(
        old(arr)@,
        mid + 1,
        right + 1,
    );
    let mut i: usize = 0;
    let mut j: usize = 0;
    let mut k: usize = left;
    proof {
        lemma_merged_none(arr@, left as int, l, r);
        if runs_sorted {
            lemma_sorted_stretch(old(arr)@, left as int, mid + 1);
            lemma_sorted_stretch(old(arr)@, mid + 1, right + 1);
        }
    }
    while i < array_length1 || j < array_length2
        invariant
            total_order::<T>(),
            n == arr@.len(),
            arr@.len() == old(arr)@.len(),
            left <= mid <= right < n,
            array_length1 == mid - left + 1,
            array_length2 == right - mid,
            l == left_arr@,
            r == right_arr@,
            l == old(arr)@.subrange(left as int, mid + 1),
            r == old(arr)@.subrange(mid + 1, right + 1),
            i <= array_length1,
            j <= array_length2,
            k == left + i + j,
            merged(arr@, left as int, k as int, l, i as int, r, j as int),
            forall|x: int| 0 <= x < n && !(left <= x <= right) ==> arr@[x] == old(arr)@[x],
            runs_sorted ==> sorted_between(l, 0, l.len() as int) && sorted_between(
                r,
                0,
                r.len() as int,
            ),
            runs_sorted ==> merged_in_order(arr@, left as int, k as int, l, i as int, r, j as int),
        decreases array_length1 - i + array_length2 - j,
    {
        let ghost before = arr@;
        let take_left = if j >= array_length2 {
            true
        } else if i >= array_length1 {
            false
        } else {
            proof {
                lemma_compare(l[i as int], r[j as int]);
            }
            left_arr[i] <= right_arr[j]
        };
        if take_left {
            arr[k] = left_arr[i];
            proof {
                lemma_merged_left(before, arr@, left as int, k as int, l, i as int, r, j as int);
                if runs_sorted {
                    lemma_in_order_left(
                        before,
                        arr@,
                        left as int,
                        k as int,
                        l,
                        i as int,
                        r,
                        j as int,
                    );
                }
            }
            i += 1;
        } else {
            arr[k] = right_arr[j];
            proof {
                lemma_merged_right(before, arr@, left as int, k as int, l, i as int, r, j as int);
                if runs_sorted {
                    lemma_in_order_right(
                        before,
                        arr@,
                        left as int,
                        k as int,
                        l,
                        i as int,
                        r,
                        j as int,
                    );
                }
            }
            j += 1;
        }
        k += 1;
    }
    proof {
        lemma_merged_all(old(arr)@, arr@, left as int, mid + 1, right + 1);
        assert(l.subrange(0, l.len() as int) =~= l);
        assert(r.subrange(0, r.len() as int) =~= r);
        lemma_stretch_halves(old(arr)@, left as int, mid + 1, right + 1);
    }
}

/// The stretch of `s` from `from` to `end` is made of sorted runs of `size`
/// elements each.
pub open spec fn runs<T: PartialOrd>(s: Seq<T>, from: int, end: int, size: int) -> bool
    decreases end - from,
{
    if end <= from || size <= 0 {
        end == from
    } else {
        &&& from <= end - size
        &&& sorted_between(s, end - size, end)
        &&& runs(s, from, end - size, size)
    }
}

/// `s` is made of sorted runs of `size` elements up to position `full`, and
/// of one more sorted run of at most `size` elements from there to its end.
pub open spec fn in_runs<T: PartialOrd>(s: Seq<T>, full: int, size: int) -> bool {
    &&& 0 <= full <= s.len()
    &&& s.len() - full <= size
    &&& runs(s, 0, full, size)
    &&& sorted_between(s, full, s.len() as int)
}

/// Runs only depend on the elements of their stretch.
pub proof fn lemma_runs_frame<T: PartialOrd>(a: Seq<T>, b: Seq<T>, from: int, end: int, size: int)
    requires
        0 <= from,
        end <= a.len(),
        a.len() == b.len(),
        runs(a, from, end, size),
        forall|k: int| from <= k < end ==> a[k] == b[k],
    ensures
        runs(b, from, end, size),
    decreases end - from,
{
    if !(end <= from || size <= 0) {
        lemma_runs_frame(a, b, from, end - size, size);
        assert forall|p: int, q: int| end - size <= p <= q < end implies le(b[p], b[q]) by {
            assert(le(a[p], a[q]));
        }
    }
}

/// The first run of a stretch of runs can be split off.
pub proof fn lemma_runs_first<T: PartialOrd>(s: Seq<T>, from: int, end: int, size: int)
    requires
        runs(s, from, end, size),
        from < end,
    ensures
        0 < size,
        from + size <= end,
        sorted_between(s, from, from + size),
        runs(s, from + size, end, size),
    decreases end - from,
{
    if end - size > from {
        lemma_runs_first(s, from, end - size, size);
    }
}

/// Two sorted runs of `size` elements that were merged form one sorted run
/// of twice the size behind runs of twice the size.
pub proof fn lemma_runs_append<T: PartialOrd>(s: Seq<T>, end: int, size: int)
    requires
        0 < size,
        0 <= end,
        runs(s, 0, end, size),
        sorted_between(s, end, end + size),
    ensures
        runs(s, 0, end + size, size),
{
}

/// Sorts `arr` in place: runs of `find_min_run` elements are sorted by
/// insertion, then neighbouring runs are merged, doubling the run length
/// until one run is left.
pub fn tim_sort<T>(arr: &mut [T]) where T: PartialOrd + Copy
    requires
        total_order::<T>(),
    ensures
        sorted(final(arr)@),
        permutation(final(arr)@, old(arr)@),
{
    let n = arr.len();
    if n == 0 {
        return;
    }
    let min_run = find_min_run(n);
    let mut start: usize = 0;
    let ghost mut full: int = 0;
    loop
        invariant_except_break
            start == full,
            sorted_between(arr@, full, full),
        invariant
            total_order::<T>(),
            n == arr@.len(),
            n >= 1,
            min_run >= 1,
            start < n,
            0 <= full <= start,
            runs(arr@, 0, full, min_run as int),
            permutation(arr@, old(arr)@),
        ensures
            in_runs(arr@, full, min_run as int),
        decreases n - start,
    {
        let ghost before = arr@;
        if n - start > min_run {
            insert_sort(arr, start, start + min_run - 1);
            proof {
                if min_run == 1 {
                    lemma_le_refl(arr@[start as int]);
                }
                lemma_runs_frame(before, arr@, 0, full, min_run as int);
                lemma_runs_append(arr@, full, min_run as int);
                full = full + min_run;
            }
            start += min_run;
        } else {
            insert_sort(arr, start, n - 1);
            proof {
                if start == n - 1 {
                    lemma_le_refl(arr@[start as int]);
                }
                lemma_runs_frame(before, arr@, 0, full, min_run as int);
            }
            break;
        }
    }
    let mut size: usize = min_run;
    while size < n
        invariant_except_break
            in_runs(arr@, full, size as int),
        invariant
            total_order::<T>(),
            n == arr@.len(),
            n >= 1,
            size >= 1,
            permutation(arr@, old(arr)@),
        ensures
            exists|run: int| n <= run && in_runs(arr@, full, run),
            permutation(arr@, old(arr)@),
        decreases n - size,
    {
        let mut left: usize = 0;
        let ghost twice = size + size;
        let ghost mut merged_to: int = 0;
        loop
            invariant_except_break
                left == merged_to,
                left <= full <= n,
                runs(arr@, left as int, full, size as int),
                sorted_between(arr@, full, n as int),
                n - full <= size,
            invariant
                total_order::<T>(),
                n == arr@.len(),
                n >= 1,
                1 <= size < n,
                twice == size + size,
                left < n,
                0 <= merged_to <= n,
                runs(arr@, 0, merged_to, twice),
                permutation(arr@, old(arr)@),
            ensures
                in_runs(arr@, merged_to, twice),
            decreases n - left,
        {
            let ghost before = arr@;
            let mid = if n - left > size {
                left + size - 1
            } else {
                n - 1
            };
            let last = n - left <= size || n - left - size <= size;
            let right = if last {
                n - 1
            } else {
                left + size + size - 1
            };
            proof {
                if left < full {
                    lemma_runs_first(before, left as int, full, size as int);
                    if left + size < full {
                        lemma_runs_first(before, left + size, full, size as int);
                    }
                }
            }
            merge(arr, left, mid, right);
            proof {
                lemma_runs_frame(before, arr@, 0, merged_to, twice);
                if last {
                    assert forall|p: int, q: int| left <= p <= q < n implies le(
                        arr@[p],
                        arr@[q],
                    ) by {
                    }
                } else {
                    lemma_runs_frame(before, arr@, left + twice, full, size as int);
                    assert forall|p: int, q: int| full <= p <= q < n implies le(
                        arr@[p],
                        arr@[q],
                    ) by {
                        assert(le(before[p], before[q]));
                    }
                    lemma_runs_append(arr@, merged_to, twice);
                    merged_to = merged_to + twice;
                }
            }
            if last {
                break;
            }
            left += size + size;
        }
        proof {
            full = merged_to;
        }
        if n - size <= size {
            break;
        }
        size = size + size;
    }
    proof {
        let run = choose|run: int| n <= run && in_runs(arr@, full, run);
        if full > 0 {
            lemma_runs_first(arr@, 0, full, run);
        }
    }
}

} // verus!
