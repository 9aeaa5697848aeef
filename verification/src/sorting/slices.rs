//! Facts about slices that the sorting routines share.
use vstd::prelude::*;
use vstd::multiset::Multiset;
use crate::order::{le, lemma_le_refl, lemma_le_trans, permutation, sorted, total_order};

verus! {

/// `<[T]>::swap`: exchanges the elements at `a` and `b` and leaves the rest
/// of the slice as it was. The standard library panics when an index is out
/// of bounds, so both are required to be in bounds.
pub assume_specification<Item>[ <[Item]>::swap ](s: &mut [Item], a: usize, b: usize)
    requires
        a < old(s)@.len(),
        b < old(s)@.len(),
    ensures
        final(s)@ == old(s)@.update(a as int, old(s)@[b as int]).update(
            b as int,
            old(s)@[a as int],
        ),
;

/// Exchanging two elements of a sequence keeps its multiset of elements.
pub proof fn lemma_swap_permutation<T>(s: Seq<T>, a: int, b: int)
    requires
        0 <= a < s.len(),
        0 <= b < s.len(),
    ensures
        s.update(a, s[b]).update(b, s[a]).to_multiset() == s.to_multiset(),
{
    broadcast use vstd::seq_lib::group_to_multiset_ensures;
    let t = s.update(a, s[b]);
    assert(t.to_multiset() == s.to_multiset().insert(s[b]).remove(s[a]));
    assert(t.update(b, s[a]).to_multiset() == t.to_multiset().insert(s[a]).remove(t[b]));
    if a == b {
        assert(s.update(a, s[b]).update(b, s[a]) =~= s);
    } else {
        assert(t[b] == s[b]);
        assert(s.to_multiset().insert(s[b]).remove(s[a]).insert(s[a]).remove(s[b])
            =~= s.to_multiset());
    }
}

/// `core::mem::take`: hands out the value behind `dest` and leaves the
/// default value of the type in its place. Nothing is claimed of what is
/// left behind.
pub assume_specification<Item: Default>[ core::mem::take::<Item> ](dest: &mut Item) -> (r: Item)
    ensures
        r == *old(dest),
;

/// The sequence `s` with the elements at `a` and `b` exchanged.
pub open spec fn swapped<T>(s: Seq<T>, a: int, b: int) -> Seq<T> {
    s.update(a, s[b]).update(b, s[a])
}

/// Each element of `s` from position `from` up to, but not including, the
/// last before `to` is below or equivalent to its right neighbour.
pub open spec fn ascending<T: PartialOrd>(s: Seq<T>, from: int, to: int) -> bool {
    forall|i: int| from <= i && i + 1 < to ==> le(#[trigger] s[i], s[i + 1])
}

/// Every two elements of `s` between `from` and `to` are in order.
pub open spec fn sorted_between<T: PartialOrd>(s: Seq<T>, from: int, to: int) -> bool {
    forall|i: int, j: int| from <= i <= j < to ==> le(s[i], s[j])
}

/// Every element of `s` before `mid` is below or equivalent to every element
/// from `mid` on.
pub open spec fn split_at<T: PartialOrd>(s: Seq<T>, mid: int) -> bool {
    forall|i: int, j: int| 0 <= i < mid <= j < s.len() ==> le(s[i], s[j])
}

/// In a stretch where every element is in order with its right neighbour,
/// any two elements are in order.
pub proof fn lemma_ascending_pair<T: PartialOrd>(s: Seq<T>, from: int, to: int, i: int, j: int)
    requires
        total_order::<T>(),
        0 <= from,
        to <= s.len(),
        ascending(s, from, to),
        from <= i <= j < to,
    ensures
        le(s[i], s[j]),
    decreases j - i,
{
    if i == j {
        lemma_le_refl(s[i]);
    } else {
        lemma_ascending_pair(s, from, to, i, j - 1);
        assert(le(s[j - 1], s[j - 1 + 1]));
        lemma_le_trans(s[i], s[j - 1], s[j]);
    }
}

/// A stretch where every element is in order with its right neighbour is
/// sorted.
pub proof fn lemma_ascending_sorted<T: PartialOrd>(s: Seq<T>, from: int, to: int)
    requires
        total_order::<T>(),
        0 <= from,
        to <= s.len(),
        ascending(s, from, to),
    ensures
        sorted_between(s, from, to),
{
    assert forall|i: int, j: int| from <= i <= j < to implies le(s[i], s[j]) by {
        lemma_ascending_pair(s, from, to, i, j);
    }
}

/// A sequence whose two parts are sorted, with the first part below the
/// second, is sorted.
pub proof fn lemma_sorted_parts<T: PartialOrd>(s: Seq<T>, mid: int)
    requires
        0 <= mid <= s.len(),
        sorted_between(s, 0, mid),
        sorted_between(s, mid, s.len() as int),
        split_at(s, mid),
    ensures
        sorted(s),
{
}

/// A sequence that is sorted from its first to its last position is sorted.
pub proof fn lemma_sorted_whole<T: PartialOrd>(s: Seq<T>)
    requires
        sorted_between(s, 0, s.len() as int),
    ensures
        sorted(s),
{
}

/// `b` is what cloning each element of `a` can give.
pub open spec fn clone_of<T: Clone>(a: Seq<T>, b: Seq<T>) -> bool {
    &&& a.len() == b.len()
    &&& forall|i: int| 0 <= i < a.len() ==> cloned::<T>(#[trigger] a[i], b[i])
}

/// `<[T]>::to_vec`: a new vector of the slice's length whose elements are
/// clones of the slice's elements, in their order.
pub assume_specification<Item: Clone>[ <[Item]>::to_vec ](s: &[Item]) -> (v: Vec<Item>)
    ensures
        clone_of(s@, v@),
;

/// Replacing a stretch of a sequence by a permutation of that stretch gives
/// a permutation of the sequence.
pub proof fn lemma_replace_stretch<T>(before: Seq<T>, after: Seq<T>, from: int, to: int)
    requires
        0 <= from <= to <= before.len(),
        after.len() == before.len(),
        forall|k: int| 0 <= k < before.len() && !(from <= k < to) ==> after[k] == before[k],
        permutation(after.subrange(from, to), before.subrange(from, to)),
    ensures
        permutation(after, before),
{
    let n = before.len() as int;
    assert(before =~= before.subrange(0, from) + before.subrange(from, to) + before.subrange(
        to,
        n,
    ));
    assert(after =~= after.subrange(0, from) + after.subrange(from, to) + after.subrange(to, n));
    assert(after.subrange(0, from) =~= before.subrange(0, from));
    assert(after.subrange(to, n) =~= before.subrange(to, n));
    vstd::seq_lib::lemma_multiset_commutative(
        before.subrange(0, from) + before.subrange(from, to),
        before.subrange(to, n),
    );
    vstd::seq_lib::lemma_multiset_commutative(before.subrange(0, from), before.subrange(from, to));
    vstd::seq_lib::lemma_multiset_commutative(
        after.subrange(0, from) + after.subrange(from, to),
        after.subrange(to, n),
    );
    vstd::seq_lib::lemma_multiset_commutative(after.subrange(0, from), after.subrange(from, to));
}

/// Two stretches that lie side by side hold together what the stretch over
/// both holds.
pub proof fn lemma_stretch_halves<T>(s: Seq<T>, from: int, mid: int, to: int)
    requires
        0 <= from <= mid <= to <= s.len(),
    ensures
        s.subrange(from, to).to_multiset() == s.subrange(from, mid).to_multiset().add(
            s.subrange(mid, to).to_multiset(),
        ),
{
    assert(s.subrange(from, to) =~= s.subrange(from, mid) + s.subrange(mid, to));
    vstd::seq_lib::lemma_multiset_commutative(s.subrange(from, mid), s.subrange(mid, to));
}

/// What merging has written so far: the stretch of `s` from `from` to `to`
/// holds the first `i` elements of `l` and the first `j` elements of `r`.
pub open spec fn merged<T>(s: Seq<T>, from: int, to: int, l: Seq<T>, i: int, r: Seq<T>, j: int) -> bool {
    s.subrange(from, to).to_multiset() == l.subrange(0, i).to_multiset().add(
        r.subrange(0, j).to_multiset(),
    )
}

/// Before anything is written, nothing of either run has been merged.
pub proof fn lemma_merged_none<T>(s: Seq<T>, from: int, l: Seq<T>, r: Seq<T>)
    requires
        0 <= from <= s.len(),
    ensures
        merged(s, from, from, l, 0, r, 0),
{
    broadcast use vstd::seq_lib::group_to_multiset_ensures;
    let none = Seq::<T>::empty();
    assert(s.subrange(from, from) =~= none);
    assert(l.subrange(0, 0) =~= none);
    assert(r.subrange(0, 0) =~= none);
    assert(none.to_multiset().len() == 0);
    assert(none.to_multiset() =~= none.to_multiset().add(none.to_multiset()));
}

/// Writing the next element of the left run extends what has been merged.
pub proof fn lemma_merged_left<T>(
    before: Seq<T>,
    after: Seq<T>,
    from: int,
    to: int,
    l: Seq<T>,
    i: int,
    r: Seq<T>,
    j: int,
)
    requires
        0 <= from <= to < before.len(),
        0 <= i < l.len(),
        0 <= j <= r.len(),
        merged(before, from, to, l, i, r, j),
        after == before.update(to, l[i]),
    ensures
        merged(after, from, to + 1, l, i + 1, r, j),
{
    broadcast use vstd::seq_lib::group_to_multiset_ensures;
    assert(after.subrange(from, to + 1) =~= before.subrange(from, to).push(l[i]));
    assert(l.subrange(0, i + 1) =~= l.subrange(0, i).push(l[i]));
    assert(l.subrange(0, i).to_multiset().insert(l[i]).add(r.subrange(0, j).to_multiset())
        =~= l.subrange(0, i).to_multiset().add(r.subrange(0, j).to_multiset()).insert(l[i]));
}

/// Writing the next element of the right run extends what has been merged.
pub proof fn lemma_merged_right<T>(
    before: Seq<T>,
    after: Seq<T>,
    from: int,
    to: int,
    l: Seq<T>,
    i: int,
    r: Seq<T>,
    j: int,
)
    requires
        0 <= from <= to < before.len(),
        0 <= i <= l.len(),
        0 <= j < r.len(),
        merged(before, from, to, l, i, r, j),
        after == before.update(to, r[j]),
    ensures
        merged(after, from, to + 1, l, i, r, j + 1),
{
    broadcast use vstd::seq_lib::group_to_multiset_ensures;
    assert(after.subrange(from, to + 1) =~= before.subrange(from, to).push(r[j]));
    assert(r.subrange(0, j + 1) =~= r.subrange(0, j).push(r[j]));
    assert(l.subrange(0, i).to_multiset().add(r.subrange(0, j).to_multiset().insert(r[j]))
        =~= l.subrange(0, i).to_multiset().add(r.subrange(0, j).to_multiset()).insert(r[j]));
}

/// Once both runs have been written out in full, the stretch they were
/// taken from holds what it held before, so the whole is a permutation.
pub proof fn lemma_merged_all<T>(
    before: Seq<T>,
    after: Seq<T>,
    from: int,
    mid: int,
    to: int,
)
    requires
        0 <= from <= mid <= to <= before.len(),
        after.len() == before.len(),
        forall|k: int| 0 <= k < before.len() && !(from <= k < to) ==> after[k] == before[k],
        merged(
            after,
            from,
            to,
            before.subrange(from, mid),
            mid - from,
            before.subrange(mid, to),
            to - mid,
        ),
    ensures
        permutation(after, before),
{
    let l = before.subrange(from, mid);
    let r = before.subrange(mid, to);
    assert(l.subrange(0, mid - from) =~= l);
    assert(r.subrange(0, to - mid) =~= r);
    lemma_stretch_halves(before, from, mid, to);
    lemma_replace_stretch(before, after, from, to);
}

/// What has been merged is in order: the stretch of `s` from `from` to `to`
/// is sorted, and none of its elements is above an element of `l` from `i`
/// on or of `r` from `j` on.
pub open spec fn merged_in_order<T: PartialOrd>(
    s: Seq<T>,
    from: int,
    to: int,
    l: Seq<T>,
    i: int,
    r: Seq<T>,
    j: int,
) -> bool {
    &&& sorted_between(s, from, to)
    &&& forall|x: int, p: int| from <= x < to && i <= p < l.len() ==> le(s[x], l[p])
    &&& forall|x: int, q: int| from <= x < to && j <= q < r.len() ==> le(s[x], r[q])
}

/// Writing the next element of the left run, where it is not above the next
/// of the right run, keeps what has been merged in order.
pub proof fn lemma_in_order_left<T: PartialOrd>(
    before: Seq<T>,
    after: Seq<T>,
    from: int,
    to: int,
    l: Seq<T>,
    i: int,
    r: Seq<T>,
    j: int,
)
    requires
        total_order::<T>(),
        0 <= from <= to < before.len(),
        0 <= i < l.len(),
        0 <= j <= r.len(),
        sorted_between(l, 0, l.len() as int),
        sorted_between(r, 0, r.len() as int),
        merged_in_order(before, from, to, l, i, r, j),
        j < r.len() ==> le(l[i], r[j]),
        after == before.update(to, l[i]),
    ensures
        merged_in_order(after, from, to + 1, l, i + 1, r, j),
{
    let x0 = l[i];
    assert forall|a: int, b: int| from <= a <= b < to + 1 implies le(after[a], after[b]) by {
        if b < to {
            assert(le(before[a], before[b]));
        } else if a < to {
            assert(le(before[a], l[i]));
        } else {
            lemma_le_refl(x0);
        }
    }
    assert forall|x: int, p: int| from <= x < to + 1 && i + 1 <= p < l.len() implies le(
        after[x],
        l[p],
    ) by {
        if x < to {
            assert(le(before[x], l[p]));
        } else {
            assert(le(l[i], l[p]));
        }
    }
    assert forall|x: int, q: int| from <= x < to + 1 && j <= q < r.len() implies le(
        after[x],
        r[q],
    ) by {
        if x < to {
            assert(le(before[x], r[q]));
        } else {
            assert(le(r[j], r[q]));
            lemma_le_trans(x0, r[j], r[q]);
        }
    }
}

/// Writing the next element of the right run, where it is not above the
/// next of the left run, keeps what has been merged in order.
pub proof fn lemma_in_order_right<T: PartialOrd>(
    before: Seq<T>,
    after: Seq<T>,
    from: int,
    to: int,
    l: Seq<T>,
    i: int,
    r: Seq<T>,
    j: int,
)
    requires
        total_order::<T>(),
        0 <= from <= to < before.len(),
        0 <= i <= l.len(),
        0 <= j < r.len(),
        sorted_between(l, 0, l.len() as int),
        sorted_between(r, 0, r.len() as int),
        merged_in_order(before, from, to, l, i, r, j),
        i < l.len() ==> le(r[j], l[i]),
        after == before.update(to, r[j]),
    ensures
        merged_in_order(after, from, to + 1, l, i, r, j + 1),
{
    let x0 = r[j];
    assert forall|a: int, b: int| from <= a <= b < to + 1 implies le(after[a], after[b]) by {
        if b < to {
            assert(le(before[a], before[b]));
        } else if a < to {
            assert(le(before[a], r[j]));
        } else {
            lemma_le_refl(x0);
        }
    }
    assert forall|x: int, q: int| from <= x < to + 1 && j + 1 <= q < r.len() implies le(
        after[x],
        r[q],
    ) by {
        if x < to {
            assert(le(before[x], r[q]));
        } else {
            assert(le(r[j], r[q]));
        }
    }
    assert forall|x: int, p: int| from <= x < to + 1 && i <= p < l.len() implies le(
        after[x],
        l[p],
    ) by {
        if x < to {
            assert(le(before[x], l[p]));
        } else {
            assert(le(l[i], l[p]));
            lemma_le_trans(x0, l[i], l[p]);
        }
    }
}

/// A stretch of a sorted stretch, taken as a sequence of its own, is sorted.
pub proof fn lemma_sorted_stretch<T: PartialOrd>(s: Seq<T>, from: int, to: int)
    requires
        0 <= from <= to <= s.len(),
        sorted_between(s, from, to),
    ensures
        sorted_between(s.subrange(from, to), 0, to - from),
{
    let t = s.subrange(from, to);
    assert forall|a: int, b: int| 0 <= a <= b < to - from implies le(t[a], t[b]) by {
        assert(le(s[from + a], s[from + b]));
    }
}

/// Each element of a stretch that is a permutation of another stretch
/// occurs in that other stretch.
pub proof fn lemma_stretch_member<T>(before: Seq<T>, after: Seq<T>, from: int, to: int, x: int) -> (y: int)
    requires
        0 <= from <= x < to <= before.len(),
        after.len() == before.len(),
        permutation(after.subrange(from, to), before.subrange(from, to)),
    ensures
        from <= y < to,
        before[y] == after[x],
{
    broadcast use vstd::seq_lib::group_to_multiset_ensures;
    let a = after.subrange(from, to);
    let b = before.subrange(from, to);
    assert(a[x - from] == after[x]);
    assert(a.contains(after[x]));
    assert(b.to_multiset().count(after[x]) > 0);
    assert(b.contains(after[x]));
    let i = choose|i: int| 0 <= i < b.len() && b[i] == after[x];
    from + i
}

/// A permutation inside a stretch that leaves the rest alone is a
/// permutation of every stretch that contains it.
pub proof fn lemma_stretch_widen<T>(
    before: Seq<T>,
    after: Seq<T>,
    from: int,
    to: int,
    wide_from: int,
    wide_to: int,
)
    requires
        0 <= wide_from <= from <= to <= wide_to <= before.len(),
        after.len() == before.len(),
        forall|k: int| 0 <= k < before.len() && !(from <= k < to) ==> after[k] == before[k],
        permutation(after.subrange(from, to), before.subrange(from, to)),
    ensures
        permutation(after.subrange(wide_from, wide_to), before.subrange(wide_from, wide_to)),
{
    let b = before.subrange(wide_from, wide_to);
    let a = after.subrange(wide_from, wide_to);
    assert(a.subrange(from - wide_from, to - wide_from) =~= after.subrange(from, to));
    assert(b.subrange(from - wide_from, to - wide_from) =~= before.subrange(from, to));
    assert forall|k: int|
        0 <= k < b.len() && !(from - wide_from <= k < to - wide_from) implies a[k] == b[k] by {
        assert(after[wide_from + k] == before[wide_from + k]);
    }
    lemma_replace_stretch(b, a, from - wide_from, to - wide_from);
}

/// Exchanging two elements of a stretch permutes the stretch.
pub proof fn lemma_swap_in_stretch<T>(s: Seq<T>, from: int, to: int, a: int, b: int)
    requires
        0 <= from <= a < to <= s.len(),
        from <= b < to,
    ensures
        permutation(swapped(s, a, b).subrange(from, to), s.subrange(from, to)),
{
    let t = s.subrange(from, to);
    lemma_swap_permutation(t, a - from, b - from);
    assert(swapped(s, a, b).subrange(from, to) =~= swapped(t, a - from, b - from));
}

/// A multiset that holds no value more often than another is no larger.
pub proof fn lemma_submultiset_len<V>(a: Multiset<V>, b: Multiset<V>)
    requires
        a.subset_of(b),
    ensures
        a.len() <= b.len(),
{
    assert(b =~= a.add(b.sub(a)));
}

/// How often `v` occurs in `s`.
pub open spec fn occurs<V>(s: Seq<V>, v: V) -> nat {
    s.to_multiset().count(v)
}

/// Appending `x` adds one occurrence of `x` and none of anything else.
pub proof fn lemma_occurs_push<V>(s: Seq<V>, x: V, v: V)
    ensures
        occurs(s.push(x), v) == occurs(s, v) + if v == x {
            1nat
        } else {
            0nat
        },
{
    broadcast use vstd::seq_lib::group_to_multiset_ensures;

}

/// Nothing occurs in the empty sequence.
pub proof fn lemma_occurs_empty<V>(v: V)
    ensures
        occurs(Seq::<V>::empty(), v) == 0,
{
    broadcast use vstd::seq_lib::group_to_multiset_ensures;

    assert(Seq::<V>::empty().to_multiset().len() == 0);
}

/// A value occurs in a sequence at most as often as the sequence is long,
/// and only if it is one of its elements.
pub proof fn lemma_occurs_bound<V>(s: Seq<V>, v: V)
    ensures
        occurs(s, v) <= s.len(),
        occurs(s, v) > 0 <==> s.contains(v),
{
    broadcast use vstd::seq_lib::group_to_multiset_ensures;

    assert(s.to_multiset().count(v) <= s.to_multiset().len());
}

/// A sequence in which nothing occurs more often than in another is no
/// longer than the other.
pub proof fn lemma_occurs_len<V>(a: Seq<V>, b: Seq<V>)
    requires
        forall|v: V| occurs(a, v) <= occurs(b, v),
    ensures
        a.len() <= b.len(),
{
    broadcast use vstd::seq_lib::group_to_multiset_ensures;

    assert(a.to_multiset().subset_of(b.to_multiset())) by {
        assert forall|v: V| a.to_multiset().count(v) <= b.to_multiset().count(v) by {
            assert(occurs(a, v) <= occurs(b, v));
        }
    }
    lemma_submultiset_len(a.to_multiset(), b.to_multiset());
}

/// Two sequences in which everything occurs equally often are permutations
/// of each other, and equally long.
pub proof fn lemma_occurs_same<V>(a: Seq<V>, b: Seq<V>)
    requires
        forall|v: V| occurs(a, v) == occurs(b, v),
    ensures
        permutation(a, b),
        a.len() == b.len(),
{
    broadcast use vstd::seq_lib::group_to_multiset_ensures;

    assert(a.to_multiset() =~= b.to_multiset()) by {
        assert forall|v: V| a.to_multiset().count(v) == b.to_multiset().count(v) by {
            assert(occurs(a, v) == occurs(b, v));
        }
    }
    assert(a.len() == a.to_multiset().len());
    assert(b.len() == b.to_multiset().len());
}

/// Permutations of each other hold everything equally often.
pub proof fn lemma_occurs_permutation<V>(a: Seq<V>, b: Seq<V>, v: V)
    requires
        permutation(a, b),
    ensures
        occurs(a, v) == occurs(b, v),
{
}

} // verus!
