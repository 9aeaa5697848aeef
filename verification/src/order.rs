//! Total orders on element types, and what it means for a sequence to be sorted.
use vstd::prelude::*;
use vstd::std_specs::cmp::PartialEqSpec;
use vstd::std_specs::cmp::PartialOrdSpec;
use std::cmp::Ordering;

verus! {

/// Keys of type `K` can be kept in an ordered map: comparing them follows a
/// total order that agrees with equality.
pub open spec fn ordered_keys<K: Ord>() -> bool {
    vstd::laws_cmp::obeys_cmp::<K>()
}

/// The comparison operators of `T` compute what `lt`, `eqv` and `gt` say.
pub open spec fn comparable<T: PartialOrd>() -> bool {
    T::obeys_partial_cmp_spec()
}

/// The operator `==` of `T` computes what `same` says.
pub open spec fn equatable<T: PartialEq>() -> bool {
    T::obeys_eq_spec()
}

/// `x` and `y` are equal as `==` sees them.
pub open spec fn same<T: PartialEq>(x: T, y: T) -> bool {
    x.eq_spec(&y)
}

/// `x` is strictly below `y` in the order that `<` computes.
pub open spec fn lt<T: PartialOrd>(x: T, y: T) -> bool {
    x.partial_cmp_spec(&y) == Some(Ordering::Less)
}

/// `x` and `y` are equivalent in the order (neither is below the other).
pub open spec fn eqv<T: PartialOrd>(x: T, y: T) -> bool {
    x.partial_cmp_spec(&y) == Some(Ordering::Equal)
}

/// `x` is strictly above `y` in the order that `>` computes.
pub open spec fn gt<T: PartialOrd>(x: T, y: T) -> bool {
    x.partial_cmp_spec(&y) == Some(Ordering::Greater)
}

/// `x` is below or equivalent to `y`.
pub open spec fn le<T: PartialOrd>(x: T, y: T) -> bool {
    lt(x, y) || eqv(x, y)
}

/// The comparison operators of `T` follow a total (pre)order: every two
/// values are comparable, `>` mirrors `<`, equivalence is symmetric, and
/// `le` is transitive.
pub open spec fn total_order<T: PartialOrd>() -> bool {
    &&& T::obeys_partial_cmp_spec()
    &&& forall|x: T, y: T| #[trigger] lt(x, y) || eqv(x, y) || gt(x, y)
    &&& forall|x: T, y: T| #[trigger] lt(x, y) <==> gt(y, x)
    &&& forall|x: T, y: T| #[trigger] eqv(x, y) <==> eqv(y, x)
    &&& forall|x: T| #[trigger] eqv(x, x)
    &&& forall|x: T, y: T, z: T| #[trigger] le(x, y) && #[trigger] le(y, z) ==> le(x, z)
}

/// How two values of a totally ordered type compare: exactly one of `lt`,
/// `eqv` and `gt` holds, and swapping the arguments mirrors the outcome.
pub proof fn lemma_compare<T: PartialOrd>(x: T, y: T)
    requires
        total_order::<T>(),
    ensures
        lt(x, y) || eqv(x, y) || gt(x, y),
        lt(x, y) <==> gt(y, x),
        gt(x, y) <==> lt(y, x),
        eqv(x, y) <==> eqv(y, x),
        le(x, y) <==> !gt(x, y),
        le(y, x) <==> !lt(x, y),
        le(x, y) || le(y, x),
{
    assert(lt(x, y) || eqv(x, y) || gt(x, y));
    assert(lt(y, x) || eqv(y, x) || gt(y, x));
    assert(lt(x, y) <==> gt(y, x));
    assert(lt(y, x) <==> gt(x, y));
    assert(eqv(x, y) <==> eqv(y, x));
}

/// `le` is reflexive on a totally ordered type.
pub proof fn lemma_le_refl<T: PartialOrd>(x: T)
    requires
        total_order::<T>(),
    ensures
        le(x, x),
{
    assert(eqv(x, x));
}

/// `le` is transitive on a totally ordered type.
pub proof fn lemma_le_trans<T: PartialOrd>(x: T, y: T, z: T)
    requires
        total_order::<T>(),
        le(x, y),
        le(y, z),
    ensures
        le(x, z),
{
}

/// Every element of `s` is below or equivalent to every later one.
pub open spec fn sorted<T: PartialOrd>(s: Seq<T>) -> bool {
    forall|i: int, j: int| 0 <= i <= j < s.len() ==> le(s[i], s[j])
}

/// `a` and `b` hold the same elements, each as often.
pub open spec fn permutation<T>(a: Seq<T>, b: Seq<T>) -> bool {
    a.to_multiset() == b.to_multiset()
}

/// The order of `u32` is total, and `le` on it is `<=`.
pub proof fn lemma_order_u32()
    ensures
        total_order::<u32>(),
        forall|a: u32, b: u32| #[trigger] le(a, b) <==> a <= b,
{
}

/// The order of `u64` is total, and `le` on it is `<=`.
pub proof fn lemma_order_u64()
    ensures
        total_order::<u64>(),
        forall|a: u64, b: u64| #[trigger] le(a, b) <==> a <= b,
{
}

/// The order of `usize` is total, and `le` on it is `<=`.
pub proof fn lemma_order_usize()
    ensures
        total_order::<usize>(),
        forall|a: usize, b: usize| #[trigger] le(a, b) <==> a <= b,
{
}

} // verus!
