//! Edge weights: fixed-width integers seen as mathematical integers.
use vstd::prelude::*;

verus! {

/// A machine integer that can serve as an edge weight. `value` is the
/// mathematical integer it stands for; sums are only taken where they fit.
pub trait Weight: Copy + Sized {
    /// The integer this weight stands for.
    spec fn value(self) -> int;

    /// The smallest integer the type can hold.
    spec fn lowest() -> int;

    /// The largest integer the type can hold.
    spec fn highest() -> int;

    /// Every weight lies in the type's range, and the range contains zero.
    proof fn lemma_range(self)
        ensures
            Self::lowest() <= self.value() <= Self::highest(),
            Self::lowest() <= 0 <= Self::highest(),
    ;

    /// Two weights that stand for the same integer are the same weight.
    proof fn lemma_value_injective(a: Self, b: Self)
        requires
            a.value() == b.value(),
        ensures
            a == b,
    ;

    /// The sum of two weights, where it fits in the type.
    fn plus(self, other: Self) -> (r: Self)
        requires
            Self::lowest() <= self.value() + other.value() <= Self::highest(),
        ensures
            r.value() == self.value() + other.value(),
    ;

    /// Whether `self` is strictly smaller than `other`.
    fn below(self, other: Self) -> (r: bool)
        ensures
            r == (self.value() < other.value()),
    ;

    /// Whether `self` is strictly smaller than zero.
    fn negative(self) -> (r: bool)
        ensures
            r == (self.value() < 0),
    ;
}

impl Weight for i8 {
    open spec fn value(self) -> int {
        self as int
    }

    open spec fn lowest() -> int {
        i8::MIN as int
    }

    open spec fn highest() -> int {
        i8::MAX as int
    }

    proof fn lemma_range(self) {
    }

    proof fn lemma_value_injective(a: Self, b: Self) {
    }

    fn plus(self, other: Self) -> (r: Self) {
        self + other
    }

    fn below(self, other: Self) -> (r: bool) {
        self < other
    }

    fn negative(self) -> (r: bool) {
        self < 0
    }
}

impl Weight for i16 {
    open spec fn value(self) -> int {
        self as int
    }

    open spec fn lowest() -> int {
        i16::MIN as int
    }

    open spec fn highest() -> int {
        i16::MAX as int
    }

    proof fn lemma_range(self) {
    }

    proof fn lemma_value_injective(a: Self, b: Self) {
    }

    fn plus(self, other: Self) -> (r: Self) {
        self + other
    }

    fn below(self, other: Self) -> (r: bool) {
        self < other
    }

    fn negative(self) -> (r: bool) {
        self < 0
    }
}

impl Weight for i32 {
    open spec fn value(self) -> int {
        self as int
    }

    open spec fn lowest() -> int {
        i32::MIN as int
    }

    open spec fn highest() -> int {
        i32::MAX as int
    }

    proof fn lemma_range(self) {
    }

    proof fn lemma_value_injective(a: Self, b: Self) {
    }

    fn plus(self, other: Self) -> (r: Self) {
        self + other
    }

    fn below(self, other: Self) -> (r: bool) {
        self < other
    }

    fn negative(self) -> (r: bool) {
        self < 0
    }
}

impl Weight for i64 {
    open spec fn value(self) -> int {
        self as int
    }

    open spec fn lowest() -> int {
        i64::MIN as int
    }

    open spec fn highest() -> int {
        i64::MAX as int
    }

    proof fn lemma_range(self) {
    }

    proof fn lemma_value_injective(a: Self, b: Self) {
    }

    fn plus(self, other: Self) -> (r: Self) {
        self + other
    }

    fn below(self, other: Self) -> (r: bool) {
        self < other
    }

    fn negative(self) -> (r: bool) {
        self < 0
    }
}

impl Weight for i128 {
    open spec fn value(self) -> int {
        self as int
    }

    open spec fn lowest() -> int {
        i128::MIN as int
    }

    open spec fn highest() -> int {
        i128::MAX as int
    }

    proof fn lemma_range(self) {
    }

    proof fn lemma_value_injective(a: Self, b: Self) {
    }

    fn plus(self, other: Self) -> (r: Self) {
        self + other
    }

    fn below(self, other: Self) -> (r: bool) {
        self < other
    }

    fn negative(self) -> (r: bool) {
        self < 0
    }
}

impl Weight for isize {
    open spec fn value(self) -> int {
        self as int
    }

    open spec fn lowest() -> int {
        isize::MIN as int
    }

    open spec fn highest() -> int {
        isize::MAX as int
    }

    proof fn lemma_range(self) {
    }

    proof fn lemma_value_injective(a: Self, b: Self) {
    }

    fn plus(self, other: Self) -> (r: Self) {
        self + other
    }

    fn below(self, other: Self) -> (r: bool) {
        self < other
    }

    fn negative(self) -> (r: bool) {
        self < 0
    }
}

impl Weight for u8 {
    open spec fn value(self) -> int {
        self as int
    }

    open spec fn lowest() -> int {
        u8::MIN as int
    }

    open spec fn highest() -> int {
        u8::MAX as int
    }

    proof fn lemma_range(self) {
    }

    proof fn lemma_value_injective(a: Self, b: Self) {
    }

    fn plus(self, other: Self) -> (r: Self) {
        self + other
    }

    fn below(self, other: Self) -> (r: bool) {
        self < other
    }

    fn negative(self) -> (r: bool) {
        false
    }
}

impl Weight for u16 {
    open spec fn value(self) -> int {
        self as int
    }

    open spec fn lowest() -> int {
        u16::MIN as int
    }

    open spec fn highest() -> int {
        u16::MAX as int
    }

    proof fn lemma_range(self) {
    }

    proof fn lemma_value_injective(a: Self, b: Self) {
    }

    fn plus(self, other: Self) -> (r: Self) {
        self + other
    }

    fn below(self, other: Self) -> (r: bool) {
        self < other
    }

    fn negative(self) -> (r: bool) {
        false
    }
}

impl Weight for u32 {
    open spec fn value(self) -> int {
        self as int
    }

    open spec fn lowest() -> int {
        u32::MIN as int
    }

    open spec fn highest() -> int {
        u32::MAX as int
    }

    proof fn lemma_range(self) {
    }

    proof fn lemma_value_injective(a: Self, b: Self) {
    }

    fn plus(self, other: Self) -> (r: Self) {
        self + other
    }

    fn below(self, other: Self) -> (r: bool) {
        self < other
    }

    fn negative(self) -> (r: bool) {
        false
    }
}

impl Weight for u64 {
    open spec fn value(self) -> int {
        self as int
    }

    open spec fn lowest() -> int {
        u64::MIN as int
    }

    open spec fn highest() -> int {
        u64::MAX as int
    }

    proof fn lemma_range(self) {
    }

    proof fn lemma_value_injective(a: Self, b: Self) {
    }

    fn plus(self, other: Self) -> (r: Self) {
        self + other
    }

    fn below(self, other: Self) -> (r: bool) {
        self < other
    }

    fn negative(self) -> (r: bool) {
        false
    }
}

impl Weight for u128 {
    open spec fn value(self) -> int {
        self as int
    }

    open spec fn lowest() -> int {
        u128::MIN as int
    }

    open spec fn highest() -> int {
        u128::MAX as int
    }

    proof fn lemma_range(self) {
    }

    proof fn lemma_value_injective(a: Self, b: Self) {
    }

    fn plus(self, other: Self) -> (r: Self) {
        self + other
    }

    fn below(self, other: Self) -> (r: bool) {
        self < other
    }

    fn negative(self) -> (r: bool) {
        false
    }
}

impl Weight for usize {
    open spec fn value(self) -> int {
        self as int
    }

    open spec fn lowest() -> int {
        usize::MIN as int
    }

    open spec fn highest() -> int {
        usize::MAX as int
    }

    proof fn lemma_range(self) {
    }

    proof fn lemma_value_injective(a: Self, b: Self) {
    }

    fn plus(self, other: Self) -> (r: Self) {
        self + other
    }

    fn below(self, other: Self) -> (r: bool) {
        self < other
    }

    fn negative(self) -> (r: bool) {
        false
    }
}

} // verus!
