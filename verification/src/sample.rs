use vstd::prelude::*;

use crate::sealed::Sealed;

verus! {

/// A primitive integer type whose values the statistics read as mathematical integers.
pub trait Sample: Copy + Sealed {
    /// The integer this sample stands for.
    spec fn value(self) -> int;

    /// The smallest value of the type.
    spec fn lowest() -> int;

    /// The largest value of the type.
    spec fn highest() -> int;

    /// Every value of the type lies between `lowest` and `highest`.
    proof fn lemma_value_in_range(x: Self)
        ensures
            Self::lowest() <= x.value() <= Self::highest(),
    ;

    /// No value of the type lies below `i128`, and a type with values above `i128` has no
    /// negative values.
    proof fn lemma_range_against_i128()
        ensures
            Self::lowest() >= i128::MIN,
            Self::highest() > i128::MAX ==> Self::lowest() == 0,
    ;
}

impl Sealed for i8 {}

impl Sample for i8 {
    open spec fn value(self) -> int {
        self as int
    }

    open spec fn lowest() -> int {
        i8::MIN as int
    }

    open spec fn highest() -> int {
        i8::MAX as int
    }

    proof fn lemma_value_in_range(x: Self) {
    }

    proof fn lemma_range_against_i128() {
    }
}

impl Sealed for i16 {}

impl Sample for i16 {
    open spec fn value(self) -> int {
        self as int
    }

    open spec fn lowest() -> int {
        i16::MIN as int
    }

    open spec fn highest() -> int {
        i16::MAX as int
    }

    proof fn lemma_value_in_range(x: Self) {
    }

    proof fn lemma_range_against_i128() {
    }
}

impl Sealed for i32 {}

impl Sample for i32 {
    open spec fn value(self) -> int {
        self as int
    }

    open spec fn lowest() -> int {
        i32::MIN as int
    }

    open spec fn highest() -> int {
        i32::MAX as int
    }

    proof fn lemma_value_in_range(x: Self) {
    }

    proof fn lemma_range_against_i128() {
    }
}

impl Sealed for i64 {}

impl Sample for i64 {
    open spec fn value(self) -> int {
        self as int
    }

    open spec fn lowest() -> int {
        i64::MIN as int
    }

    open spec fn highest() -> int {
        i64::MAX as int
    }

    proof fn lemma_value_in_range(x: Self) {
    }

    proof fn lemma_range_against_i128() {
    }
}

impl Sealed for i128 {}

impl Sample for i128 {
    open spec fn value(self) -> int {
        self as int
    }

    open spec fn lowest() -> int {
        i128::MIN as int
    }

    open spec fn highest() -> int {
        i128::MAX as int
    }

    proof fn lemma_value_in_range(x: Self) {
    }

    proof fn lemma_range_against_i128() {
    }
}

impl Sealed for isize {}

impl Sample for isize {
    open spec fn value(self) -> int {
        self as int
    }

    open spec fn lowest() -> int {
        isize::MIN as int
    }

    open spec fn highest() -> int {
        isize::MAX as int
    }

    proof fn lemma_value_in_range(x: Self) {
    }

    proof fn lemma_range_against_i128() {
    }
}

impl Sealed for u8 {}

impl Sample for u8 {
    open spec fn value(self) -> int {
        self as int
    }

    open spec fn lowest() -> int {
        u8::MIN as int
    }

    open spec fn highest() -> int {
        u8::MAX as int
    }

    proof fn lemma_value_in_range(x: Self) {
    }

    proof fn lemma_range_against_i128() {
    }
}

impl Sealed for u16 {}

impl Sample for u16 {
    open spec fn value(self) -> int {
        self as int
    }

    open spec fn lowest() -> int {
        u16::MIN as int
    }

    open spec fn highest() -> int {
        u16::MAX as int
    }

    proof fn lemma_value_in_range(x: Self) {
    }

    proof fn lemma_range_against_i128() {
    }
}

impl Sealed for u32 {}

impl Sample for u32 {
    open spec fn value(self) -> int {
        self as int
    }

    open spec fn lowest() -> int {
        u32::MIN as int
    }

    open spec fn highest() -> int {
        u32::MAX as int
    }

    proof fn lemma_value_in_range(x: Self) {
    }

    proof fn lemma_range_against_i128() {
    }
}

impl Sealed for u64 {}

impl Sample for u64 {
    open spec fn value(self) -> int {
        self as int
    }

    open spec fn lowest() -> int {
        u64::MIN as int
    }

    open spec fn highest() -> int {
        u64::MAX as int
    }

    proof fn lemma_value_in_range(x: Self) {
    }

    proof fn lemma_range_against_i128() {
    }
}

impl Sealed for u128 {}

impl Sample for u128 {
    open spec fn value(self) -> int {
        self as int
    }

    open spec fn lowest() -> int {
        u128::MIN as int
    }

    open spec fn highest() -> int {
        u128::MAX as int
    }

    proof fn lemma_value_in_range(x: Self) {
    }

    proof fn lemma_range_against_i128() {
    }
}

impl Sealed for usize {}

impl Sample for usize {
    open spec fn value(self) -> int {
        self as int
    }

    open spec fn lowest() -> int {
        usize::MIN as int
    }

    open spec fn highest() -> int {
        usize::MAX as int
    }

    proof fn lemma_value_in_range(x: Self) {
    }

    proof fn lemma_range_against_i128() {
    }
}

/// Calls `num_traits::ToPrimitive::to_i128`, which for a primitive integer returns the
/// value when it lies in the range of `i128` and `None` otherwise.
#[verifier::external_body]
pub(crate) fn sample_to_i128<T: Sample + num_traits::PrimInt>(x: T) -> (r: Option<i128>)
    ensures
        r == (if i128::MIN <= x.value() <= i128::MAX {
            Some(x.value() as i128)
        } else {
            None
        }),
{
    num_traits::ToPrimitive::to_i128(&x)
}

/// Calls `num_traits::NumCast::from` on an `i128`, which for a primitive integer target type
/// returns the same value when it lies in the target's range and `None` otherwise.
#[verifier::external_body]
pub(crate) fn sample_from_i128<T: Sample + num_traits::PrimInt>(n: i128) -> (r: Option<T>)
    ensures
        r is Some <==> T::lowest() <= n <= T::highest(),
        r matches Some(x) ==> x.value() == n,
{
    <T as num_traits::NumCast>::from(n)
}

/// Calls `num_traits::CheckedSub::checked_sub`, which for a primitive integer type returns
/// the exact difference when it lies in the type's range and `None` otherwise.
#[verifier::external_body]
pub(crate) fn sample_checked_sub<T: Sample + num_traits::PrimInt>(a: T, b: T) -> (r: Option<T>)
    ensures
        r is Some <==> T::lowest() <= a.value() - b.value() <= T::highest(),
        r matches Some(x) ==> x.value() == a.value() - b.value(),
{
    num_traits::CheckedSub::checked_sub(&a, &b)
}

} // verus!
