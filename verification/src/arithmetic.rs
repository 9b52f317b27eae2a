//! The arithmetic that the analyzer computes with.
use vstd::prelude::*;

verus! {

/// A number type with the operations that the analyzer needs of its samples.
///
/// No operation promises anything by itself. What the operations of a type compute
/// is a [`Model`] of the type, and every contract that speaks of computed numbers
/// holds of each model that fits.
pub trait Real: Copy {
    /// The number `v`.
    fn from_int(v: i32) -> Self;

    /// The circle constant.
    fn pi() -> Self;

    /// The value that stands for "not a number".
    fn nan() -> Self;

    /// `self + other`.
    fn plus(self, other: Self) -> Self;

    /// `self - other`.
    fn minus(self, other: Self) -> Self;

    /// `self * other`.
    fn times(self, other: Self) -> Self;

    /// `self / other`.
    fn over(self, other: Self) -> Self;

    /// `-self`.
    fn negated(self) -> Self;

    /// The length of the hypotenuse over the legs `self` and `other`.
    fn hypot(self, other: Self) -> Self;

    /// The cosine of `self` radians.
    fn cos(self) -> Self;

    /// The sine of `self` radians.
    fn sin(self) -> Self;

    /// `e` to the power `self`.
    fn exp(self) -> Self;

    /// Whether `self` is one of the two infinities.
    fn is_infinite(self) -> bool;

    /// Whether `self` is neither an infinity nor "not a number".
    fn is_finite(self) -> bool;

    /// Whether `self` is "not a number".
    fn is_nan(self) -> bool;

    /// `self < other`.
    fn is_below(self, other: Self) -> bool;

    /// `self == other`, as numbers.
    fn is_equal(self, other: Self) -> bool;

    /// `self`, moved into the range from `low` to `high`.
    fn clamp(self, low: Self, high: Self) -> Self;

    /// `self` without its fraction, as a byte.
    fn to_byte(self) -> u8;
}

/// What the operations of a number type compute, as mathematical functions.
#[verifier::reject_recursive_types(T)]
pub struct Model<T> {
    /// The number that stands for an integer.
    pub int_value: spec_fn(int) -> T,
    /// The circle constant.
    pub pi: T,
    /// The value that stands for "not a number".
    pub nan: T,
    pub sum: spec_fn(T, T) -> T,
    pub difference: spec_fn(T, T) -> T,
    pub product: spec_fn(T, T) -> T,
    pub quotient: spec_fn(T, T) -> T,
    pub negation: spec_fn(T) -> T,
    pub hypotenuse: spec_fn(T, T) -> T,
    pub cosine: spec_fn(T) -> T,
    pub sine: spec_fn(T) -> T,
    pub exponential: spec_fn(T) -> T,
    pub infinite: spec_fn(T) -> bool,
    pub finite: spec_fn(T) -> bool,
    pub not_a_number: spec_fn(T) -> bool,
    pub below: spec_fn(T, T) -> bool,
    pub equals: spec_fn(T, T) -> bool,
    pub clamped: spec_fn(T, T, T) -> T,
    pub byte_value: spec_fn(T) -> u8,
}

impl<T: Real> Model<T> {
    /// The operations of `T` compute the functions of this model. Where a type has many
    /// representations of "not a number", all of them count as one value here.
    pub open spec fn fits(self) -> bool {
        &&& forall|v: i32, r: T| #[trigger]
            call_ensures(T::from_int, (v,), r) ==> r == (self.int_value)(v as int)
        &&& forall|r: T| #[trigger] call_ensures(T::pi, (), r) ==> r == self.pi
        &&& forall|r: T| #[trigger] call_ensures(T::nan, (), r) ==> r == self.nan
        &&& forall|a: T, b: T, r: T| #[trigger]
            call_ensures(T::plus, (a, b), r) ==> r == (self.sum)(a, b)
        &&& forall|a: T, b: T, r: T| #[trigger]
            call_ensures(T::minus, (a, b), r) ==> r == (self.difference)(a, b)
        &&& forall|a: T, b: T, r: T| #[trigger]
            call_ensures(T::times, (a, b), r) ==> r == (self.product)(a, b)
        &&& forall|a: T, b: T, r: T| #[trigger]
            call_ensures(T::over, (a, b), r) ==> r == (self.quotient)(a, b)
        &&& forall|a: T, r: T| #[trigger]
            call_ensures(T::negated, (a,), r) ==> r == (self.negation)(a)
        &&& forall|a: T, b: T, r: T| #[trigger]
            call_ensures(T::hypot, (a, b), r) ==> r == (self.hypotenuse)(a, b)
        &&& forall|a: T, r: T| #[trigger] call_ensures(T::cos, (a,), r) ==> r == (self.cosine)(a)
        &&& forall|a: T, r: T| #[trigger] call_ensures(T::sin, (a,), r) ==> r == (self.sine)(a)
        &&& forall|a: T, r: T| #[trigger]
            call_ensures(T::exp, (a,), r) ==> r == (self.exponential)(a)
        &&& forall|a: T, r: bool| #[trigger]
            call_ensures(T::is_infinite, (a,), r) ==> r == (self.infinite)(a)
        &&& forall|a: T, r: bool| #[trigger]
            call_ensures(T::is_finite, (a,), r) ==> r == (self.finite)(a)
        &&& forall|a: T, r: bool| #[trigger]
            call_ensures(T::is_nan, (a,), r) ==> r == (self.not_a_number)(a)
        &&& forall|a: T, b: T, r: bool| #[trigger]
            call_ensures(T::is_below, (a, b), r) ==> r == (self.below)(a, b)
        &&& forall|a: T, b: T, r: bool| #[trigger]
            call_ensures(T::is_equal, (a, b), r) ==> r == (self.equals)(a, b)
        &&& forall|a: T, l: T, h: T, r: T| #[trigger]
            call_ensures(T::clamp, (a, l, h), r) ==> r == (self.clamped)(a, l, h)
        &&& forall|a: T, r: u8| #[trigger]
            call_ensures(T::to_byte, (a,), r) ==> r == (self.byte_value)(a)
    }
}

} // verus!
