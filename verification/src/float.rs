//! What the transforms and the accumulators ask of a floating-point type.

use crate::number::{Format, Number};
use vstd::prelude::*;

verus! {

/// A floating-point type of a binary format with IEEE 754 arithmetic:
/// sums and differences are rounded to nearest, ties to even, and NaNs and
/// infinities propagate.
pub trait Float: Copy {
    /// The format of the type.
    spec fn format() -> Format;

    /// The value that `self` stands for.
    spec fn number(self) -> Number;

    /// Whether `self` is the one bit pattern that its value is written as.
    /// Only a NaN has more than one bit pattern; every result of `zero`,
    /// `plus` and `minus` is canonical.
    spec fn canonical(self) -> bool;

    /// The format has a significand.
    proof fn lemma_format()
        ensures
            Self::format().wf(),
    ;

    /// The value of every bit pattern is well formed.
    proof fn lemma_wf(self)
        ensures
            self.number().wf(Self::format()),
    ;

    /// Canonical bit patterns of the same value are the same.
    proof fn lemma_canonical(self, other: Self)
        requires
            self.canonical(),
            other.canonical(),
            self.number() == other.number(),
        ensures
            self == other,
    ;

    /// Positive zero.
    fn zero() -> (r: Self)
        ensures
            r.number() == Number::zero(false),
            r.canonical(),
    ;

    /// The rounded sum.
    fn plus(self, rhs: Self) -> (r: Self)
        ensures
            r.number() == self.number().plus(Self::format(), rhs.number()),
            r.canonical(),
    ;

    /// The rounded difference.
    fn minus(self, rhs: Self) -> (r: Self)
        ensures
            r.number() == self.number().minus(Self::format(), rhs.number()),
            r.canonical(),
    ;

    /// The negation: the sign changes, also that of a zero or a NaN.
    fn neg(self) -> (r: Self)
        ensures
            r.number() == self.number().neg(),
            self.number() is Nan || r.canonical(),
    ;

    /// The absolute value.
    fn abs(self) -> (r: Self)
        ensures
            r.number() == self.number().abs(),
            self.number() is Nan || r.canonical(),
    ;

    /// Equality as IEEE 754 has it: a NaN equals nothing, not even itself,
    /// and the two zeros are equal.
    fn equals(self, rhs: Self) -> (r: bool)
        ensures
            r == self.number().equals(rhs.number()),
    ;

    /// The order `>=` as IEEE 754 has it: false where either side is a NaN.
    fn at_least(self, rhs: Self) -> (r: bool)
        ensures
            r == self.number().at_least(rhs.number()),
    ;
}

} // verus!
