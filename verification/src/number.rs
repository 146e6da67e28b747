//! The values that the bit patterns of a binary format stand for, and
//! IEEE 754 arithmetic on them.

use crate::rounding::{
    in_format, lemma_mul_bounds, lemma_pow2_binade, lemma_pow2_monotonic,
    lemma_round_representable, lemma_round_zero, magnitude, representable, round,
    round_nearest_even,
};
use vstd::arithmetic::power2::*;
use vstd::prelude::*;

verus! {

/// A binary floating-point format: the number of significand bits, the
/// implicit bit included, and the largest exponent of a finite value,
/// counted from that of the smallest subnormal.
pub struct Format {
    pub precision: nat,
    pub top: nat,
}

impl Format {
    /// Whether the format has a significand at all.
    pub open spec fn wf(self) -> bool {
        self.precision >= 1
    }

    /// IEEE 754 binary64: 53 significant bits, values in units of 2^-1074.
    pub open spec fn binary64() -> Format {
        Format { precision: 53, top: 2045 }
    }

    /// IEEE 754 binary32: 24 significant bits, values in units of 2^-149.
    pub open spec fn binary32() -> Format {
        Format { precision: 24, top: 253 }
    }

    /// The largest finite magnitude: (2^p - 1) * 2^top units.
    pub open spec fn max_units(self) -> nat {
        ((pow2(self.precision) - 1) * pow2(self.top)) as nat
    }
}

/// What a bit pattern stands for. A finite value is a sign and a magnitude
/// counted in units of the smallest subnormal of the format; both zeros
/// are kept apart by the sign.
pub enum Number {
    Nan,
    Infinite { negative: bool },
    Finite { negative: bool, units: nat },
}

/// The value nearest to an exact magnitude: infinite where the rounded
/// magnitude exceeds the largest finite one.
pub open spec fn rounded(f: Format, negative: bool, exact: nat) -> Number {
    let units = round_nearest_even(f.precision, exact);
    if units > f.max_units() {
        Number::Infinite { negative }
    } else {
        Number::Finite { negative, units }
    }
}

impl Number {
    /// Zero of the given sign.
    pub open spec fn zero(negative: bool) -> Number {
        Number::Finite { negative, units: 0 }
    }

    /// The signed number of units of a finite value; zero for the others.
    pub open spec fn value(self) -> int {
        match self {
            Number::Finite { negative, units } => if negative {
                -(units as int)
            } else {
                units as int
            },
            _ => 0,
        }
    }

    /// Whether a finite value has a magnitude that the format can hold.
    pub open spec fn wf(self, f: Format) -> bool {
        match self {
            Number::Finite { negative, units } => representable(f.precision, units) && units
                <= f.max_units(),
            _ => true,
        }
    }

    /// Negation: the sign changes, a NaN stays a NaN.
    pub open spec fn neg(self) -> Number {
        match self {
            Number::Nan => Number::Nan,
            Number::Infinite { negative } => Number::Infinite { negative: !negative },
            Number::Finite { negative, units } => Number::Finite { negative: !negative, units },
        }
    }

    /// Absolute value: the sign is cleared, a NaN stays a NaN.
    pub open spec fn abs(self) -> Number {
        match self {
            Number::Nan => Number::Nan,
            Number::Infinite { negative } => Number::Infinite { negative: false },
            Number::Finite { negative, units } => Number::Finite { negative: false, units },
        }
    }

    /// The rounded sum. A NaN operand gives a NaN, and so do two infinities of
    /// opposite sign; an infinity absorbs what is finite. Of two finite values
    /// the exact sum is rounded to nearest, ties to even; an exact zero is
    /// negative only where both operands are.
    pub open spec fn plus(self, f: Format, rhs: Number) -> Number {
        match (self, rhs) {
            (Number::Nan, _) => Number::Nan,
            (_, Number::Nan) => Number::Nan,
            (Number::Infinite { negative: x }, Number::Infinite { negative: y }) => if x == y {
                self
            } else {
                Number::Nan
            },
            (Number::Infinite { negative }, _) => self,
            (_, Number::Infinite { negative }) => rhs,
            (Number::Finite { negative: x, units: _ }, Number::Finite { negative: y, units: _ }) => {
                let exact = self.value() + rhs.value();
                let negative = if exact == 0 {
                    x && y
                } else {
                    exact < 0
                };
                rounded(f, negative, magnitude(exact))
            },
        }
    }

    /// The rounded difference: the sum with the negated right operand.
    pub open spec fn minus(self, f: Format, rhs: Number) -> Number {
        self.plus(f, rhs.neg())
    }

    /// Equality as IEEE 754 has it: a NaN equals nothing, the two zeros are
    /// equal.
    pub open spec fn equals(self, rhs: Number) -> bool {
        match (self, rhs) {
            (Number::Infinite { negative: x }, Number::Infinite { negative: y }) => x == y,
            (Number::Finite { .. }, Number::Finite { .. }) => self.value() == rhs.value(),
            _ => false,
        }
    }

    /// The order `>=` as IEEE 754 has it: false where either side is a NaN.
    pub open spec fn at_least(self, rhs: Number) -> bool {
        match (self, rhs) {
            (Number::Nan, _) => false,
            (_, Number::Nan) => false,
            (Number::Infinite { negative: x }, Number::Infinite { negative: y }) => !x || y,
            (Number::Infinite { negative }, _) => !negative,
            (_, Number::Infinite { negative }) => negative,
            (Number::Finite { .. }, Number::Finite { .. }) => self.value() >= rhs.value(),
        }
    }
}

/// Two values that IEEE 754 equality does not tell apart, or two NaNs: the
/// same but for the sign of a zero.
pub open spec fn alike(x: Number, y: Number) -> bool {
    (x is Nan && y is Nan) || x.equals(y)
}

/// Both zeros are well formed, and zero rounds to itself.
pub proof fn lemma_zero_units(f: Format)
    requires
        f.wf(),
    ensures
        representable(f.precision, 0),
        round_nearest_even(f.precision, 0) == 0,
        0 <= (pow2(f.precision) - 1) * pow2(f.top),
        Number::zero(false).wf(f),
        Number::zero(true).wf(f),
{
    lemma_round_zero(f.precision);
    lemma_pow2_binade(f.precision, f.top);
    lemma_mul_bounds(0, pow2(f.precision) - 1, pow2(f.precision) - 1, pow2(f.top) as int);
}

/// A significand below 2^p times a power of two is within the finite range
/// exactly where the exponent does not exceed the top one, provided that
/// the significand has its leading bit set wherever the exponent is not
/// zero.
pub proof fn lemma_finite_range(f: Format, q: nat, k: nat)
    requires
        f.wf(),
        q < pow2(f.precision),
        k > 0 ==> q >= pow2((f.precision - 1) as nat),
    ensures
        q * pow2(k) <= f.max_units() <==> k <= f.top,
{
    let p = f.precision;
    let big = pow2(p) as int;
    lemma_zero_units(f);
    lemma_pow2_binade(p, f.top);
    lemma_pow2_binade(p, k);
    if k <= f.top {
        lemma_pow2_monotonic(k, f.top);
        lemma_mul_bounds(0, q as int, big - 1, pow2(k) as int);
        lemma_mul_bounds(pow2(k) as int, pow2(k) as int, pow2(f.top) as int, big - 1);
    } else {
        lemma_pow2_monotonic(f.top + 1, k);
        lemma_pow2_binade(p, f.top + 1);
        lemma_pow2_monotonic((f.top + p) as nat, (k + p - 1) as nat);
        lemma_mul_bounds(pow2((p - 1) as nat) as int, q as int, q as int, pow2(k) as int);
        lemma_mul_bounds(big - 1, big - 1, big - 1, pow2(f.top) as int);
    }
}

/// Sums, differences, negations and absolute values of well-formed values
/// are well formed.
pub proof fn lemma_arithmetic_wf(f: Format, x: Number, y: Number)
    requires
        f.wf(),
        x.wf(f),
        y.wf(f),
    ensures
        x.plus(f, y).wf(f),
        x.minus(f, y).wf(f),
        x.neg().wf(f),
        x.abs().wf(f),
{
    if x is Finite && y is Finite {
        lemma_round_representable(f.precision, magnitude(x.value() + y.value()));
        lemma_round_representable(f.precision, magnitude(x.value() + y.neg().value()));
    }
}

/// A finite sum is the rounding of the exact sum, and the sum is finite
/// wherever that rounding does not exceed the largest finite magnitude.
/// The same holds of a difference.
pub proof fn lemma_plus_value(f: Format, x: Number, y: Number)
    requires
        f.wf(),
        x is Finite,
        y is Finite,
    ensures
        !(x.plus(f, y) is Nan),
        !(x.minus(f, y) is Nan),
        x.plus(f, y) is Finite <==> magnitude(round(f.precision, x.value() + y.value()))
            <= f.max_units(),
        x.plus(f, y) is Finite ==> x.plus(f, y).value() == round(
            f.precision,
            x.value() + y.value(),
        ),
        x.minus(f, y) is Finite <==> magnitude(round(f.precision, x.value() - y.value()))
            <= f.max_units(),
        x.minus(f, y) is Finite ==> x.minus(f, y).value() == round(
            f.precision,
            x.value() - y.value(),
        ),
{
    lemma_zero_units(f);
}

/// The value of a well-formed finite number is in the format, and within
/// the finite range.
pub proof fn lemma_value_in_format(f: Format, x: Number)
    requires
        x.wf(f),
        x is Finite,
    ensures
        in_format(f.precision, x.value()),
        magnitude(x.value()) <= f.max_units(),
{
}

/// Sums do not tell apart what equality does not: operands that are alike
/// give sums that are alike.
pub proof fn lemma_plus_alike(f: Format, x: Number, x2: Number, y: Number, y2: Number)
    requires
        f.wf(),
        alike(x, x2),
        alike(y, y2),
    ensures
        alike(x.plus(f, y), x2.plus(f, y2)),
        alike(x.minus(f, y), x2.minus(f, y2)),
        alike(x.neg(), x2.neg()),
        alike(x.plus(f, y), y.plus(f, x)),
{
    lemma_zero_units(f);
}

/// Negation distributes over sums and turns a difference round, but for
/// the sign of a zero.
pub proof fn lemma_neg_plus_alike(f: Format, x: Number, y: Number)
    requires
        f.wf(),
    ensures
        alike(x.plus(f, y).neg(), x.neg().plus(f, y.neg())),
        alike(x.minus(f, y).neg(), y.minus(f, x)),
        x.neg().neg() == x,
{
    lemma_zero_units(f);
}

/// Being alike is an equivalence.
pub proof fn lemma_alike_equivalence(x: Number, y: Number, z: Number)
    ensures
        alike(x, x) || x is Nan,
        x is Nan ==> alike(x, x),
        alike(x, y) ==> alike(y, x),
        alike(x, y) && alike(y, z) ==> alike(x, z),
{
}

} // verus!
