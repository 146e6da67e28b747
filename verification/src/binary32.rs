//! IEEE 754 binary32 values as bit patterns, with arithmetic in software.

use crate::float::Float;
use crate::number::{lemma_arithmetic_wf, lemma_finite_range, Format, Number};
use crate::rounding::{
    lemma_mul_bounds, lemma_mul_strict, lemma_normal_units, lemma_pow2_monotonic,
    lemma_round_cases, lemma_ulp_exp_range, ulp, ulp_exp,
};
use crate::soft::add_finite;
use vstd::arithmetic::power2::*;
use vstd::prelude::*;

verus! {

/// The sign bit.
pub const SIGN_BIT: u32 = 0x8000_0000;

/// The bit pattern of positive infinity: the exponent field all ones.
pub const INFINITY_BITS: u32 = 0x7f80_0000;

/// The bit pattern of the NaN that arithmetic returns.
pub const NAN_BITS: u32 = 0x7fc0_0000;

/// The exponent field of infinities and NaNs.
pub const EXPONENT_SPECIAL: u32 = 255;

/// A binary32 value, held as its bit pattern: one sign bit, eight exponent
/// bits, twenty-three fraction bits.
#[derive(Clone, Copy, Debug)]
pub struct Binary32 {
    pub bits: u32,
}

/// The sign bit as a summand of a bit pattern.
pub open spec fn sign_part(negative: bool) -> int {
    if negative {
        SIGN_BIT as int
    } else {
        0
    }
}

/// The bits below the sign bit of a finite magnitude: the magnitude itself
/// where it is subnormal, else the biased exponent over the fraction.
pub open spec fn finite_part(units: nat) -> int {
    if units < 0x80_0000 {
        units as int
    } else {
        (ulp_exp(24, units) + 1) * 0x80_0000 + (units / ulp(24, units) - 0x80_0000)
    }
}

impl View for Binary32 {
    type V = Number;

    open spec fn view(&self) -> Number {
        let negative = self.sign_negative();
        let e = self.exponent_field();
        let f = self.fraction_field();
        if e == EXPONENT_SPECIAL {
            if f == 0 {
                Number::Infinite { negative }
            } else {
                Number::Nan
            }
        } else if e == 0 {
            Number::Finite { negative, units: f }
        } else {
            Number::Finite {
                negative,
                units: ((0x80_0000 + f) * pow2((e - 1) as nat)) as nat,
            }
        }
    }
}

impl Binary32 {
    /// Whether the sign bit is set.
    pub open spec fn sign_negative(self) -> bool {
        self.bits >= SIGN_BIT
    }

    /// The bits below the sign bit.
    pub open spec fn magnitude_bits(self) -> nat {
        if self.bits >= SIGN_BIT {
            (self.bits - SIGN_BIT) as nat
        } else {
            self.bits as nat
        }
    }

    /// The bit pattern with the sign bit flipped.
    pub open spec fn flipped(self) -> u32 {
        if self.bits >= SIGN_BIT {
            (self.bits - SIGN_BIT) as u32
        } else {
            (self.bits + SIGN_BIT) as u32
        }
    }

    /// The biased exponent, from 0 to 255.
    pub open spec fn exponent_field(self) -> nat {
        self.magnitude_bits() / 0x80_0000
    }

    /// The fraction, below 2^23.
    pub open spec fn fraction_field(self) -> nat {
        self.magnitude_bits() % 0x80_0000
    }

    /// The bit pattern of a value; of a NaN, the one that arithmetic returns.
    pub open spec fn from_number(n: Number) -> Binary32 {
        match n {
            Number::Nan => Binary32 { bits: NAN_BITS },
            Number::Infinite { negative } => Binary32 {
                bits: (INFINITY_BITS + sign_part(negative)) as u32,
            },
            Number::Finite { negative, units } => Binary32 {
                bits: (finite_part(units) + sign_part(negative)) as u32,
            },
        }
    }

    /// The value with the given bit pattern.
    pub fn from_bits(bits: u32) -> (r: Binary32)
        ensures
            r.bits == bits,
    {
        Binary32 { bits }
    }

    /// The bit pattern of the value.
    pub fn to_bits(self) -> (r: u32)
        ensures
            r == self.bits,
    {
        self.bits
    }

    /// Whether the value is a NaN.
    pub fn is_nan(self) -> (r: bool)
        ensures
            r == (self@ is Nan),
    {
        let m = if self.bits >= SIGN_BIT {
            self.bits - SIGN_BIT
        } else {
            self.bits
        };
        m > INFINITY_BITS
    }

    /// Whether the value is an infinity.
    pub fn is_infinite(self) -> (r: bool)
        ensures
            r == (self@ is Infinite),
    {
        let m = if self.bits >= SIGN_BIT {
            self.bits - SIGN_BIT
        } else {
            self.bits
        };
        m == INFINITY_BITS
    }

    /// Whether the value is neither an infinity nor a NaN.
    pub fn is_finite(self) -> (r: bool)
        ensures
            r == (self@ is Finite),
    {
        let m = if self.bits >= SIGN_BIT {
            self.bits - SIGN_BIT
        } else {
            self.bits
        };
        m < INFINITY_BITS
    }

    /// The bits below the sign bit.
    fn below_sign(self) -> (r: u32)
        ensures
            r == self.magnitude_bits(),
    {
        if self.bits >= SIGN_BIT {
            self.bits - SIGN_BIT
        } else {
            self.bits
        }
    }

    /// Whether the sign bit is set; it may be, on a zero and on a NaN too.
    pub fn is_sign_negative(self) -> (r: bool)
        ensures
            r == self.sign_negative(),
    {
        self.bits >= SIGN_BIT
    }

    /// The infinity of the given sign.
    pub fn infinity(negative: bool) -> (r: Binary32)
        ensures
            r == Binary32::from_number(Number::Infinite { negative }),
            r@ == (Number::Infinite { negative }),
    {
        if negative {
            Binary32 { bits: INFINITY_BITS + SIGN_BIT }
        } else {
            Binary32 { bits: INFINITY_BITS }
        }
    }

    /// The NaN that arithmetic returns.
    pub fn nan() -> (r: Binary32)
        ensures
            r == Binary32::from_number(Number::Nan),
            r@ is Nan,
    {
        Binary32 { bits: NAN_BITS }
    }

    /// Sign, significand and exponent of a finite value: its magnitude is
    /// the significand times two to the exponent, in units of 2^-149.
    fn decompose(self) -> (r: (bool, u64, u32))
        requires
            self@ is Finite,
        ensures
            r.1 < pow2(24),
            r.2 <= 253,
            r.1 < pow2(23) ==> r.2 == 0,
            self@ == (Number::Finite { negative: r.0, units: r.1 as nat * pow2(r.2 as nat) }),
    {
        let negative = self.bits >= SIGN_BIT;
        let m = if negative {
            self.bits - SIGN_BIT
        } else {
            self.bits
        };
        let e = m / 0x80_0000;
        let f = m % 0x80_0000;
        proof {
            lemma2_to64();
            lemma2_to64_rest();
            assert(m == self.magnitude_bits());
            assert(e == self.exponent_field());
            assert(f == self.fraction_field());
            assert(f as nat * pow2(0) == f) by {
                lemma_mul_bounds(f as int, f as int, f as int, 1);
            }
        }
        if e == 0 {
            (negative, f as u64, 0)
        } else {
            (negative, (f + 0x80_0000) as u64, e - 1)
        }
    }

    /// The finite value of the given sign, significand and exponent.
    fn pack(negative: bool, q: u64, e: u32) -> (r: Binary32)
        requires
            q < pow2(24),
            e <= 253,
            q < pow2(23) ==> e == 0,
        ensures
            r == Binary32::from_number(
                Number::Finite { negative, units: q as nat * pow2(e as nat) },
            ),
            r@ == (Number::Finite { negative, units: q as nat * pow2(e as nat) }),
            r@.wf(Format::binary32()),
    {
        proof {
            lemma2_to64();
            lemma2_to64_rest();
            let n = Number::Finite { negative, units: q as nat * pow2(e as nat) };
            lemma_finite_range(Format::binary32(), q as nat, e as nat);
            if q >= 0x80_0000 {
                lemma_normal_units(24, q as nat, e as nat);
            } else {
                lemma_mul_bounds(q as int, q as int, q as int, 1);
                lemma_ulp_exp_range(24, q as nat);
            }
            lemma_view_of_from_number(n);
        }
        let m = e * 0x80_0000 + (q as u32);
        if negative {
            Binary32 { bits: m + SIGN_BIT }
        } else {
            Binary32 { bits: m }
        }
    }

    /// Whether the bit pattern is the one that its value is written as: so
    /// is every one but a NaN other than the one that arithmetic returns.
    pub open spec fn is_canonical(self) -> bool {
        self == Binary32::from_number(self@)
    }
}

/// The value of every bit pattern is well formed.
pub proof fn lemma_view_wf(x: Binary32)
    ensures
        x@.wf(Format::binary32()),
{
    let e = x.exponent_field();
    let f = x.fraction_field();
    lemma2_to64();
    lemma2_to64_rest();
    if e == EXPONENT_SPECIAL {
    } else if e == 0 {
        lemma_ulp_exp_range(24, f);
        lemma_finite_range(Format::binary32(), f, 0);
        lemma_mul_bounds(f as int, f as int, f as int, 1);
    } else {
        let q = (0x80_0000 + f) as nat;
        let k = (e - 1) as nat;
        lemma_normal_units(24, q, k);
        lemma_finite_range(Format::binary32(), q, k);
    }
}

/// Every bit pattern but a NaN is the one that its value is written as.
pub proof fn lemma_from_number_of_view(x: Binary32)
    requires
        !(x@ is Nan),
    ensures
        Binary32::from_number(x@) == x,
{
    let e = x.exponent_field();
    let f = x.fraction_field();
    lemma2_to64();
    lemma2_to64_rest();
    if e != EXPONENT_SPECIAL && e != 0 {
        lemma_normal_units(24, (0x80_0000 + f) as nat, (e - 1) as nat);
    }
}

/// A well-formed value is the value of the bit pattern that it is written as.
pub proof fn lemma_view_of_from_number(n: Number)
    requires
        n.wf(Format::binary32()),
    ensures
        Binary32::from_number(n)@ == n,
{
    lemma2_to64();
    lemma2_to64_rest();
    match n {
        Number::Finite { negative, units } => {
            if units >= 0x80_0000 {
                let e = ulp_exp(24, units);
                let u = ulp(24, units) as int;
                let q = (units as int) / u;
                lemma_round_cases(24, units);
                assert(units == q * u);
                lemma_finite_range(Format::binary32(), q as nat, e);
                lemma_mul_bounds(q, q, q, 1);
                assert(e <= 253);
                assert(0x80_0000 <= q < 0x100_0000);
                let x = Binary32::from_number(n);
                assert(x.magnitude_bits() == (e + 1) * 0x80_0000 + (q - 0x80_0000));
                assert(x.exponent_field() == e + 1);
                assert(x.fraction_field() == q - 0x80_0000);
            }
        },
        _ => {},
    }
}

/// The magnitudes of two values that are no NaNs are ordered as the bits
/// below their sign bits: an infinity lies above every finite value.
pub proof fn lemma_magnitude_order(x: Binary32, y: Binary32)
    requires
        !(x@ is Nan),
        !(y@ is Nan),
    ensures
        x.magnitude_bits() < y.magnitude_bits() ==> (y@ is Infinite && x@ is Finite) || (x@ is Finite
            && y@ is Finite && x@.abs().value() < y@.abs().value()),
        x.magnitude_bits() == y.magnitude_bits() ==> x@.abs() == y@.abs(),
        x.magnitude_bits() == 0 <==> x@ is Finite && x@.value() == 0,
{
    let ex = x.exponent_field();
    let ey = y.exponent_field();
    let fx = x.fraction_field();
    let fy = y.fraction_field();
    lemma2_to64();
    lemma2_to64_rest();
    if x@ is Finite && ex > 0 {
        lemma_normal_units(24, (0x80_0000 + fx) as nat, (ex - 1) as nat);
    }
    if x@ is Finite && y@ is Finite {
        if ey > 0 {
            lemma_normal_units(24, (0x80_0000 + fy) as nat, (ey - 1) as nat);
        }
        if x.magnitude_bits() < y.magnitude_bits() {
            if ex == ey {
                if ex > 0 {
                    lemma_mul_strict(
                        (0x80_0000 + fx) as int,
                        (0x80_0000 + fy) as int,
                        pow2((ex - 1) as nat) as int,
                    );
                }
            } else if ex > 0 {
                let kx = (ex - 1) as nat;
                let ky = (ey - 1) as nat;
                lemma_pow2_monotonic(kx + 24, (ky + 24 - 1) as nat);
            }
        }
    }
}

impl Float for Binary32 {
    open spec fn format() -> Format {
        Format::binary32()
    }

    open spec fn number(self) -> Number {
        self@
    }

    open spec fn canonical(self) -> bool {
        self.is_canonical()
    }

    proof fn lemma_format() {
    }

    proof fn lemma_wf(self) {
        lemma_view_wf(self);
    }

    proof fn lemma_canonical(self, other: Self) {
    }

    fn zero() -> (r: Self) {
        Binary32 { bits: 0 }
    }

    fn plus(self, rhs: Self) -> (r: Self) {
        proof {
            lemma2_to64();
            lemma2_to64_rest();
            lemma_view_wf(self);
            lemma_view_wf(rhs);
            lemma_arithmetic_wf(Format::binary32(), self@, rhs@);
            lemma_view_of_from_number(self@.plus(Format::binary32(), rhs@));
        }
        if self.is_nan() || rhs.is_nan() {
            return Binary32::nan();
        }
        if self.is_infinite() {
            if rhs.is_infinite() && self.is_sign_negative() != rhs.is_sign_negative() {
                return Binary32::nan();
            }
            proof {
                lemma_from_number_of_view(self);
            }
            return self;
        }
        if rhs.is_infinite() {
            proof {
                lemma_from_number_of_view(rhs);
            }
            return rhs;
        }
        let (na, ma, ea) = self.decompose();
        let (nb, mb, eb) = rhs.decompose();
        let (negative, q, k) = add_finite(24, na, ma, ea, nb, mb, eb);
        proof {
            lemma_finite_range(Format::binary32(), q as nat, k as nat);
        }
        if k > 253 {
            Binary32::infinity(negative)
        } else {
            Binary32::pack(negative, q, k)
        }
    }

    fn minus(self, rhs: Self) -> (r: Self) {
        self.plus(rhs.neg())
    }

    fn neg(self) -> (r: Self) {
        proof {
            if !(self@ is Nan) {
                lemma_from_number_of_view(Binary32 { bits: self.flipped() });
            }
        }
        if self.bits >= SIGN_BIT {
            Binary32 { bits: self.bits - SIGN_BIT }
        } else {
            Binary32 { bits: self.bits + SIGN_BIT }
        }
    }

    fn abs(self) -> (r: Self) {
        proof {
            if !(self@ is Nan) {
                lemma_from_number_of_view(Binary32 { bits: self.magnitude_bits() as u32 });
            }
        }
        if self.bits >= SIGN_BIT {
            Binary32 { bits: self.bits - SIGN_BIT }
        } else {
            self
        }
    }

    fn equals(self, rhs: Self) -> (r: bool) {
        if self.is_nan() || rhs.is_nan() {
            return false;
        }
        proof {
            lemma_magnitude_order(self, rhs);
            lemma_magnitude_order(rhs, self);
        }
        let a = self.below_sign();
        let b = rhs.below_sign();
        (a == 0 && b == 0) || self.bits == rhs.bits
    }

    fn at_least(self, rhs: Self) -> (r: bool) {
        if self.is_nan() || rhs.is_nan() {
            return false;
        }
        proof {
            lemma_magnitude_order(self, rhs);
            lemma_magnitude_order(rhs, self);
        }
        let a = self.below_sign();
        let b = rhs.below_sign();
        if self.is_sign_negative() {
            if rhs.is_sign_negative() {
                a <= b
            } else {
                a == 0 && b == 0
            }
        } else {
            if rhs.is_sign_negative() {
                true
            } else {
                a >= b
            }
        }
    }
}

} // verus!
