//! Error-free transforms: the rounded sum or difference of two values, and
//! the error of that rounding.

use crate::error_free::{
    exponent_of, lemma_fast_two_sum_exact, lemma_two_sub_steps, lemma_two_sum_exact,
};
use crate::float::Float;
use crate::number::{
    alike, lemma_alike_equivalence, lemma_arithmetic_wf, lemma_neg_plus_alike, lemma_plus_alike,
    lemma_plus_value, lemma_value_in_format, Format, Number,
};
use crate::rounding::{lemma_ulp_exp_monotonic, magnitude};
use vstd::prelude::*;

verus! {

/// The general transform, step by step: the rounded sum, what each operand
/// would have had to be to give it exactly, and the sum of what they lack.
pub open spec fn two_sum_model(f: Format, a: Number, b: Number) -> (Number, Number) {
    let s = a.plus(f, b);
    let av = s.minus(f, b);
    let bv = s.minus(f, av);
    let da = a.minus(f, av);
    let db = b.minus(f, bv);
    (s, da.plus(f, db))
}

/// The subtracting transform, step by step.
pub open spec fn two_sub_model(f: Format, a: Number, b: Number) -> (Number, Number) {
    let s = a.minus(f, b);
    let av = s.plus(f, b);
    let bv = av.minus(f, s);
    let da = a.minus(f, av);
    let db = b.minus(f, bv);
    (s, da.minus(f, db))
}

/// The fast transform, step by step: the rounded sum, what `b` would have
/// had to be, and what it lacks.
pub open spec fn fast_two_sum_model(f: Format, a: Number, b: Number) -> (Number, Number) {
    let s = a.plus(f, b);
    let bv = s.minus(f, a);
    (s, b.minus(f, bv))
}

/// The transform that compares magnitudes: the fast transform with the
/// larger operand first; on equal magnitudes `a` comes first.
pub open spec fn abs_two_sum_model(f: Format, a: Number, b: Number) -> (Number, Number) {
    let s = a.plus(f, b);
    let t = if a.abs().at_least(b.abs()) {
        b.minus(f, s.minus(f, a))
    } else {
        a.minus(f, s.minus(f, b))
    };
    (s, t)
}

/// Whether the operands are finite and no step of the general transform
/// overflows: so it is of the sum and of the two values recovered from it.
pub open spec fn two_sum_in_range(f: Format, a: Number, b: Number) -> bool {
    let s = a.plus(f, b);
    let av = s.minus(f, b);
    let bv = s.minus(f, av);
    a is Finite && b is Finite && s is Finite && av is Finite && bv is Finite
}

/// Whether the operands are finite and no step of the subtracting transform
/// overflows.
pub open spec fn two_sub_in_range(f: Format, a: Number, b: Number) -> bool {
    let s = a.minus(f, b);
    let av = s.plus(f, b);
    let bv = av.minus(f, s);
    a is Finite && b is Finite && s is Finite && av is Finite && bv is Finite
}

/// What the fast transform asks of its operands: `a` is zero, or its
/// exponent is not below that of `b`. It holds wherever the magnitude of
/// `a` is not below that of `b`, and wherever `b` is zero.
pub open spec fn fast_two_sum_applies(f: Format, a: Number, b: Number) -> bool {
    a is Finite && b is Finite && (a.value() == 0 || exponent_of(f.precision, b.value())
        <= exponent_of(f.precision, a.value()))
}

/// The general transform is error free: for finite operands, where no step
/// overflows, the first result is the rounded sum and the two results add
/// up to the exact sum.
pub proof fn law_two_sum_exact(f: Format, a: Number, b: Number)
    requires
        f.wf(),
        a.wf(f),
        b.wf(f),
        two_sum_in_range(f, a, b),
    ensures
        two_sum_model(f, a, b).0 == a.plus(f, b),
        two_sum_model(f, a, b).1 is Finite,
        two_sum_model(f, a, b).0.value() + two_sum_model(f, a, b).1.value() == a.value()
            + b.value(),
        magnitude(two_sum_model(f, a, b).1.value()) <= magnitude(b.value()),
{
    let s = a.plus(f, b);
    let av = s.minus(f, b);
    let bv = s.minus(f, av);
    let da = a.minus(f, av);
    let db = b.minus(f, bv);
    lemma_arithmetic_wf(f, a, b);
    lemma_arithmetic_wf(f, s, b);
    lemma_arithmetic_wf(f, s, av);
    lemma_value_in_format(f, a);
    lemma_value_in_format(f, b);
    lemma_value_in_format(f, s);
    lemma_value_in_format(f, av);
    lemma_value_in_format(f, bv);
    lemma_two_sum_exact(f.precision, a.value(), b.value());
    lemma_plus_value(f, a, b);
    lemma_plus_value(f, s, b);
    lemma_plus_value(f, s, av);
    lemma_plus_value(f, a, av);
    lemma_plus_value(f, b, bv);
    lemma_plus_value(f, da, db);
}

/// Where the sum of two finite values is finite and a later step of the
/// general transform overflows, the second result is an infinity or a NaN:
/// the error is lost on exactly the operands that `two_sum_in_range` leaves
/// out.
pub proof fn law_two_sum_out_of_range(f: Format, a: Number, b: Number)
    requires
        f.wf(),
        a is Finite,
        b is Finite,
        a.plus(f, b) is Finite,
        !two_sum_in_range(f, a, b),
    ensures
        !(two_sum_model(f, a, b).1 is Finite),
{
    let s = a.plus(f, b);
    let av = s.minus(f, b);
    let bv = s.minus(f, av);
    lemma_plus_value(f, s, b);
    if av is Finite {
        lemma_plus_value(f, s, av);
        lemma_plus_value(f, a, av);
    }
}

/// The fast transform is error free where it applies: if the sum does not
/// overflow, the first result is the rounded sum and the two results add up
/// to the exact sum.
pub proof fn law_fast_two_sum_exact(f: Format, a: Number, b: Number)
    requires
        f.wf(),
        a.wf(f),
        b.wf(f),
        fast_two_sum_applies(f, a, b),
        a.plus(f, b) is Finite,
    ensures
        fast_two_sum_model(f, a, b).0 == a.plus(f, b),
        fast_two_sum_model(f, a, b).1 is Finite,
        fast_two_sum_model(f, a, b).0.value() + fast_two_sum_model(f, a, b).1.value()
            == a.value() + b.value(),
{
    let s = a.plus(f, b);
    let bv = s.minus(f, a);
    lemma_arithmetic_wf(f, a, b);
    lemma_value_in_format(f, a);
    lemma_value_in_format(f, b);
    lemma_value_in_format(f, s);
    lemma_fast_two_sum_exact(f.precision, a.value(), b.value());
    lemma_plus_value(f, a, b);
    lemma_plus_value(f, s, a);
    lemma_plus_value(f, b, bv);
}

/// Where the magnitude of `a` is not below that of `b`, the fast transform
/// returns what the general one returns: the same sum, and an error that is
/// equal to it.
pub proof fn law_fast_two_sum_agrees(f: Format, a: Number, b: Number)
    requires
        f.wf(),
        a.wf(f),
        b.wf(f),
        two_sum_in_range(f, a, b),
        a.abs().at_least(b.abs()),
    ensures
        fast_two_sum_applies(f, a, b),
        fast_two_sum_model(f, a, b).0 == two_sum_model(f, a, b).0,
        fast_two_sum_model(f, a, b).1.equals(two_sum_model(f, a, b).1),
{
    lemma_ulp_exp_monotonic(f.precision, magnitude(b.value()), magnitude(a.value()));
    law_two_sum_exact(f, a, b);
    law_fast_two_sum_exact(f, a, b);
}

/// The transform that compares magnitudes is error free for all finite
/// operands whose sum does not overflow.
pub proof fn law_abs_two_sum_exact(f: Format, a: Number, b: Number)
    requires
        f.wf(),
        a.wf(f),
        b.wf(f),
        a is Finite,
        b is Finite,
        a.plus(f, b) is Finite,
    ensures
        abs_two_sum_model(f, a, b).0 == a.plus(f, b),
        abs_two_sum_model(f, a, b).1 is Finite,
        abs_two_sum_model(f, a, b).0.value() + abs_two_sum_model(f, a, b).1.value() == a.value()
            + b.value(),
{
    if a.abs().at_least(b.abs()) {
        lemma_ulp_exp_monotonic(f.precision, magnitude(b.value()), magnitude(a.value()));
        law_fast_two_sum_exact(f, a, b);
    } else {
        lemma_ulp_exp_monotonic(f.precision, magnitude(a.value()), magnitude(b.value()));
        assert(b.plus(f, a) == a.plus(f, b));
        law_fast_two_sum_exact(f, b, a);
    }
}

/// The transform that compares magnitudes returns what the general one
/// returns, for all finite operands on which no step of the general one
/// overflows: the same sum, and an error that is equal to it.
pub proof fn law_abs_two_sum_agrees(f: Format, a: Number, b: Number)
    requires
        f.wf(),
        a.wf(f),
        b.wf(f),
        two_sum_in_range(f, a, b),
    ensures
        abs_two_sum_model(f, a, b).0 == two_sum_model(f, a, b).0,
        abs_two_sum_model(f, a, b).1.equals(two_sum_model(f, a, b).1),
{
    law_two_sum_exact(f, a, b);
    law_abs_two_sum_exact(f, a, b);
}

/// The subtracting transform returns what the general one returns on `a`
/// and the negation of `b`, whatever the operands: the same difference, and
/// errors that are equal or both NaN.
pub proof fn law_two_sub_agrees(f: Format, a: Number, b: Number)
    requires
        f.wf(),
    ensures
        two_sub_model(f, a, b).0 == two_sum_model(f, a, b.neg()).0,
        alike(two_sub_model(f, a, b).1, two_sum_model(f, a, b.neg()).1),
        !(two_sub_model(f, a, b).1 is Nan) ==> two_sub_model(f, a, b).1.equals(
            two_sum_model(f, a, b.neg()).1,
        ),
{
    let s = a.minus(f, b);
    let av = s.plus(f, b);
    let bv = av.minus(f, s);
    let da = a.minus(f, av);
    let db = b.minus(f, bv);
    let n = b.neg();
    let av2 = s.minus(f, n);
    let bv2 = s.minus(f, av2);
    let db2 = n.minus(f, bv2);
    lemma_neg_plus_alike(f, b, b);
    assert(av2 == av);
    // the second value recovered is the negation of the first one's
    lemma_neg_plus_alike(f, av, s);
    assert(alike(bv.neg(), bv2));
    // and so is what `b` lacks
    lemma_neg_plus_alike(f, b, bv.neg());
    lemma_neg_plus_alike(f, bv, bv);
    assert(alike(db.neg(), n.plus(f, bv.neg().neg())));
    lemma_alike_equivalence(n, n, n);
    lemma_alike_equivalence(bv.neg(), bv2, bv2);
    lemma_plus_alike(f, n, n, bv.neg(), bv2);
    lemma_alike_equivalence(db.neg(), n.minus(f, bv.neg()), db2);
    assert(alike(db.neg(), db2));
    lemma_alike_equivalence(da, da, da);
    lemma_plus_alike(f, da, da, db.neg(), db2);
}

/// The subtracting transform is error free: for finite operands, where no
/// step overflows, the first result is the rounded difference and the two
/// results add up to the exact difference.
pub proof fn law_two_sub_exact(f: Format, a: Number, b: Number)
    requires
        f.wf(),
        a.wf(f),
        b.wf(f),
        two_sub_in_range(f, a, b),
    ensures
        two_sub_model(f, a, b).0 == a.minus(f, b),
        two_sub_model(f, a, b).1 is Finite,
        two_sub_model(f, a, b).0.value() + two_sub_model(f, a, b).1.value() == a.value()
            - b.value(),
{
    let s = a.minus(f, b);
    let av = s.plus(f, b);
    let bv = av.minus(f, s);
    let da = a.minus(f, av);
    let db = b.minus(f, bv);
    let ai = a.value();
    let bi = b.value();
    lemma_arithmetic_wf(f, a, b);
    lemma_arithmetic_wf(f, s, b);
    lemma_arithmetic_wf(f, av, s);
    lemma_value_in_format(f, a);
    lemma_value_in_format(f, b);
    lemma_value_in_format(f, b.neg());
    lemma_value_in_format(f, s);
    lemma_value_in_format(f, av);
    lemma_value_in_format(f, bv);
    lemma_two_sum_exact(f.precision, ai, -bi);
    lemma_two_sub_steps(f.precision, ai, bi);
    lemma_plus_value(f, a, b);
    lemma_plus_value(f, s, b);
    lemma_plus_value(f, av, s);
    lemma_plus_value(f, a, av);
    lemma_plus_value(f, b, bv);
    lemma_plus_value(f, da, db);
}

/// The rounded sum of `a` and `b` and the error of the rounding, for
/// operands in any order, in six operations.
pub fn two_sum<T: Float>(a: T, b: T) -> (r: (T, T))
    ensures
        (r.0.number(), r.1.number()) == two_sum_model(T::format(), a.number(), b.number()),
        r.0.canonical(),
        r.1.canonical(),
        r.0.number() == a.number().plus(T::format(), b.number()),
        two_sum_in_range(T::format(), a.number(), b.number()) ==> r.1.number() is Finite
            && r.0.number().value() + r.1.number().value() == a.number().value()
            + b.number().value(),
{
    let s = a.plus(b);
    let av = s.minus(b);
    let bv = s.minus(av);
    let da = a.minus(av);
    let db = b.minus(bv);
    let t = da.plus(db);
    proof {
        T::lemma_format();
        a.lemma_wf();
        b.lemma_wf();
        if two_sum_in_range(T::format(), a.number(), b.number()) {
            law_two_sum_exact(T::format(), a.number(), b.number());
        }
    }
    (s, t)
}

/// The rounded difference of `a` and `b` and the error of the rounding, for
/// operands in any order, in six operations.
pub fn two_sub<T: Float>(a: T, b: T) -> (r: (T, T))
    ensures
        (r.0.number(), r.1.number()) == two_sub_model(T::format(), a.number(), b.number()),
        r.0.canonical(),
        r.1.canonical(),
        r.0.number() == a.number().minus(T::format(), b.number()),
        two_sub_in_range(T::format(), a.number(), b.number()) ==> r.1.number() is Finite
            && r.0.number().value() + r.1.number().value() == a.number().value()
            - b.number().value(),
{
    let s = a.minus(b);
    let av = s.plus(b);
    let bv = av.minus(s);
    let da = a.minus(av);
    let db = b.minus(bv);
    let t = da.minus(db);
    proof {
        T::lemma_format();
        a.lemma_wf();
        b.lemma_wf();
        if two_sub_in_range(T::format(), a.number(), b.number()) {
            law_two_sub_exact(T::format(), a.number(), b.number());
        }
    }
    (s, t)
}

/// The rounded sum of `a` and `b` and the error of the rounding, in three
/// operations. The error is exact where `a` is zero or its exponent is not
/// below that of `b`; elsewhere the same steps are taken and the second
/// result is less accurate.
pub fn fast_two_sum<T: Float>(a: T, b: T) -> (r: (T, T))
    ensures
        (r.0.number(), r.1.number()) == fast_two_sum_model(T::format(), a.number(), b.number()),
        r.0.canonical(),
        r.1.canonical(),
        r.0.number() == a.number().plus(T::format(), b.number()),
        fast_two_sum_applies(T::format(), a.number(), b.number()) && r.0.number() is Finite
            ==> r.1.number() is Finite && r.0.number().value() + r.1.number().value()
            == a.number().value() + b.number().value(),
{
    let s = a.plus(b);
    let bv = s.minus(a);
    let t = b.minus(bv);
    proof {
        T::lemma_format();
        a.lemma_wf();
        b.lemma_wf();
        if fast_two_sum_applies(T::format(), a.number(), b.number()) && s.number() is Finite {
            law_fast_two_sum_exact(T::format(), a.number(), b.number());
        }
    }
    (s, t)
}

} // verus!
