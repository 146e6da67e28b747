//! Why the transforms are error free: the rounding error of a sum of two
//! values of a format is itself a value of the format, and the steps that
//! recover it are exact. Stated over integers, for every precision, with no
//! bound on the exponent.

use crate::rounding::{
    in_format, lemma_in_format_multiple, lemma_multiple_closed, lemma_multiple_elim,
    lemma_multiple_magnitude, lemma_multiple_weaken, lemma_pow2_binade, lemma_pow2_monotonic,
    lemma_round_in_format, lemma_round_negate, lemma_round_representable, lemma_round_signed,
    lemma_round_signed_multiple, lemma_round_signed_nearest, lemma_round_zero,
    lemma_ulp_exp_lower, lemma_ulp_exp_monotonic, lemma_ulp_exp_range, lemma_ulp_exp_upper,
    magnitude, multiple_of_pow2, round, ulp_exp,
};
use vstd::arithmetic::power2::*;
use vstd::prelude::*;

verus! {

/// Ulp exponent of an integer at precision `p`: that of its magnitude.
pub open spec fn exponent_of(p: nat, x: int) -> nat {
    ulp_exp(p, magnitude(x))
}

proof fn lemma_scaled_below(c: int, l: int, u: int)
    by (nonlinear_arith)
    requires
        u > 0,
        c * u < l * u,
    ensures
        c * u <= l * u - u,
{
}

/// A value of the format is a multiple of its own ulp, and so is its negation.
pub proof fn lemma_in_format_multiple_of_ulp(p: nat, x: int)
    requires
        in_format(p, x),
    ensures
        multiple_of_pow2(x, exponent_of(p, x)),
        in_format(p, -x),
        exponent_of(p, -x) == exponent_of(p, x),
{
    let m = magnitude(x) as int;
    lemma_multiple_closed(m, m, exponent_of(p, x));
}

/// The error of a rounded sum of two values of the format is in the format,
/// and no larger than either operand.
pub proof fn lemma_sum_error_in_format(p: nat, a: int, b: int)
    requires
        p >= 1,
        in_format(p, a),
        in_format(p, b),
    ensures
        in_format(p, a + b - round(p, a + b)),
        magnitude(a + b - round(p, a + b)) <= magnitude(a),
        magnitude(a + b - round(p, a + b)) <= magnitude(b),
{
    let s = round(p, a + b);
    let err = a + b - s;
    let ka = exponent_of(p, a);
    let kb = exponent_of(p, b);
    let k = if kb <= ka {
        kb
    } else {
        ka
    };
    lemma_round_signed_nearest(p, a + b, a);
    lemma_round_signed_nearest(p, a + b, b);
    lemma_in_format_multiple_of_ulp(p, a);
    lemma_in_format_multiple_of_ulp(p, b);
    lemma_multiple_weaken(a, ka, k);
    lemma_multiple_weaken(b, kb, k);
    lemma_multiple_closed(a, b, k);
    lemma_round_signed_multiple(p, a + b, k);
    lemma_multiple_closed(a + b, s, k);
    lemma_ulp_exp_range(p, magnitude(a));
    lemma_ulp_exp_range(p, magnitude(b));
    lemma_in_format_multiple(p, err, k);
}

/// Where the exponent of `b` does not exceed that of `a`, the rounded sum
/// less `a` is in the format.
pub proof fn lemma_fast_difference_in_format(p: nat, a: int, b: int)
    requires
        p >= 1,
        in_format(p, a),
        in_format(p, b),
        exponent_of(p, b) <= exponent_of(p, a),
    ensures
        in_format(p, round(p, a + b) - a),
{
    let s = round(p, a + b);
    let ks = exponent_of(p, a + b);
    let ka = exponent_of(p, a);
    let kb = exponent_of(p, b);
    lemma_in_format_multiple_of_ulp(p, a);
    lemma_in_format_multiple_of_ulp(p, b);
    lemma_multiple_weaken(a, ka, kb);
    lemma_multiple_closed(a, b, kb);
    lemma_round_signed(p, a + b);
    lemma_ulp_exp_range(p, magnitude(a));
    lemma_ulp_exp_range(p, magnitude(b));
    if ks <= kb {
        lemma_multiple_weaken(a + b, kb, ks);
        lemma_multiple_magnitude(a + b, ks);
        lemma_round_in_format(p, a + b);
    } else if ks <= ka {
        lemma_multiple_weaken(a, ka, ks);
        lemma_multiple_closed(s, a, ks);
        lemma_pow2_monotonic(kb + p, (ks + p - 1) as nat);
        lemma_pow2_binade(p, ks);
        lemma_in_format_multiple(p, s - a, ks);
    } else {
        lemma_pow2_monotonic(kb + p, ka + p);
        lemma_pow2_binade(p, ka + 1);
        lemma_ulp_exp_upper(p, magnitude(a + b), ka + 1);
        assert(ks == ka + 1);
        lemma_multiple_weaken(s, ks, ka);
        lemma_multiple_closed(s, a, ka);
        lemma_pow2_binade(p, ka);
        if kb == ka {
            let u = pow2(ka) as int;
            let mb = magnitude(b) as int;
            lemma_multiple_magnitude(b, ka);
            lemma_multiple_elim(mb, ka);
            lemma_scaled_below(mb / u, pow2(p) as int, u);
        } else {
            lemma_pow2_monotonic(kb + p, (ka + p - 1) as nat);
        }
        lemma_in_format_multiple(p, s - a, ka);
    }
}

/// The three steps of the fast transform are exact where `a` is zero or the
/// exponent of `b` does not exceed that of `a`: what they return is the
/// rounded sum and its error.
pub proof fn lemma_fast_two_sum_exact(p: nat, a: int, b: int)
    requires
        p >= 1,
        in_format(p, a),
        in_format(p, b),
        a == 0 || exponent_of(p, b) <= exponent_of(p, a),
    ensures
        ({
            let s = round(p, a + b);
            let bv = round(p, s - a);
            let t = round(p, b - bv);
            &&& bv == s - a
            &&& t == b - bv
            &&& s + t == a + b
            &&& magnitude(t) <= magnitude(b)
            &&& (magnitude(bv) <= magnitude(s) || magnitude(bv) <= magnitude(a) || magnitude(bv)
                <= magnitude(b))
        }),
{
    let s = round(p, a + b);
    lemma_round_zero(p);
    if a == 0 {
        lemma_round_in_format(p, b);
    } else {
        lemma_fast_difference_in_format(p, a, b);
        lemma_round_in_format(p, s - a);
        lemma_sum_error_in_format(p, a, b);
        lemma_round_in_format(p, a + b - s);
        lemma_round_signed(p, a + b);
        if (a > 0 && s < 0) || (a < 0 && s > 0) {
            let kb = exponent_of(p, b);
            lemma_in_format_multiple_of_ulp(p, a);
            lemma_in_format_multiple_of_ulp(p, b);
            lemma_multiple_weaken(a, exponent_of(p, a), kb);
            lemma_multiple_closed(a, b, kb);
            lemma_ulp_exp_range(p, magnitude(b));
            lemma_in_format_multiple(p, a + b, kb);
            lemma_round_in_format(p, a + b);
        }
    }
}

/// The six steps of the general transform are exact for every two values of
/// the format, in either order: what they return is the rounded sum and its
/// error.
pub proof fn lemma_two_sum_exact(p: nat, a: int, b: int)
    requires
        p >= 1,
        in_format(p, a),
        in_format(p, b),
    ensures
        ({
            let s = round(p, a + b);
            let av = round(p, s - b);
            let bv = round(p, s - av);
            let da = round(p, a - av);
            let db = round(p, b - bv);
            let t = round(p, da + db);
            &&& bv == s - av
            &&& da == a - av
            &&& db == b - bv
            &&& t == da + db
            &&& s + t == a + b
            &&& magnitude(t) <= magnitude(b)
            &&& magnitude(db) <= magnitude(b)
            &&& (magnitude(da) <= magnitude(a) || magnitude(da) <= magnitude(av) || magnitude(da)
                <= magnitude(b))
        }),
{
    let s = round(p, a + b);
    let av = round(p, s - b);
    let err = a + b - s;
    let ka = exponent_of(p, a);
    let kb = exponent_of(p, b);
    lemma_round_zero(p);
    lemma_sum_error_in_format(p, a, b);
    lemma_round_in_format(p, err);
    lemma_round_signed(p, a + b);
    if ka <= kb {
        lemma_fast_difference_in_format(p, b, a);
        lemma_round_in_format(p, s - b);
        lemma_round_in_format(p, b);
    } else {
        lemma_in_format_multiple_of_ulp(p, a);
        lemma_in_format_multiple_of_ulp(p, b);
        lemma_in_format_multiple_of_ulp(p, err);
        lemma_ulp_exp_range(p, magnitude(a));
        lemma_ulp_exp_range(p, magnitude(b));
        lemma_pow2_monotonic(kb + p, (ka + p - 1) as nat);
        // the second rounding, of `a` less the error, errs by a value of the format
        lemma_sum_error_in_format(p, a, -err);
        let err2 = a - err - av;
        lemma_round_signed_nearest(p, a - err, a);
        assert(magnitude(err2) <= magnitude(err));
        // `b` less the virtual `b` is that second error, negated
        lemma_in_format_multiple_of_ulp(p, err2);
        // the virtual `b` is exact
        if exponent_of(p, s) >= kb {
            lemma_fast_difference_in_format(p, s, -b);
            lemma_in_format_multiple_of_ulp(p, av - s);
        } else {
            lemma_ulp_exp_range(p, magnitude(s));
            lemma_round_representable(p, magnitude(a + b));
            lemma_ulp_exp_range(p, magnitude(a + b));
            lemma_multiple_weaken(a, ka, kb);
            lemma_multiple_closed(a, b, kb);
            if magnitude(a + b) >= pow2(kb + p) {
                lemma_ulp_exp_lower(p, magnitude(a + b), kb + 1);
                lemma_pow2_monotonic(kb + p, (exponent_of(p, a + b) + p - 1) as nat);
                lemma_ulp_exp_lower(p, magnitude(s), kb + 1);
            }
            lemma_in_format_multiple(p, a + b, kb);
            lemma_round_in_format(p, a + b);
            lemma_round_in_format(p, a);
        }
        lemma_round_in_format(p, s - av);
        // `a` less the virtual `a` is exact
        lemma_ulp_exp_monotonic(p, magnitude(err), magnitude(b));
        lemma_fast_difference_in_format(p, a, -err);
        lemma_in_format_multiple_of_ulp(p, av - a);
        lemma_round_in_format(p, a - av);
        lemma_round_in_format(p, -err2);
        lemma_round_signed(p, a - err);
    }
}

/// The subtracting transform does what the general one does on `a` and the
/// negation of `b`, step by step.
pub proof fn lemma_two_sub_steps(p: nat, a: int, b: int)
    ensures
        ({
            let s = round(p, a - b);
            let av = round(p, s + b);
            let bv = round(p, av - s);
            let da = round(p, a - av);
            let db = round(p, b - bv);
            let t = round(p, da - db);
            let s2 = round(p, a + (-b));
            let av2 = round(p, s2 - (-b));
            let bv2 = round(p, s2 - av2);
            let da2 = round(p, a - av2);
            let db2 = round(p, (-b) - bv2);
            let t2 = round(p, da2 + db2);
            &&& s2 == s
            &&& av2 == av
            &&& bv2 == -bv
            &&& da2 == da
            &&& db2 == -db
            &&& t2 == t
        }),
{
    let s = round(p, a - b);
    let av = round(p, s + b);
    let bv = round(p, av - s);
    lemma_round_negate(p, av - s);
    lemma_round_negate(p, b - bv);
}

} // verus!
