//! Rounding of integers to a given number of significant bits, to nearest
//! with ties to even.
//!
//! Every finite value of a binary format is an integer multiple of its
//! smallest subnormal. Counted in that unit a finite value is an integer
//! with at most `p` significant bits, where `p` is the precision of the
//! format, and sums and differences of such integers are again integers.
//! Gradual underflow then needs no special case: what is small enough is
//! represented exactly.

use vstd::arithmetic::div_mod::*;
use vstd::arithmetic::power2::*;
use vstd::prelude::*;

verus! {

/// Absolute value of an integer.
pub open spec fn magnitude(x: int) -> nat {
    if x < 0 {
        (-x) as nat
    } else {
        x as nat
    }
}

/// Exponent of the unit in the last place of `m` at precision `p`: zero
/// below 2^p, and one more with each further doubling.
pub open spec fn ulp_exp(p: nat, m: nat) -> nat
    decreases m,
{
    if m < pow2(p) || m == 0 {
        0
    } else {
        1 + ulp_exp(p, m / 2)
    }
}

/// Unit in the last place of `m`: the spacing of the representable
/// magnitudes around it.
pub open spec fn ulp(p: nat, m: nat) -> nat {
    pow2(ulp_exp(p, m))
}

/// Whether `m` has at most `p` significant bits.
pub open spec fn representable(p: nat, m: nat) -> bool {
    m % ulp(p, m) == 0
}

/// The representable magnitude nearest to `m`; of two equally near ones, the
/// one whose significand is even.
pub open spec fn round_nearest_even(p: nat, m: nat) -> nat {
    let u = ulp(p, m);
    let q = m / u;
    let r = m % u;
    if 2 * r < u || (2 * r == u && q % 2 == 0) {
        q * u
    } else {
        (q + 1) * u
    }
}

/// Whether the integer `x` has at most `p` significant bits.
pub open spec fn in_format(p: nat, x: int) -> bool {
    representable(p, magnitude(x))
}

/// Rounding of a signed integer: the magnitude is rounded, the sign kept.
pub open spec fn round(p: nat, x: int) -> int {
    if x < 0 {
        -(round_nearest_even(p, magnitude(x)) as int)
    } else {
        round_nearest_even(p, magnitude(x)) as int
    }
}

/// Whether `x` is a multiple of 2^k.
pub open spec fn multiple_of_pow2(x: int, k: nat) -> bool {
    x % (pow2(k) as int) == 0
}

proof fn lemma_mul_step(q: int, u: int)
    by (nonlinear_arith)
    ensures
        (q + 1) * u == q * u + u,
        (q - 1) * u == q * u - u,
{
}

proof fn lemma_mul_cancel_lt(a: int, b: int, u: int)
    by (nonlinear_arith)
    requires
        u > 0,
        a * u < b * u,
    ensures
        a < b,
{
}

proof fn lemma_mul_mono(a: int, b: int, u: int)
    by (nonlinear_arith)
    requires
        u >= 0,
        a <= b,
    ensures
        a * u <= b * u,
{
}

proof fn lemma_mul_assoc(a: int, b: int, c: int)
    by (nonlinear_arith)
    ensures
        (a * b) * c == a * (b * c),
        a * b == b * a,
{
}

proof fn lemma_mul_distributes(a: int, b: int, u: int)
    by (nonlinear_arith)
    ensures
        (a + b) * u == a * u + b * u,
        (a - b) * u == a * u - b * u,
        (-a) * u == -(a * u),
{
}

/// Products by a factor that is not negative keep the order, and `u` times
/// `a` is `a` times `u`.
pub proof fn lemma_mul_bounds(lo: int, a: int, hi: int, u: int)
    by (nonlinear_arith)
    requires
        u >= 0,
        lo <= a <= hi,
    ensures
        lo * u <= a * u <= hi * u,
        u * a == a * u,
        (a + 1) * u == a * u + u,
{
}

/// Products by a positive factor keep the strict order.
pub proof fn lemma_mul_strict(a: int, b: int, u: int)
    by (nonlinear_arith)
    requires
        u > 0,
        a < b,
    ensures
        a * u < b * u,
{
}

/// Powers of two grow with the exponent.
pub proof fn lemma_pow2_monotonic(a: nat, b: nat)
    requires
        a <= b,
    ensures
        pow2(a) <= pow2(b),
        pow2(a) > 0,
{
    lemma_pow2_pos(a);
    if a < b {
        lemma_pow2_strictly_increases(a, b);
    }
}

/// The two bounds of the binade over an exponent `k`, as multiples of 2^k:
/// 2^(k+p-1) and its double, 2^(k+p).
pub proof fn lemma_pow2_binade(p: nat, k: nat)
    requires
        p >= 1,
    ensures
        pow2(k) > 0,
        pow2((p - 1) as nat) >= 1,
        pow2(p) == 2 * pow2((p - 1) as nat),
        pow2(k + p) == pow2(p) * pow2(k),
        pow2((k + p - 1) as nat) == pow2((p - 1) as nat) * pow2(k),
        pow2(k + p) == 2 * pow2((k + p - 1) as nat),
        pow2(k + 1) == 2 * pow2(k),
        pow2(k) <= pow2((k + p - 1) as nat),
{
    lemma_pow2_pos(k);
    lemma_pow2_pos((p - 1) as nat);
    lemma_pow2_adds(p, k);
    lemma_pow2_adds((p - 1) as nat, k);
    lemma_pow2_unfold(p);
    lemma_pow2_unfold(k + p);
    lemma_pow2_unfold(k + 1);
    lemma_pow2_monotonic(k, (k + p - 1) as nat);
}

/// A number is a multiple of 2^k exactly when it is some integer times 2^k.
pub proof fn lemma_multiple_intro(q: int, k: nat)
    ensures
        multiple_of_pow2(q * pow2(k), k),
{
    lemma_pow2_pos(k);
    lemma_mod_multiples_basic(q, pow2(k) as int);
}

/// A multiple of 2^k is its quotient by 2^k, times 2^k.
pub proof fn lemma_multiple_elim(x: int, k: nat)
    requires
        multiple_of_pow2(x, k),
    ensures
        x == (x / (pow2(k) as int)) * pow2(k),
{
    lemma_pow2_pos(k);
    lemma_fundamental_div_mod(x, pow2(k) as int);
    lemma_mul_assoc(x / (pow2(k) as int), pow2(k) as int, 1);
}

/// Multiples of 2^k are closed under sum, difference and negation.
pub proof fn lemma_multiple_closed(x: int, y: int, k: nat)
    requires
        multiple_of_pow2(x, k),
        multiple_of_pow2(y, k),
    ensures
        multiple_of_pow2(x + y, k),
        multiple_of_pow2(x - y, k),
        multiple_of_pow2(-x, k),
{
    let p = pow2(k) as int;
    lemma_multiple_elim(x, k);
    lemma_multiple_elim(y, k);
    lemma_mul_distributes(x / p, y / p, p);
    lemma_mul_distributes(x / p, 0, p);
    lemma_multiple_intro(x / p + y / p, k);
    lemma_multiple_intro(x / p - y / p, k);
    lemma_multiple_intro(-(x / p), k);
}

/// A multiple of 2^k is a multiple of every smaller power of two.
pub proof fn lemma_multiple_weaken(x: int, k: nat, j: nat)
    requires
        multiple_of_pow2(x, k),
        j <= k,
    ensures
        multiple_of_pow2(x, j),
{
    let d = (k - j) as nat;
    lemma_multiple_elim(x, k);
    lemma_pow2_adds(d, j);
    let q = x / (pow2(k) as int);
    lemma_mul_assoc(q, pow2(d) as int, pow2(j) as int);
    lemma_multiple_intro(q * pow2(d), j);
}

/// The magnitude of a multiple of 2^k is one too.
pub proof fn lemma_multiple_magnitude(x: int, k: nat)
    requires
        multiple_of_pow2(x, k),
    ensures
        multiple_of_pow2(magnitude(x) as int, k),
{
    lemma_multiple_closed(x, x, k);
}

/// The binade of `m`: it lies below 2^(e+p), and from 2^(e+p-1) on unless
/// `e` is zero, where `e` is its ulp exponent.
pub proof fn lemma_ulp_exp_range(p: nat, m: nat)
    requires
        p >= 1,
    ensures
        m < pow2(ulp_exp(p, m) + p),
        ulp_exp(p, m) > 0 ==> pow2((ulp_exp(p, m) + p - 1) as nat) <= m,
        ulp_exp(p, m) == 0 <==> m < pow2(p),
    decreases m,
{
    lemma_pow2_pos(p);
    if m < pow2(p) {
    } else {
        let h = m / 2;
        let k = ulp_exp(p, h);
        lemma_ulp_exp_range(p, h);
        lemma_pow2_binade(p, k);
        lemma_pow2_binade(p, k + 1);
    }
}

/// The binade fixes the ulp exponent.
pub proof fn lemma_ulp_exp_unique(p: nat, m: nat, k: nat)
    requires
        p >= 1,
        m < pow2(k + p),
        k > 0 ==> pow2((k + p - 1) as nat) <= m,
    ensures
        ulp_exp(p, m) == k,
{
    let j = ulp_exp(p, m);
    lemma_ulp_exp_range(p, m);
    if j < k {
        lemma_pow2_monotonic(j + p, (k + p - 1) as nat);
    } else if j > k {
        lemma_pow2_monotonic(k + p, (j + p - 1) as nat);
    }
}

/// A magnitude below 2^(k+p) has an ulp exponent of at most `k`.
pub proof fn lemma_ulp_exp_upper(p: nat, m: nat, k: nat)
    requires
        p >= 1,
        m < pow2(k + p),
    ensures
        ulp_exp(p, m) <= k,
{
    let j = ulp_exp(p, m);
    lemma_ulp_exp_range(p, m);
    if j > k {
        lemma_pow2_monotonic(k + p, (j + p - 1) as nat);
    }
}

/// A magnitude from 2^(k+p-1) on has an ulp exponent of at least `k`.
pub proof fn lemma_ulp_exp_lower(p: nat, m: nat, k: nat)
    requires
        p >= 1,
        pow2((k + p - 1) as nat) <= m,
    ensures
        ulp_exp(p, m) >= k,
{
    let j = ulp_exp(p, m);
    lemma_ulp_exp_range(p, m);
    if j < k {
        lemma_pow2_monotonic(j + p, (k + p - 1) as nat);
    }
}

/// The ulp exponent grows with the magnitude.
pub proof fn lemma_ulp_exp_monotonic(p: nat, a: nat, b: nat)
    requires
        p >= 1,
        a <= b,
    ensures
        ulp_exp(p, a) <= ulp_exp(p, b),
{
    lemma_ulp_exp_range(p, b);
    lemma_ulp_exp_upper(p, a, ulp_exp(p, b));
}

/// How a magnitude splits at its ulp, and the two candidates of its rounding.
pub proof fn lemma_round_cases(p: nat, m: nat)
    requires
        p >= 1,
    ensures
        ulp(p, m) > 0,
        m == (m / ulp(p, m)) * ulp(p, m) + m % ulp(p, m),
        0 <= m % ulp(p, m) < ulp(p, m),
        m / ulp(p, m) < pow2(p),
        ulp_exp(p, m) > 0 ==> m / ulp(p, m) >= pow2((p - 1) as nat),
        (round_nearest_even(p, m) == (m / ulp(p, m)) * ulp(p, m) && 2 * (m % ulp(p, m)) <= ulp(
            p,
            m,
        )) || (round_nearest_even(p, m) == (m / ulp(p, m)) * ulp(p, m) + ulp(p, m) && 2 * (m % ulp(
            p,
            m,
        )) >= ulp(p, m)),
{
    let u = ulp(p, m) as int;
    let q = (m as int) / u;
    let r = (m as int) % u;
    lemma_pow2_binade(p, ulp_exp(p, m));
    lemma_fundamental_div_mod(m as int, u);
    lemma_mul_assoc(q, u, 1);
    lemma_mod_bound(m as int, u);
    lemma_mul_step(q, u);
    lemma_ulp_exp_range(p, m);
    assert(q < pow2(p)) by {
        lemma_mul_cancel_lt(q, pow2(p) as int, u);
    }
    if ulp_exp(p, m) > 0 {
        assert(q >= pow2((p - 1) as nat)) by {
            if q < pow2((p - 1) as nat) {
                lemma_mul_mono(q + 1, pow2((p - 1) as nat) as int, u);
            }
        }
    }
}

/// Zero is representable, and rounds to itself.
pub proof fn lemma_round_zero(p: nat)
    ensures
        ulp_exp(p, 0) == 0,
        representable(p, 0),
        round_nearest_even(p, 0) == 0,
        round(p, 0) == 0,
        in_format(p, 0),
{
    lemma2_to64();
}

/// A representable magnitude rounds to itself.
pub proof fn lemma_round_exact(p: nat, m: nat)
    requires
        p >= 1,
        representable(p, m),
    ensures
        round_nearest_even(p, m) == m,
{
    lemma_round_cases(p, m);
}

/// Rounding moves a magnitude by at most half an ulp, and not at all where
/// the ulp is one.
pub proof fn lemma_round_error(p: nat, m: nat)
    requires
        p >= 1,
    ensures
        2 * magnitude(m - round_nearest_even(p, m)) <= ulp(p, m),
        ulp_exp(p, m) == 0 ==> round_nearest_even(p, m) == m,
{
    lemma_round_cases(p, m);
    lemma2_to64();
}

/// A multiple of 2^k of at most 2^(k+p) is representable.
pub proof fn lemma_representable_multiple(p: nat, m: nat, k: nat)
    requires
        p >= 1,
        multiple_of_pow2(m as int, k),
        m <= pow2(k + p),
    ensures
        representable(p, m),
{
    if m < pow2(k + p) {
        lemma_ulp_exp_upper(p, m, k);
        lemma_multiple_weaken(m as int, k, ulp_exp(p, m));
    } else {
        lemma_pow2_binade(p, k + 1);
        lemma_ulp_exp_unique(p, m, k + 1);
        lemma_multiple_intro(pow2((p - 1) as nat) as int, k + 1);
    }
}

/// The rounding of a magnitude is representable, a multiple of the ulp of
/// what was rounded, and at most 2^p such ulps.
pub proof fn lemma_round_representable(p: nat, m: nat)
    requires
        p >= 1,
    ensures
        representable(p, round_nearest_even(p, m)),
        multiple_of_pow2(round_nearest_even(p, m) as int, ulp_exp(p, m)),
        round_nearest_even(p, m) <= pow2(ulp_exp(p, m) + p),
        ulp_exp(p, m) > 0 ==> round_nearest_even(p, m) >= pow2((ulp_exp(p, m) + p - 1) as nat),
{
    let j = ulp_exp(p, m);
    let u = ulp(p, m) as int;
    let q = (m as int) / u;
    lemma_round_cases(p, m);
    lemma_pow2_binade(p, j);
    lemma_mul_step(q, u);
    lemma_multiple_intro(q, j);
    lemma_multiple_intro(q + 1, j);
    lemma_mul_mono(q + 1, pow2(p) as int, u);
    if j > 0 {
        lemma_mul_mono(pow2((p - 1) as nat) as int, q, u);
    }
    lemma_representable_multiple(p, round_nearest_even(p, m), j);
}

/// Rounding keeps divisibility by a power of two.
pub proof fn lemma_round_multiple(p: nat, m: nat, k: nat)
    requires
        p >= 1,
        multiple_of_pow2(m as int, k),
    ensures
        multiple_of_pow2(round_nearest_even(p, m) as int, k),
{
    let j = ulp_exp(p, m);
    if k <= j {
        lemma_round_representable(p, m);
        lemma_multiple_weaken(round_nearest_even(p, m) as int, j, k);
    } else {
        lemma_multiple_weaken(m as int, k, j);
        lemma_round_exact(p, m);
    }
}

/// No representable magnitude is nearer to `m` than its rounding.
pub proof fn lemma_round_nearest(p: nat, m: nat, f: nat)
    requires
        p >= 1,
        representable(p, f),
    ensures
        magnitude(m - round_nearest_even(p, m)) <= magnitude(m - f),
{
    let j = ulp_exp(p, m);
    let u = ulp(p, m) as int;
    let q = (m as int) / u;
    let r = (m as int) % u;
    lemma_round_cases(p, m);
    lemma_mul_step(q, u);
    if q * u < f && f < q * u + u {
        let i = ulp_exp(p, f);
        if i >= j {
            lemma_multiple_weaken(f as int, i, j);
            lemma_multiple_elim(f as int, j);
            let c = (f as int) / u;
            lemma_mul_cancel_lt(q, c, u);
            lemma_mul_cancel_lt(c, q + 1, u);
        } else {
            lemma_ulp_exp_range(p, f);
            lemma_pow2_monotonic(i + p, (j + p - 1) as nat);
            lemma_pow2_binade(p, j);
            lemma_mul_mono(pow2((p - 1) as nat) as int, q, u);
        }
    }
}

/// Rounding commutes with negation.
pub proof fn lemma_round_negate(p: nat, x: int)
    ensures
        round(p, -x) == -round(p, x),
{
    lemma_round_zero(p);
}

/// An integer in the format rounds to itself.
pub proof fn lemma_round_in_format(p: nat, x: int)
    requires
        p >= 1,
        in_format(p, x),
    ensures
        round(p, x) == x,
{
    lemma_round_exact(p, magnitude(x));
}

/// The signed form of the facts on rounding: the result is in the format,
/// no value of the format is nearer, the error is at most half an ulp, and
/// divisibility by the ulp holds.
pub proof fn lemma_round_signed(p: nat, x: int)
    requires
        p >= 1,
    ensures
        in_format(p, round(p, x)),
        magnitude(round(p, x)) == round_nearest_even(p, magnitude(x)),
        x >= 0 ==> round(p, x) >= 0,
        x <= 0 ==> round(p, x) <= 0,
        2 * magnitude(x - round(p, x)) <= ulp(p, magnitude(x)),
        magnitude(x - round(p, x)) == magnitude(
            magnitude(x) - round_nearest_even(p, magnitude(x)),
        ),
        multiple_of_pow2(round(p, x), ulp_exp(p, magnitude(x))),
{
    let m = magnitude(x);
    lemma_round_representable(p, m);
    lemma_round_error(p, m);
    lemma_round_zero(p);
    if x < 0 {
        lemma_multiple_closed(round_nearest_even(p, m) as int, 0, ulp_exp(p, m));
    }
}

/// No integer of the format is nearer to `x` than its rounding.
pub proof fn lemma_round_signed_nearest(p: nat, x: int, f: int)
    requires
        p >= 1,
        in_format(p, f),
    ensures
        magnitude(x - round(p, x)) <= magnitude(x - f),
{
    let m = magnitude(x);
    lemma_round_signed(p, x);
    if (x >= 0 && f >= 0) || (x <= 0 && f <= 0) {
        lemma_round_nearest(p, m, magnitude(f));
    } else {
        lemma_round_zero(p);
        lemma_round_nearest(p, m, 0);
    }
}

/// Rounding keeps divisibility by a power of two, signed form.
pub proof fn lemma_round_signed_multiple(p: nat, x: int, k: nat)
    requires
        p >= 1,
        multiple_of_pow2(x, k),
    ensures
        multiple_of_pow2(round(p, x), k),
{
    lemma_pow2_pos(k);
    lemma_multiple_magnitude(x, k);
    lemma_round_multiple(p, magnitude(x), k);
    lemma_multiple_closed(round_nearest_even(p, magnitude(x)) as int, 0, k);
}

/// A multiple of 2^k of magnitude at most 2^(k+p) is in the format.
pub proof fn lemma_in_format_multiple(p: nat, x: int, k: nat)
    requires
        p >= 1,
        multiple_of_pow2(x, k),
        magnitude(x) <= pow2(k + p),
    ensures
        in_format(p, x),
{
    lemma_multiple_magnitude(x, k);
    lemma_representable_multiple(p, magnitude(x), k);
}

/// A magnitude split as a significand times a power of two plus a rest below
/// that power: the power is the ulp where the significand has its leading
/// bit set, and the rest decides which neighbour the rounding is.
pub proof fn lemma_round_from_split(p: nat, x: nat, k: nat, q: nat, r: nat)
    requires
        p >= 1,
        x == q * pow2(k) + r,
        r < pow2(k),
        pow2((p - 1) as nat) <= q < pow2(p),
    ensures
        ulp_exp(p, x) == k,
        x / pow2(k) == q,
        x % pow2(k) == r,
        round_nearest_even(p, x) == if 2 * r < pow2(k) || (2 * r == pow2(k) && q % 2 == 0) {
            q * pow2(k)
        } else {
            (q + 1) * pow2(k)
        },
{
    let u = pow2(k) as int;
    lemma_pow2_binade(p, k);
    lemma_mul_mono(pow2((p - 1) as nat) as int, q as int, u);
    lemma_mul_mono((q + 1) as int, pow2(p) as int, u);
    lemma_mul_step(q as int, u);
    lemma_ulp_exp_unique(p, x, k);
    lemma_fundamental_div_mod_converse(x as int, u, q as int, r as int);
}

/// A significand with its leading bit set, times a power of two: the power
/// is the ulp, the significand the quotient by it.
pub proof fn lemma_normal_units(p: nat, q: nat, e: nat)
    requires
        p >= 1,
        pow2((p - 1) as nat) <= q < pow2(p),
    ensures
        ulp_exp(p, q * pow2(e)) == e,
        (q * pow2(e)) / pow2(e) == q,
        representable(p, q * pow2(e)),
        q * pow2(e) >= pow2((p - 1) as nat),
        q * pow2(e) >= pow2((e + p - 1) as nat),
        q * pow2(e) < pow2(e + p),
{
    let u = pow2(e) as int;
    lemma_pow2_binade(p, e);
    lemma_round_from_split(p, q * pow2(e), e, q, 0);
    lemma_mul_mono(pow2((p - 1) as nat) as int, q as int, u);
    lemma_mul_mono(1, u, pow2((p - 1) as nat) as int);
    lemma_mul_assoc(pow2((p - 1) as nat) as int, u, 1);
    lemma_ulp_exp_range(p, q * pow2(e));
}

/// A value too small to reach half an ulp of a normal one is absorbed: the
/// sum and the difference both round to the larger operand.
pub proof fn lemma_round_absorbs(p: nat, m: nat, k: nat, b: nat)
    requires
        p >= 1,
        pow2((p - 1) as nat) <= m < pow2(p),
        k >= 1,
        8 * b < pow2(k),
    ensures
        b < m * pow2(k),
        round_nearest_even(p, m * pow2(k) + b) == m * pow2(k),
        round_nearest_even(p, (m * pow2(k) - b) as nat) == m * pow2(k),
{
    let u = pow2(k) as int;
    let a = m * pow2(k);
    let half = pow2((p - 1) as nat) as int;
    lemma_pow2_binade(p, k);
    lemma_mul_mono(1, m as int, u);
    lemma_mul_assoc(1, u, 1);
    lemma_round_from_split(p, a + b, k, m, b);
    if b == 0 {
    } else if m > half {
        lemma_mul_step(m as int, u);
        lemma_round_from_split(p, (a - b) as nat, k, (m - 1) as nat, (u - b) as nat);
    } else {
        let j = (k - 1) as nat;
        let h = pow2(j) as int;
        lemma_pow2_binade(p, j);
        assert(u == 2 * h);
        assert(a == pow2(p) * h) by (nonlinear_arith)
            requires
                a == half * u,
                u == 2 * h,
                pow2(p) == 2 * half,
        ;
        lemma_mul_step(pow2(p) as int, h);
        lemma_round_from_split(p, (a - b) as nat, j, (pow2(p) - 1) as nat, (h - b) as nat);
    }
}

/// The quotient of `n` by a positive `d` lies where `n` lies between two
/// multiples of `d`.
pub proof fn lemma_quotient_bounds(n: int, d: int, lo: int, hi: int)
    requires
        d > 0,
        lo * d <= n < hi * d,
    ensures
        lo <= n / d < hi,
        n == (n / d) * d + n % d,
        0 <= n % d < d,
{
    lemma_fundamental_div_mod(n, d);
    lemma_mod_bound(n, d);
    lemma_mul_assoc(n / d, d, 1);
    if n / d < lo {
        lemma_mul_mono(n / d + 1, lo, d);
        lemma_mul_step(n / d, d);
    }
    if n / d >= hi {
        lemma_mul_mono(hi, n / d, d);
    }
}

/// The rounding of `n` times 2^e, where `n` is a significand `q` of `p`
/// bits times 2^sh plus a rest: the rest against half of 2^sh decides
/// between `q` and its successor.
pub proof fn lemma_round_scaled(p: nat, n: nat, e: nat, sh: nat, q: nat, rem: nat)
    requires
        p >= 1,
        sh >= 1,
        n == q * pow2(sh) + rem,
        rem < pow2(sh),
        pow2((p - 1) as nat) <= q < pow2(p),
    ensures
        round_nearest_even(p, n * pow2(e)) == (if rem < pow2((sh - 1) as nat) || (rem == pow2(
            (sh - 1) as nat,
        ) && q % 2 == 0) {
            q
        } else {
            q + 1
        }) * pow2(e + sh),
{
    let pe = pow2(e) as int;
    let ps = pow2(sh) as int;
    let h = pow2((sh - 1) as nat) as int;
    let u = pow2(e + sh) as int;
    lemma_pow2_adds(sh, e);
    lemma_pow2_unfold(sh);
    lemma_pow2_pos(e);
    assert(n * pe == q * u + rem * pe) by (nonlinear_arith)
        requires
            n == q * ps + rem,
            u == ps * pe,
    ;
    assert(0 <= rem * pe < u) by (nonlinear_arith)
        requires
            0 <= rem < ps,
            pe > 0,
            u == ps * pe,
    ;
    lemma_round_from_split(p, n * pow2(e), e + sh, q, (rem * pe) as nat);
    assert(rem < h ==> 2 * (rem * pe) < u) by (nonlinear_arith)
        requires
            pe > 0,
            u == ps * pe,
            ps == 2 * h,
    ;
    assert(rem == h ==> 2 * (rem * pe) == u) by (nonlinear_arith)
        requires
            pe > 0,
            u == ps * pe,
            ps == 2 * h,
    ;
    assert(rem > h ==> 2 * (rem * pe) > u) by (nonlinear_arith)
        requires
            pe > 0,
            u == ps * pe,
            ps == 2 * h,
    ;
}

} // verus!
