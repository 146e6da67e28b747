//! Addition in software, for every format of up to 53 significant bits:
//! the exact sum of two finite values as an integer, and its rounding to
//! the precision of the format.

use crate::rounding::{
    lemma_mul_bounds, lemma_mul_strict, lemma_multiple_intro, lemma_pow2_binade,
    lemma_pow2_monotonic, lemma_quotient_bounds, lemma_representable_multiple,
    lemma_round_absorbs, lemma_round_exact, lemma_round_scaled, lemma_round_zero, magnitude,
    round_nearest_even,
};
use vstd::arithmetic::power2::*;
use vstd::bits::{lemma_u128_shr_is_div, lemma_u64_shl_is_mul};
use vstd::prelude::*;
use vstd::std_specs::bits::u64_leading_zeros;

verus! {

/// A magnitude with its sign.
pub open spec fn signed(negative: bool, units: nat) -> int {
    if negative {
        -(units as int)
    } else {
        units as int
    }
}

proof fn lemma_mul_assoc3(a: int, b: int, c: int)
    by (nonlinear_arith)
    ensures
        (a * b) * c == a * (b * c),
{
}

proof fn lemma_mul_sum(x: int, y: int, u: int)
    by (nonlinear_arith)
    ensures
        (x + y) * u == x * u + y * u,
        (x - y) * u == x * u - y * u,
        (y - x) * u == y * u - x * u,
        0 * u == 0,
{
}

proof fn lemma_pow2_110()
    ensures
        pow2(110) == 0x4000_0000_0000_0000_0000_0000_0000,
{
    lemma2_to64();
    lemma2_to64_rest();
    lemma_pow2_adds(64, 46);
}

/// The leading zeros of a word bound it between two powers of two.
proof fn lemma_leading_zeros_bounds(i: u64)
    requires
        i > 0,
    ensures
        0 <= u64_leading_zeros(i) < 64,
        pow2((63 - u64_leading_zeros(i)) as nat) <= i < pow2((64 - u64_leading_zeros(i)) as nat),
    decreases i,
{
    reveal(u64_leading_zeros);
    lemma2_to64();
    if i == 1 {
        assert(u64_leading_zeros(0) == 64);
        assert(u64_leading_zeros(1) == u64_leading_zeros(0) - 1);
    } else {
        let h = (i / 2) as u64;
        let z = u64_leading_zeros(h);
        lemma_leading_zeros_bounds(h);
        assert(u64_leading_zeros(i) == z - 1);
        lemma_pow2_unfold((64 - z) as nat);
        lemma_pow2_unfold((65 - z) as nat);
    }
}

/// The number of bits of `n`: zero for zero, else the `l` with
/// 2^(l-1) <= n < 2^l.
pub(crate) fn bit_length(n: u128) -> (l: u32)
    ensures
        l <= 128,
        n == 0 <==> l == 0,
        n > 0 ==> pow2((l - 1) as nat) <= n < pow2(l as nat),
{
    let hi = (n / 0x1_0000_0000_0000_0000) as u64;
    let lo = (n % 0x1_0000_0000_0000_0000) as u64;
    if hi != 0 {
        let z = hi.leading_zeros();
        proof {
            lemma_leading_zeros_bounds(hi);
            lemma2_to64();
            lemma_pow2_adds((63 - z) as nat, 64);
            lemma_pow2_adds((64 - z) as nat, 64);
            lemma_mul_bounds(
                pow2((63 - z) as nat) as int,
                hi as int,
                pow2((64 - z) as nat) - 1,
                0x1_0000_0000_0000_0000,
            );
        }
        128 - z
    } else if lo != 0 {
        let z = lo.leading_zeros();
        proof {
            lemma_leading_zeros_bounds(lo);
        }
        64 - z
    } else {
        0
    }
}

/// 2^k.
pub(crate) fn power_of_two(k: u32) -> (r: u128)
    requires
        k <= 126,
    ensures
        r == pow2(k as nat),
        r > 0,
{
    proof {
        lemma2_to64();
        lemma2_to64_rest();
        lemma_pow2_pos(k as nat);
    }
    if k < 64 {
        let s = k as u64;
        proof {
            lemma_pow2_monotonic(k as nat, 63);
            lemma_u64_shl_is_mul(1, s);
        }
        (1u64 << s) as u128
    } else {
        let s = (k - 64) as u64;
        proof {
            lemma_pow2_monotonic(s as nat, 62);
            lemma_u64_shl_is_mul(1, s);
            lemma_pow2_adds(s as nat, 64);
        }
        ((1u64 << s) as u128) * 0x1_0000_0000_0000_0000
    }
}

/// Significand and exponent of `n` times two to the `e`, where `n` has at
/// most `p` bits: the significand gets its leading bit wherever the
/// exponent allows.
fn normalize(p: u32, n: u64, e: u32) -> (r: (u64, u32))
    requires
        1 <= p <= 53,
        0 < n < pow2(p as nat),
        e <= 2045,
    ensures
        r.0 as nat * pow2(r.1 as nat) == round_nearest_even(
            p as nat,
            n as nat * pow2(e as nat),
        ),
        0 < r.0 < pow2(p as nat),
        r.0 < pow2((p - 1) as nat) ==> r.1 == 0,
        r.1 <= e,
{
    let ghost x = n as nat * pow2(e as nat);
    let mut q = n;
    let mut k = e;
    let low = power_of_two(p - 1);
    proof {
        lemma2_to64();
        lemma2_to64_rest();
        lemma_pow2_monotonic(p as nat, 53);
        lemma_pow2_binade(p as nat, e as nat);
    }
    if (q as u128) < low && k > 0 {
        let l = bit_length(n as u128);
        proof {
            if l >= p {
                lemma_pow2_monotonic((p - 1) as nat, (l - 1) as nat);
            }
        }
        let s = if p - l < k {
            p - l
        } else {
            k
        };
        let b = power_of_two(s);
        proof {
            lemma_pow2_adds((l - 1) as nat, s as nat);
            lemma_pow2_adds(l as nat, s as nat);
            lemma_pow2_adds(s as nat, (e - s) as nat);
            lemma_pow2_monotonic((l + s) as nat, p as nat);
            lemma_pow2_monotonic(s as nat, 52);
            lemma_mul_bounds(pow2((l - 1) as nat) as int, n as int, n as int, b as int);
            lemma_mul_strict(n as int, pow2(l as nat) as int, b as int);
            lemma_mul_assoc3(n as int, b as int, pow2((e - s) as nat) as int);
        }
        q = q * (b as u64);
        k = k - s;
    }
    proof {
        assert(x == q as nat * pow2(k as nat));
        lemma_pow2_binade(p as nat, k as nat);
        lemma_multiple_intro(q as int, k as nat);
        lemma_mul_strict(q as int, pow2(p as nat) as int, pow2(k as nat) as int);
        lemma_representable_multiple(p as nat, x, k as nat);
        lemma_round_exact(p as nat, x);
    }
    (q, k)
}

/// Significand and exponent of the value of precision `p` nearest to `n`
/// times two to the `e`. The significand has its leading bit set wherever
/// the exponent is not zero.
pub(crate) fn round_to(p: u32, n: u128, e: u32) -> (r: (u64, u32))
    requires
        1 <= p <= 53,
        0 < n < 0x4000_0000_0000_0000_0000_0000_0000,
        e <= 2045,
    ensures
        r.0 as nat * pow2(r.1 as nat) == round_nearest_even(
            p as nat,
            n as nat * pow2(e as nat),
        ),
        0 < r.0 < pow2(p as nat),
        r.0 < pow2((p - 1) as nat) ==> r.1 == 0,
{
    let ghost x = n as nat * pow2(e as nat);
    let limit = power_of_two(p);
    proof {
        lemma2_to64();
        lemma2_to64_rest();
        lemma_pow2_monotonic(p as nat, 53);
        lemma_pow2_binade(p as nat, 0);
    }
    if n < limit {
        normalize(p, n as u64, e)
    } else {
        let l = bit_length(n);
        proof {
            lemma_pow2_110();
            if l >= 111 {
                lemma_pow2_monotonic(110, (l - 1) as nat);
            }
            if l <= p {
                lemma_pow2_monotonic(l as nat, p as nat);
            }
        }
        let sh = l - p;
        let b = power_of_two(sh);
        proof {
            lemma_pow2_adds((p - 1) as nat, sh as nat);
            lemma_pow2_adds(p as nat, sh as nat);
            lemma_pow2_unfold(sh as nat);
            lemma_u128_shr_is_div(n, sh as u128);
            lemma_quotient_bounds(
                n as int,
                b as int,
                pow2((p - 1) as nat) as int,
                pow2(p as nat) as int,
            );
            lemma_mul_bounds(
                (n as int) / (b as int),
                (n as int) / (b as int),
                (n as int) / (b as int),
                b as int,
            );
        }
        let q = (n >> (sh as u128)) as u64;
        let rem = n - (q as u128) * b;
        let half = b / 2;
        let up = rem > half || (rem == half && q % 2 == 1);
        let mut q2 = if up {
            q + 1
        } else {
            q
        };
        let mut k = e + sh;
        proof {
            lemma_round_scaled(p as nat, n as nat, e as nat, sh as nat, q as nat, rem as nat);
            assert(round_nearest_even(p as nat, x) == q2 as nat * pow2(k as nat));
        }
        if q2 as u128 == limit {
            proof {
                let u = pow2(k as nat) as int;
                let u2 = pow2((k + 1) as nat) as int;
                let big = pow2(p as nat) as int;
                let small = pow2((p - 1) as nat) as int;
                lemma_pow2_unfold((k + 1) as nat);
                assert(big * u == small * u2) by (nonlinear_arith)
                    requires
                        big == 2 * small,
                        u2 == 2 * u,
                ;
            }
            q2 = (limit / 2) as u64;
            k = k + 1;
        }
        (q2, k)
    }
}

/// The sum of two finite values given by sign, significand and exponent,
/// the first with the exponent that is not the smaller: the sign of the
/// sum, and significand and exponent of its rounding to precision `p`.
fn add_ordered(p: u32, nh: bool, mh: u64, eh: u32, nl: bool, ml: u64, el: u32) -> (r: (
    bool,
    u64,
    u32,
))
    requires
        1 <= p <= 53,
        mh < pow2(p as nat),
        ml < pow2(p as nat),
        el <= eh <= 2045,
        mh < pow2((p - 1) as nat) ==> eh == 0,
    ensures
        ({
            let x = signed(nh, mh as nat * pow2(eh as nat)) + signed(
                nl,
                ml as nat * pow2(el as nat),
            );
            &&& r.1 as nat * pow2(r.2 as nat) == round_nearest_even(p as nat, magnitude(x))
            &&& r.0 == if x == 0 {
                nh && nl
            } else {
                x < 0
            }
            &&& r.1 < pow2(p as nat)
            &&& r.1 < pow2((p - 1) as nat) ==> r.2 == 0
        }),
{
    let d = eh - el;
    let ghost a = mh as nat * pow2(eh as nat);
    let ghost b = ml as nat * pow2(el as nat);
    let ghost pl = pow2(el as nat) as int;
    proof {
        lemma2_to64();
        lemma2_to64_rest();
        lemma_pow2_monotonic(p as nat, 53);
        lemma_pow2_binade(p as nat, el as nat);
        lemma_pow2_binade(p as nat, eh as nat);
        lemma_mul_bounds(0, ml as int, ml as int, pl);
        lemma_mul_bounds(0, mh as int, mh as int, pow2(eh as nat) as int);
        lemma_mul_strict(ml as int, pow2(p as nat) as int, pl);
        lemma_round_zero(p as nat);
    }
    if d > p + 2 {
        proof {
            lemma_pow2_monotonic((el + p) as nat, (eh - 3) as nat);
            lemma_pow2_adds(3, (eh - 3) as nat);
            lemma_round_absorbs(p as nat, mh as nat, eh as nat, b);
        }
        return (nh, mh, eh);
    }
    let s = power_of_two(d);
    proof {
        lemma_pow2_monotonic(d as nat, 55);
        lemma_pow2_adds(d as nat, el as nat);
        lemma_mul_bounds(0, mh as int, 0x1f_ffff_ffff_ffff, s as int);
        lemma_mul_bounds(0, s as int, 0x80_0000_0000_0000, 0x1f_ffff_ffff_ffff);
        lemma_mul_assoc3(mh as int, s as int, pl);
    }
    let x = (mh as u128) * s;
    assert(x * pl == a);
    let negative: bool;
    let n: u128;
    if nh == nl {
        negative = nh;
        n = x + (ml as u128);
    } else if x >= ml as u128 {
        negative = nh;
        n = x - (ml as u128);
    } else {
        negative = nl;
        n = (ml as u128) - x;
    }
    proof {
        lemma_mul_sum(x as int, ml as int, pl);
        if x > ml {
            lemma_mul_strict(ml as int, x as int, pl);
        }
        if x < ml {
            lemma_mul_strict(x as int, ml as int, pl);
        }
        if n > 0 {
            lemma_mul_strict(0, n as int, pl);
        }
    }
    if n == 0 {
        (nh && nl, 0, 0)
    } else {
        let (q, k) = round_to(p, n, el);
        (negative, q, k)
    }
}

/// The sum of two finite values given by sign, significand and exponent:
/// the sign of the sum, and significand and exponent of its rounding to
/// precision `p`. The sign of an exact zero is negative only where both
/// operands are; the significand returned has its leading bit set wherever
/// the exponent returned is not zero.
pub(crate) fn add_finite(p: u32, na: bool, ma: u64, ea: u32, nb: bool, mb: u64, eb: u32) -> (r: (
    bool,
    u64,
    u32,
))
    requires
        1 <= p <= 53,
        ma < pow2(p as nat),
        mb < pow2(p as nat),
        ea <= 2045,
        eb <= 2045,
        ma < pow2((p - 1) as nat) ==> ea == 0,
        mb < pow2((p - 1) as nat) ==> eb == 0,
    ensures
        ({
            let x = signed(na, ma as nat * pow2(ea as nat)) + signed(
                nb,
                mb as nat * pow2(eb as nat),
            );
            &&& r.1 as nat * pow2(r.2 as nat) == round_nearest_even(p as nat, magnitude(x))
            &&& r.0 == if x == 0 {
                na && nb
            } else {
                x < 0
            }
            &&& r.1 < pow2(p as nat)
            &&& r.1 < pow2((p - 1) as nat) ==> r.2 == 0
        }),
{
    if ea >= eb {
        add_ordered(p, na, ma, ea, nb, mb, eb)
    } else {
        add_ordered(p, nb, mb, eb, na, ma, ea)
    }
}

} // verus!
