use compensated_summation::{Binary64, Float, KahanBabuska, KahanBabuskaNeumaier};
use rand::{Rng, SeedableRng};
use rand_xoshiro::Xoshiro256PlusPlus;

fn b(x: f64) -> Binary64 {
    Binary64::from_bits(x.to_bits())
}

fn f(x: Binary64) -> f64 {
    f64::from_bits(x.to_bits())
}

fn same(soft: Binary64, hard: f64) -> bool {
    if hard.is_nan() {
        f(soft).is_nan()
    } else {
        soft.to_bits() == hard.to_bits()
    }
}

fn check_sum(x: f64, y: f64) {
    assert!(same(b(x).plus(b(y)), x + y), "{:e} + {:e}", x, y);
    assert!(same(b(x).minus(b(y)), x - y), "{:e} - {:e}", x, y);
    assert!(same(b(y).plus(b(x)), y + x), "{:e} + {:e}", y, x);
    assert!(same(b(y).minus(b(x)), y - x), "{:e} - {:e}", y, x);
}

#[test]
fn sums_of_random_bit_patterns_match_hardware() {
    let mut rng = Xoshiro256PlusPlus::seed_from_u64(1);
    for _ in 0..200_000 {
        let x = f64::from_bits(rng.gen::<u64>());
        let y = f64::from_bits(rng.gen::<u64>());
        check_sum(x, y);
    }
}

#[test]
fn sums_of_near_exponents_match_hardware() {
    let mut rng = Xoshiro256PlusPlus::seed_from_u64(2);
    for _ in 0..200_000 {
        let bits = rng.gen::<u64>();
        let x = f64::from_bits(bits);
        let shift = rng.gen_range(0..130u64);
        let exp = (bits >> 52) & 0x7ff;
        let other = (exp + 65).saturating_sub(shift).min(0x7ff);
        let y = f64::from_bits((rng.gen::<u64>() & 0x800f_ffff_ffff_ffff) | (other << 52));
        check_sum(x, y);
    }
}

#[test]
fn sums_with_few_set_bits_match_hardware() {
    let mut rng = Xoshiro256PlusPlus::seed_from_u64(3);
    for _ in 0..200_000 {
        let exp = rng.gen_range(0..0x7ffu64);
        let gap = rng.gen_range(0..60u64);
        let low = 1u64 << rng.gen_range(0..52u32);
        let x = f64::from_bits((exp << 52) | (rng.gen::<u64>() & 3) | low);
        let y = f64::from_bits(
            (rng.gen::<u64>() & 0x8000_0000_0000_0000)
                | (exp.saturating_sub(gap) << 52)
                | (1u64 << rng.gen_range(0..52u32))
                | (rng.gen::<u64>() & 1),
        );
        check_sum(x, y);
    }
}

#[test]
fn ties_go_to_the_even_significand() {
    let ulp = f64::EPSILON;
    assert_eq!(f(b(1.0).plus(b(ulp / 2.0))), 1.0);
    assert_eq!(f(b(1.0 + ulp).plus(b(ulp / 2.0))), 1.0 + 2.0 * ulp);
    assert_eq!(f(b(1.0).plus(b(ulp / 2.0 + ulp / 8.0))), 1.0 + ulp);
    assert_eq!(f(b(1.0).minus(b(ulp / 4.0))), 1.0);
    assert_eq!(f(b(1.0).minus(b(ulp / 4.0 + ulp / 16.0))), 1.0 - ulp / 2.0);
    assert_eq!(f(b(9007199254740992.0).plus(b(1.0))), 9007199254740992.0);
    assert_eq!(f(b(9007199254740994.0).plus(b(1.0))), 9007199254740996.0);
}

#[test]
fn zeros_keep_their_signs() {
    assert_eq!(b(0.0).plus(b(0.0)).to_bits(), 0);
    assert_eq!(b(-0.0).plus(b(-0.0)).to_bits(), (-0.0f64).to_bits());
    assert_eq!(b(0.0).plus(b(-0.0)).to_bits(), 0);
    assert_eq!(b(-0.0).plus(b(0.0)).to_bits(), 0);
    assert_eq!(b(1.5).minus(b(1.5)).to_bits(), 0);
    assert_eq!(b(-1.5).plus(b(1.5)).to_bits(), 0);
    assert_eq!(b(-0.0).minus(b(0.0)).to_bits(), (-0.0f64).to_bits());
    assert_eq!(Binary64::zero().to_bits(), 0);
}

#[test]
fn overflow_gives_an_infinity() {
    assert_eq!(f(b(f64::MAX).plus(b(f64::MAX))), f64::INFINITY);
    assert_eq!(f(b(-f64::MAX).minus(b(f64::MAX))), f64::NEG_INFINITY);
    let half_ulp = 2.0f64.powi(970);
    assert_eq!(f(b(f64::MAX).plus(b(half_ulp))), f64::INFINITY);
    assert_eq!(f(b(f64::MAX).plus(b(half_ulp / 2.0))), f64::MAX);
    assert_eq!(Binary64::infinity(false).to_bits(), f64::INFINITY.to_bits());
    assert_eq!(Binary64::infinity(true).to_bits(), f64::NEG_INFINITY.to_bits());
}

#[test]
fn infinities_and_nans_propagate() {
    let inf = f64::INFINITY;
    assert_eq!(f(b(inf).plus(b(1.0))), inf);
    assert_eq!(f(b(1.0).plus(b(-inf))), -inf);
    assert_eq!(f(b(inf).plus(b(inf))), inf);
    assert!(f(b(inf).plus(b(-inf))).is_nan());
    assert!(f(b(inf).minus(b(inf))).is_nan());
    assert!(f(b(f64::NAN).plus(b(1.0))).is_nan());
    assert!(f(b(1.0).minus(b(f64::NAN))).is_nan());
    assert!(Binary64::nan().is_nan());
    assert!(f(Binary64::nan()).is_nan());
}

#[test]
fn subnormals_add_exactly() {
    let tiny = f64::from_bits(1);
    assert_eq!(b(tiny).plus(b(tiny)).to_bits(), 2);
    assert_eq!(b(f64::MIN_POSITIVE).minus(b(tiny)).to_bits(), 0x000f_ffff_ffff_ffff);
    assert_eq!(
        b(f64::from_bits(0x000f_ffff_ffff_ffff)).plus(b(tiny)).to_bits(),
        f64::MIN_POSITIVE.to_bits()
    );
    assert_eq!(f(b(f64::MIN_POSITIVE).plus(b(f64::MIN_POSITIVE))), 2.0 * f64::MIN_POSITIVE);
}

#[test]
fn classification_matches_hardware() {
    let mut rng = Xoshiro256PlusPlus::seed_from_u64(4);
    let mut cases: Vec<f64> = vec![
        0.0,
        -0.0,
        1.0,
        -1.0,
        f64::INFINITY,
        f64::NEG_INFINITY,
        f64::NAN,
        -f64::NAN,
        f64::MAX,
        f64::MIN_POSITIVE,
        f64::from_bits(1),
    ];
    for _ in 0..10_000 {
        cases.push(f64::from_bits(rng.gen::<u64>()));
    }
    for x in cases {
        assert_eq!(b(x).is_nan(), x.is_nan());
        assert_eq!(b(x).is_infinite(), x.is_infinite());
        assert_eq!(b(x).is_finite(), x.is_finite());
        assert_eq!(b(x).is_sign_negative(), x.is_sign_negative());
        assert_eq!(b(x).neg().to_bits(), (-x).to_bits());
        assert_eq!(b(x).abs().to_bits(), x.abs().to_bits());
        assert_eq!(b(x).to_bits(), x.to_bits());
    }
}

#[test]
fn comparisons_match_hardware() {
    let mut rng = Xoshiro256PlusPlus::seed_from_u64(5);
    let special = [
        0.0,
        -0.0,
        1.0,
        -1.0,
        f64::INFINITY,
        f64::NEG_INFINITY,
        f64::NAN,
        f64::MAX,
        -f64::MAX,
        f64::MIN_POSITIVE,
        f64::from_bits(1),
        -f64::from_bits(1),
    ];
    for x in special {
        for y in special {
            assert_eq!(b(x).equals(b(y)), x == y, "{:e} == {:e}", x, y);
            assert_eq!(b(x).at_least(b(y)), x >= y, "{:e} >= {:e}", x, y);
        }
    }
    for _ in 0..100_000 {
        let x = f64::from_bits(rng.gen::<u64>());
        let y = if rng.gen::<bool>() {
            f64::from_bits(rng.gen::<u64>())
        } else {
            f64::from_bits(x.to_bits() ^ (rng.gen::<u64>() & 0x8000_0000_0000_0003))
        };
        assert_eq!(b(x).equals(b(y)), x == y, "{:e} == {:e}", x, y);
        assert_eq!(b(x).at_least(b(y)), x >= y, "{:e} >= {:e}", x, y);
    }
}

#[test]
fn the_operator_is_ieee_equality() {
    assert!(b(0.0) == b(-0.0));
    assert!(b(1.5) == b(1.5));
    assert!(b(1.5) != b(-1.5));
    assert!(b(f64::NAN) != b(f64::NAN));
    assert!(b(f64::INFINITY) == b(f64::INFINITY));
    assert!(b(f64::INFINITY) != b(f64::NEG_INFINITY));

    let mut k = KahanBabuska::new();
    assert!(k == KahanBabuska::new());
    k.add_assign(b(0.1));
    assert!(k != KahanBabuska::new());
    assert!(k == KahanBabuska { sum: b(0.1), comp: b(-0.0) });
    k.add_assign(b(f64::NAN));
    assert!(k != k.clone());

    let mut n = KahanBabuskaNeumaier::new();
    assert!(n == KahanBabuskaNeumaier::new());
    n.add_assign(b(0.1));
    assert!(n == KahanBabuskaNeumaier { sum: b(0.1), comp: b(0.0) });
    assert!(n != KahanBabuskaNeumaier::new());
}
