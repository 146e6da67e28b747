use compensated_summation::dev;
use compensated_summation::{
    fast_two_sum, two_sub, two_sum, Binary32, Float, KahanBabuska, KahanBabuskaNeumaier,
};
use rand::{Rng, SeedableRng};
use rand_xoshiro::Xoshiro256PlusPlus;

fn b(x: f32) -> Binary32 {
    Binary32::from_bits(x.to_bits())
}

fn f(x: Binary32) -> f32 {
    f32::from_bits(x.to_bits())
}

fn pair(p: (Binary32, Binary32)) -> (f32, f32) {
    (f(p.0), f(p.1))
}

fn slice(values: &[f32]) -> Vec<Binary32> {
    values.iter().map(|x| b(*x)).collect()
}

fn same(soft: Binary32, hard: f32) -> bool {
    if hard.is_nan() {
        f(soft).is_nan()
    } else {
        soft.to_bits() == hard.to_bits()
    }
}

fn check_sum(x: f32, y: f32) {
    assert!(same(b(x).plus(b(y)), x + y), "{:e} + {:e}", x, y);
    assert!(same(b(x).minus(b(y)), x - y), "{:e} - {:e}", x, y);
    assert!(same(b(y).plus(b(x)), y + x), "{:e} + {:e}", y, x);
    assert!(same(b(y).minus(b(x)), y - x), "{:e} - {:e}", y, x);
}

/// The value of a finite number as an integer multiple of 2^-149, for
/// magnitudes below 2^-27.
fn units(x: f32) -> i128 {
    let bits = x.to_bits();
    let exp = (bits >> 23) & 0xff;
    let frac = (bits & 0x007f_ffff) as i128;
    assert!(exp < 100);
    let m = if exp == 0 { frac } else { (frac + (1i128 << 23)) << (exp - 1) };
    if x.is_sign_negative() {
        -m
    } else {
        m
    }
}

fn small(rng: &mut Xoshiro256PlusPlus) -> f32 {
    let exp = rng.gen_range(0..90u32);
    f32::from_bits((rng.gen::<u32>() & 0x807f_ffff) | (exp << 23))
}

#[test]
fn single_sums_of_random_bit_patterns_match_hardware() {
    let mut rng = Xoshiro256PlusPlus::seed_from_u64(21);
    for _ in 0..300_000 {
        let x = f32::from_bits(rng.gen::<u32>());
        let y = f32::from_bits(rng.gen::<u32>());
        check_sum(x, y);
    }
}

#[test]
fn single_sums_of_near_exponents_match_hardware() {
    let mut rng = Xoshiro256PlusPlus::seed_from_u64(22);
    for _ in 0..300_000 {
        let bits = rng.gen::<u32>();
        let x = f32::from_bits(bits);
        let shift = rng.gen_range(0..60u32);
        let exp = (bits >> 23) & 0xff;
        let other = (exp + 30).saturating_sub(shift).min(0xff);
        let y = f32::from_bits((rng.gen::<u32>() & 0x807f_ffff) | (other << 23));
        check_sum(x, y);
    }
}

#[test]
fn single_sums_with_few_set_bits_match_hardware() {
    let mut rng = Xoshiro256PlusPlus::seed_from_u64(23);
    for _ in 0..300_000 {
        let exp = rng.gen_range(0..0xffu32);
        let gap = rng.gen_range(0..30u32);
        let low = 1u32 << rng.gen_range(0..23u32);
        let x = f32::from_bits((exp << 23) | (rng.gen::<u32>() & 3) | low);
        let y = f32::from_bits(
            (rng.gen::<u32>() & 0x8000_0000)
                | (exp.saturating_sub(gap) << 23)
                | (1u32 << rng.gen_range(0..23u32))
                | (rng.gen::<u32>() & 1),
        );
        check_sum(x, y);
    }
}

#[test]
fn single_edge_cases() {
    let ulp = f32::EPSILON;
    assert_eq!(f(b(1.0).plus(b(ulp / 2.0))), 1.0);
    assert_eq!(f(b(1.0 + ulp).plus(b(ulp / 2.0))), 1.0 + 2.0 * ulp);
    assert_eq!(f(b(1.0).minus(b(ulp / 4.0))), 1.0);
    assert_eq!(f(b(16777216.0).plus(b(1.0))), 16777216.0);
    assert_eq!(f(b(16777218.0).plus(b(1.0))), 16777220.0);
    assert_eq!(b(0.0).plus(b(-0.0)).to_bits(), 0);
    assert_eq!(b(-0.0).plus(b(-0.0)).to_bits(), 0x8000_0000);
    assert_eq!(b(1.5).minus(b(1.5)).to_bits(), 0);
    assert_eq!(f(b(f32::MAX).plus(b(f32::MAX))), f32::INFINITY);
    assert_eq!(f(b(f32::MAX).plus(b(2.0f32.powi(103)))), f32::INFINITY);
    assert_eq!(f(b(f32::MAX).plus(b(2.0f32.powi(102)))), f32::MAX);
    assert!(f(b(f32::INFINITY).minus(b(f32::INFINITY))).is_nan());
    assert!(f(b(f32::NAN).plus(b(1.0))).is_nan());
    assert_eq!(b(f32::from_bits(1)).plus(b(f32::from_bits(1))).to_bits(), 2);
    assert_eq!(b(f32::MIN_POSITIVE).minus(b(f32::from_bits(1))).to_bits(), 0x007f_ffff);
    assert_eq!(Binary32::zero().to_bits(), 0);
    assert_eq!(Binary32::infinity(true).to_bits(), f32::NEG_INFINITY.to_bits());
    assert!(Binary32::nan().is_nan());
}

#[test]
fn single_classification_and_comparisons_match_hardware() {
    let mut rng = Xoshiro256PlusPlus::seed_from_u64(24);
    let special = [
        0.0,
        -0.0,
        1.0,
        -1.0,
        f32::INFINITY,
        f32::NEG_INFINITY,
        f32::NAN,
        f32::MAX,
        -f32::MAX,
        f32::MIN_POSITIVE,
        f32::from_bits(1),
        -f32::from_bits(1),
    ];
    for x in special {
        for y in special {
            assert_eq!(b(x).equals(b(y)), x == y, "{:e} == {:e}", x, y);
            assert_eq!(b(x) == b(y), x == y, "{:e} == {:e}", x, y);
            assert_eq!(b(x).at_least(b(y)), x >= y, "{:e} >= {:e}", x, y);
        }
    }
    for _ in 0..100_000 {
        let x = f32::from_bits(rng.gen::<u32>());
        let y = if rng.gen::<bool>() {
            f32::from_bits(rng.gen::<u32>())
        } else {
            f32::from_bits(x.to_bits() ^ (rng.gen::<u32>() & 0x8000_0003))
        };
        assert_eq!(b(x).equals(b(y)), x == y, "{:e} == {:e}", x, y);
        assert_eq!(b(x).at_least(b(y)), x >= y, "{:e} >= {:e}", x, y);
        assert_eq!(b(x).is_nan(), x.is_nan());
        assert_eq!(b(x).is_infinite(), x.is_infinite());
        assert_eq!(b(x).is_finite(), x.is_finite());
        assert_eq!(b(x).is_sign_negative(), x.is_sign_negative());
        assert_eq!(b(x).neg().to_bits(), (-x).to_bits());
        assert_eq!(b(x).abs().to_bits(), x.abs().to_bits());
    }
}

#[test]
fn single_transforms_are_error_free() {
    let mut rng = Xoshiro256PlusPlus::seed_from_u64(25);
    for _ in 0..100_000 {
        let x = small(&mut rng);
        let y = small(&mut rng);
        let (s, t) = pair(two_sum(b(x), b(y)));
        assert_eq!(s, x + y);
        assert_eq!(units(s) + units(t), units(x) + units(y), "{:e} {:e}", x, y);
        let (d, e) = pair(two_sub(b(x), b(y)));
        assert_eq!(d, x - y);
        assert_eq!(units(d) + units(e), units(x) - units(y), "{:e} {:e}", x, y);
        assert_eq!((d, e), pair(two_sum(b(x), b(-y))));
        assert_eq!((s, t), pair(dev::abs_two_sum(b(x), b(y))));
        let (hi, lo) = if x.abs() >= y.abs() { (x, y) } else { (y, x) };
        assert_eq!(pair(fast_two_sum(b(hi), b(lo))), pair(two_sum(b(hi), b(lo))));
    }
}

#[test]
fn single_two_sum_loses_the_error_where_a_step_overflows() {
    let x = f32::MAX;
    let y = -1.5 * 2.0f32.powi(104);
    let (s, t) = pair(two_sum(b(x), b(y)));
    assert_eq!(s, x + y);
    assert!(s.is_finite());
    assert!((s - y).is_infinite());
    assert!(t.is_nan());
    assert_eq!(pair(dev::abs_two_sum(b(x), b(y))), (s, -2.0f32.powi(103)));
}

#[test]
fn single_accumulators_match_hardware_steps() {
    let mut rng = Xoshiro256PlusPlus::seed_from_u64(26);
    let mut kb = KahanBabuska::new();
    let mut kbn = KahanBabuskaNeumaier::new();
    let (mut s1, mut c1) = (0.0f32, 0.0f32);
    let (mut s2, mut c2) = (0.0f32, 0.0f32);
    let mut values = Vec::new();
    for _ in 0..2000 {
        let exp = rng.gen_range(90..160u32);
        let x = f32::from_bits((rng.gen::<u32>() & 0x807f_ffff) | (exp << 23));
        values.push(x);
        kb.add_assign(b(x));
        let y = x + c1;
        let t = s1 + y;
        c1 = y - (t - s1);
        s1 = t;
        assert_eq!(kb.sum.to_bits(), s1.to_bits());
        assert_eq!(kb.comp.to_bits(), c1.to_bits());

        kbn.add_assign(b(x));
        let s = s2 + x;
        let av = s - x;
        let bv = s - av;
        let d = (s2 - av) + (x - bv);
        s2 = s;
        c2 = c2 + d;
        assert_eq!(kbn.sum.to_bits(), s2.to_bits());
        assert_eq!(kbn.comp.to_bits(), c2.to_bits());
    }
    assert_eq!(kb.total().to_bits(), (s1 + c1).to_bits());
    assert_eq!(kbn.total().to_bits(), (s2 + c2).to_bits());

    let values = slice(&values);
    assert_eq!(KahanBabuska::sum(&values).total().to_bits(), kb.total().to_bits());
    assert_eq!(dev::kahan_babuska_sum(&values).to_bits(), kb.total().to_bits());
    assert_eq!(KahanBabuskaNeumaier::sum(&values).total().to_bits(), kbn.total().to_bits());
    assert_eq!(dev::kahan_babuska_neumaier_sum(&values).to_bits(), kbn.total().to_bits());
    assert_eq!(f(dev::kahan_babuska_neumaier_abs_sum(&values)), f(kbn.total()));
    assert_eq!(f(dev::kahan_babuska_neumaier_abs_two_sum(&values)), f(kbn.total()));
}

#[test]
fn single_large_magnitude_cancellation() {
    let values = slice(&[1.0, 1e30, 1.0, -1e30]);
    assert_eq!(f(KahanBabuska::sum(&values).total()), 0.0);
    assert_eq!(f(KahanBabuskaNeumaier::sum(&values).total()), 2.0);
    let none: Vec<Binary32> = Vec::new();
    assert_eq!(KahanBabuska::sum(&none).total().to_bits(), 0);
    assert_eq!(KahanBabuskaNeumaier::sum(&none).total().to_bits(), 0);
}
