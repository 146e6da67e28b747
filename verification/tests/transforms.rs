use compensated_summation::dev::abs_two_sum;
use compensated_summation::{
    fast_two_sum, two_sub, two_sum, Binary64, Float, KahanBabuska, KahanBabuskaNeumaier,
};
use rand::{Rng, SeedableRng};
use rand_xoshiro::Xoshiro256PlusPlus;

fn b(x: f64) -> Binary64 {
    Binary64::from_bits(x.to_bits())
}

fn f(x: Binary64) -> f64 {
    f64::from_bits(x.to_bits())
}

fn pair(p: (Binary64, Binary64)) -> (f64, f64) {
    (f(p.0), f(p.1))
}

/// The value of a finite number as an integer multiple of 2^-1074, for
/// magnitudes below 2^-953.
fn units(x: f64) -> i128 {
    let bits = x.to_bits();
    let exp = ((bits >> 52) & 0x7ff) as u32;
    let frac = (bits & 0x000f_ffff_ffff_ffff) as i128;
    assert!(exp < 70);
    let m = if exp == 0 { frac } else { (frac + (1i128 << 52)) << (exp - 1) };
    if x.is_sign_negative() {
        -m
    } else {
        m
    }
}

fn small(rng: &mut Xoshiro256PlusPlus) -> f64 {
    let exp = rng.gen_range(0..59u64);
    f64::from_bits((rng.gen::<u64>() & 0x800f_ffff_ffff_ffff) | (exp << 52))
}

#[test]
fn two_sum_is_error_free() {
    let mut rng = Xoshiro256PlusPlus::seed_from_u64(11);
    for _ in 0..100_000 {
        let x = small(&mut rng);
        let y = small(&mut rng);
        let (s, t) = pair(two_sum(b(x), b(y)));
        assert_eq!(s, x + y);
        assert_eq!(units(s) + units(t), units(x) + units(y), "{:e} {:e}", x, y);
        let (d, e) = pair(two_sub(b(x), b(y)));
        assert_eq!(d, x - y);
        assert_eq!(units(d) + units(e), units(x) - units(y), "{:e} {:e}", x, y);
        let (s2, t2) = pair(abs_two_sum(b(x), b(y)));
        assert_eq!(s2, x + y);
        assert_eq!(units(s2) + units(t2), units(x) + units(y), "{:e} {:e}", x, y);
    }
}

#[test]
fn two_sum_known_values() {
    let tiny = 2.0f64.powi(-60);
    assert_eq!(pair(two_sum(b(1.0), b(tiny))), (1.0, tiny));
    assert_eq!(pair(two_sum(b(tiny), b(1.0))), (1.0, tiny));
    assert_eq!(pair(two_sum(b(0.1), b(0.2))), (0.30000000000000004, -2.7755575615628914e-17));
    assert_eq!(pair(two_sub(b(1.0), b(tiny))), (1.0, -tiny));
    assert_eq!(pair(fast_two_sum(b(1.0), b(tiny))), (1.0, tiny));
    assert_eq!(pair(abs_two_sum(b(tiny), b(1.0))), (1.0, tiny));
    assert_eq!(pair(two_sum(b(0.0), b(0.0))), (0.0, 0.0));
    assert_eq!(pair(two_sum(b(3.0), b(-3.0))), (0.0, 0.0));
}

#[test]
fn fast_two_sum_agrees_when_first_is_larger() {
    let mut rng = Xoshiro256PlusPlus::seed_from_u64(12);
    for _ in 0..100_000 {
        let mut x = f64::from_bits(rng.gen::<u64>() & 0xbfff_ffff_ffff_ffff);
        let mut y = f64::from_bits(rng.gen::<u64>() & 0xbfff_ffff_ffff_ffff);
        if x.abs() < y.abs() {
            std::mem::swap(&mut x, &mut y);
        }
        assert_eq!(pair(fast_two_sum(b(x), b(y))), pair(two_sum(b(x), b(y))), "{:e} {:e}", x, y);
    }
    for _ in 0..100_000 {
        let x = small(&mut rng);
        let y = small(&mut rng);
        let (hi, lo) = if x.abs() >= y.abs() { (x, y) } else { (y, x) };
        let (s, t) = pair(fast_two_sum(b(hi), b(lo)));
        assert_eq!(units(s) + units(t), units(hi) + units(lo));
        assert_eq!((s, t), pair(two_sum(b(hi), b(lo))));
    }
}

#[test]
fn fast_two_sum_with_a_zero_operand() {
    assert_eq!(pair(fast_two_sum(b(0.0), b(1e300))), (1e300, 0.0));
    assert_eq!(pair(fast_two_sum(b(1e-300), b(0.0))), (1e-300, 0.0));
}

#[test]
fn fast_two_sum_takes_the_same_steps_when_misused() {
    let tiny = 2.0f64.powi(-60);
    let x = tiny;
    let y = 1.0 + f64::EPSILON;
    let s = x + y;
    let bv = s - x;
    let t = y - bv;
    assert_eq!(pair(fast_two_sum(b(x), b(y))), (s, t));
    let (s2, t2) = pair(two_sum(b(x), b(y)));
    assert_eq!(s2, s);
    assert_eq!(t2, tiny);
    assert_eq!(t, 0.0);
}

#[test]
fn abs_two_sum_agrees_with_two_sum() {
    let mut rng = Xoshiro256PlusPlus::seed_from_u64(13);
    for _ in 0..100_000 {
        let x = f64::from_bits(rng.gen::<u64>() & 0xbfff_ffff_ffff_ffff);
        let y = f64::from_bits(rng.gen::<u64>() & 0xbfff_ffff_ffff_ffff);
        assert_eq!(pair(abs_two_sum(b(x), b(y))), pair(two_sum(b(x), b(y))), "{:e} {:e}", x, y);
    }
    for _ in 0..100_000 {
        let x = small(&mut rng);
        let y = if rng.gen::<bool>() { small(&mut rng) } else { -x };
        assert_eq!(pair(abs_two_sum(b(x), b(y))), pair(two_sum(b(x), b(y))), "{:e} {:e}", x, y);
    }
}

#[test]
fn abs_two_sum_takes_the_first_on_equal_magnitudes() {
    let x = 1.0 + f64::EPSILON;
    let (s, t) = pair(abs_two_sum(b(x), b(-x)));
    assert_eq!((s, t), (0.0, 0.0));
    let expected = (-x) - ((x + -x) - x);
    assert_eq!(abs_two_sum(b(x), b(-x)).1.to_bits(), expected.to_bits());
}

#[test]
fn two_sub_agrees_with_two_sum_of_the_negation() {
    let mut rng = Xoshiro256PlusPlus::seed_from_u64(14);
    for _ in 0..100_000 {
        let x = f64::from_bits(rng.gen::<u64>() & 0xbfff_ffff_ffff_ffff);
        let y = f64::from_bits(rng.gen::<u64>() & 0xbfff_ffff_ffff_ffff);
        assert_eq!(pair(two_sub(b(x), b(y))), pair(two_sum(b(x), b(-y))), "{:e} {:e}", x, y);
    }
}

#[test]
fn transforms_match_hardware_steps() {
    let mut rng = Xoshiro256PlusPlus::seed_from_u64(15);
    for _ in 0..100_000 {
        let x = f64::from_bits(rng.gen::<u64>());
        let y = f64::from_bits(x.to_bits().wrapping_add(rng.gen::<u64>() >> rng.gen_range(0..64u32)));
        let s = x + y;
        let av = s - y;
        let bv = s - av;
        let t = (x - av) + (y - bv);
        let (s2, t2) = two_sum(b(x), b(y));
        if s.is_nan() {
            assert!(f(s2).is_nan());
        } else {
            assert_eq!(s2.to_bits(), s.to_bits());
        }
        if t.is_nan() {
            assert!(f(t2).is_nan());
        } else {
            assert_eq!(t2.to_bits(), t.to_bits());
        }
    }
}

#[test]
fn two_sum_loses_the_error_where_a_step_overflows() {
    let x = f64::MAX;
    let y = -1.5 * 2.0f64.powi(971);
    let (s, t) = pair(two_sum(b(x), b(y)));
    assert_eq!(s, x + y);
    assert!(s.is_finite());
    assert!((s - y).is_infinite());
    assert!(t.is_nan());
    let (s2, t2) = pair(abs_two_sum(b(x), b(y)));
    assert_eq!(s2, s);
    assert_eq!(t2, -2.0f64.powi(970));
}

#[test]
fn two_sum_of_an_overflowing_sum() {
    let (s, t) = pair(two_sum(b(f64::MAX), b(f64::MAX)));
    assert_eq!(s, f64::INFINITY);
    assert!(t.is_nan());
    let (s2, t2) = pair(fast_two_sum(b(f64::MAX), b(f64::MAX)));
    assert_eq!(s2, f64::INFINITY);
    assert_eq!(t2, f64::NEG_INFINITY);
}

#[test]
fn neumaier_sum_and_errors_add_up_to_the_exact_sum() {
    let mut rng = Xoshiro256PlusPlus::seed_from_u64(16);
    for _ in 0..200 {
        let mut k = KahanBabuskaNeumaier::new();
        let mut exact: i128 = 0;
        let mut errors: i128 = 0;
        for _ in 0..50 {
            let x = small(&mut rng);
            let (_, d) = two_sum(k.sum, b(x));
            errors += units(f(d));
            exact += units(x);
            k.add_assign(b(x));
            assert_eq!(units(f(k.sum)) + errors, exact);
        }
    }
}

#[test]
fn kahan_step_keeps_the_sum_and_the_folded_term() {
    let mut rng = Xoshiro256PlusPlus::seed_from_u64(17);
    let mut checked = 0;
    for _ in 0..200 {
        let mut k = KahanBabuska::new();
        for _ in 0..50 {
            let x = small(&mut rng);
            let y = b(x).plus(k.comp);
            let dominant = f(k.sum) == 0.0 || f(k.sum).abs() >= f(y).abs();
            let before = units(f(k.sum));
            k.add_assign(b(x));
            if dominant {
                assert_eq!(units(f(k.sum)) + units(f(k.comp)), before + units(f(y)));
                checked += 1;
            }
        }
    }
    assert!(checked > 1000);
}
