use compensated_summation::dev;
use compensated_summation::{two_sub, two_sum, Binary64, KahanBabuska, KahanBabuskaNeumaier};
use rand::{Rng, SeedableRng};
use rand_distr::LogNormal;
use rand_xoshiro::Xoshiro256PlusPlus;

fn b(x: f64) -> Binary64 {
    Binary64::from_bits(x.to_bits())
}

fn f(x: Binary64) -> f64 {
    f64::from_bits(x.to_bits())
}

fn pair(p: (Binary64, Binary64)) -> (f64, f64) {
    (f(p.0), f(p.1))
}

fn slice(values: &[f64]) -> Vec<Binary64> {
    values.iter().map(|x| b(*x)).collect()
}

#[test]
fn test_two_sum() {
    let mut rng = Xoshiro256PlusPlus::seed_from_u64(42);
    let dist = LogNormal::new(0.0, 40.0).unwrap();

    for _ in 0..1000 {
        let a: f64 = rng.sample(dist);
        let b2: f64 = rng.sample(dist);
        assert_eq!(pair(two_sum(b(a), b(b2))), pair(dev::abs_two_sum(b(a), b(b2))));
    }
}

#[test]
fn test_two_sub() {
    let mut rng = Xoshiro256PlusPlus::seed_from_u64(42);
    let dist = LogNormal::new(0.0, 40.0).unwrap();

    for _ in 0..1000 {
        let a: f64 = rng.sample(dist);
        let b2: f64 = rng.sample(dist);
        assert_eq!(pair(two_sub(b(a), b(b2))), pair(two_sum(b(a), b(-b2))));
    }
}

#[test]
fn kahan_123() {
    let mut k = KahanBabuska::new();
    let mut s = 0.0;
    k.add_assign(b(0.1));
    s += 0.1;
    k.add_assign(b(0.2));
    s += 0.2;
    k.add_assign(b(-0.3));
    s += -0.3;
    assert_eq!(f(k.sum), 0.0);
    assert_eq!(f(k.comp), 0.0);
    assert_eq!(s, f64::EPSILON / 4.);
}

#[test]
fn kahan_tenth() {
    let mut k = KahanBabuska::new();
    let mut s = 0.0;
    for _ in 0..10 {
        k.add_assign(b(0.1));
        s += 0.1;
    }
    k.add_assign(b(-1.0));
    s += -1.0;
    assert_eq!(f(k.sum), 0.0);
    assert_eq!(f(k.comp), 0.0);
    assert_eq!(s, -f64::EPSILON / 2.);
}

#[test]
fn kahan_123_iter() {
    assert_eq!(f(KahanBabuska::sum(&slice(&[0.1, 0.2, -0.3])).total()), 0.0);
    let cloned: Vec<f64> = [0.1, 0.2, -0.3].iter().cloned().collect();
    assert_eq!(f(KahanBabuska::sum(&slice(&cloned)).total()), 0.0);
}

#[test]
fn kahan_tenth_iter() {
    assert_eq!(f(KahanBabuska::sum(&slice(&[0.1; 10])).total()), 1.0);
    let cloned: Vec<f64> = [0.1; 10].iter().cloned().collect();
    assert_eq!(f(KahanBabuska::sum(&slice(&cloned)).total()), 1.0);
}

#[test]
fn kahan_large() {
    assert_eq!(f(KahanBabuska::sum(&slice(&[1.0, 1e100, 1.0, -1e100])).total()), 0.0);
}

#[test]
fn neumaier_large() {
    assert_eq!(
        f(KahanBabuskaNeumaier::sum(&slice(&[1.0, 1e100, 1.0, -1e100])).total()),
        2.0
    );
}

#[test]
fn test_correctness() {
    for seed in 0..100 {
        let rng = Xoshiro256PlusPlus::seed_from_u64(seed);
        let values: Vec<f64> = rng
            .sample_iter(LogNormal::new(0.0, 40.0).unwrap())
            .take(1_000)
            .collect();
        let values = slice(&values);

        assert_eq!(
            f(KahanBabuska::sum(&values).total()),
            f(dev::kahan_babuska_sum(&values))
        );

        assert_eq!(
            f(KahanBabuskaNeumaier::sum(&values).total()),
            f(dev::kahan_babuska_neumaier_sum(&values))
        );
        assert_eq!(
            f(KahanBabuskaNeumaier::sum(&values).total()),
            f(dev::kahan_babuska_neumaier_abs_sum(&values))
        );
        assert_eq!(
            f(KahanBabuskaNeumaier::sum(&values).total()),
            f(dev::kahan_babuska_neumaier_abs_two_sum(&values))
        );
    }
}

#[test]
fn neumaier_123() {
    let mut k = KahanBabuskaNeumaier::new();
    k.add_assign(b(0.1));
    k.add_assign(b(0.2));
    k.sub_assign(b(0.3));
    assert_eq!(f(k.total()), f64::EPSILON / 8.0);
}

#[test]
fn neumaier_123_added() {
    let mut k = KahanBabuskaNeumaier::new();
    k.add_assign(b(0.1));
    k.add_assign(b(0.2));
    k.add_assign(b(-0.3));
    assert_eq!(f(k.total()), f64::EPSILON / 8.0);
    assert_eq!(
        f(KahanBabuskaNeumaier::sum(&slice(&[0.1, 0.2, -0.3])).total()),
        f64::EPSILON / 8.0
    );
}

#[test]
fn kahan_subtracts_what_it_added() {
    let mut k = KahanBabuska::new();
    k.add_assign(b(0.1));
    k.add_assign(b(0.2));
    k.sub_assign(b(0.3));
    assert_eq!(f(k.total()), 0.0);
    let by_value = KahanBabuska::new().add(b(0.1)).add(b(0.2)).sub(b(0.3));
    assert_eq!(by_value.sum.to_bits(), k.sum.to_bits());
    assert_eq!(by_value.comp.to_bits(), k.comp.to_bits());
}

#[test]
fn neumaier_by_value_is_in_place() {
    let mut k = KahanBabuskaNeumaier::new();
    k.add_assign(b(1e100));
    k.add_assign(b(1.0));
    k.sub_assign(b(1e100));
    let by_value = KahanBabuskaNeumaier::new().add(b(1e100)).add(b(1.0)).sub(b(1e100));
    assert_eq!(by_value.sum.to_bits(), k.sum.to_bits());
    assert_eq!(by_value.comp.to_bits(), k.comp.to_bits());
    assert_eq!(f(k.total()), 1.0);
}

#[test]
fn empty_sequence_totals_zero() {
    let none: Vec<Binary64> = Vec::new();
    assert_eq!(KahanBabuska::sum(&none).total().to_bits(), 0);
    assert_eq!(KahanBabuskaNeumaier::sum(&none).total().to_bits(), 0);
    assert_eq!(KahanBabuska::<Binary64>::new().total().to_bits(), 0);
    assert_eq!(KahanBabuskaNeumaier::<Binary64>::new().total().to_bits(), 0);
    assert_eq!(dev::kahan_babuska_sum(&none).to_bits(), 0);
    assert_eq!(dev::kahan_babuska_neumaier_sum(&none).to_bits(), 0);
    assert_eq!(dev::kahan_babuska_neumaier_abs_sum(&none).to_bits(), 0);
    assert_eq!(dev::kahan_babuska_neumaier_abs_two_sum(&none).to_bits(), 0);
}

#[test]
fn total_does_not_change_the_state() {
    let mut k = KahanBabuska::new();
    k.add_assign(b(0.1));
    let before = (k.sum.to_bits(), k.comp.to_bits());
    let first = k.total().to_bits();
    assert_eq!((k.sum.to_bits(), k.comp.to_bits()), before);
    assert_eq!(k.total().to_bits(), first);
    k.add_assign(b(0.2));
    assert_eq!(f(k.total()), 0.30000000000000004);
}

#[test]
fn accumulators_match_hardware_steps() {
    let mut rng = Xoshiro256PlusPlus::seed_from_u64(7);
    let dist = LogNormal::new(0.0, 40.0).unwrap();
    let mut kb = KahanBabuska::new();
    let mut kbn = KahanBabuskaNeumaier::new();
    let (mut s1, mut c1) = (0.0f64, 0.0f64);
    let (mut s2, mut c2) = (0.0f64, 0.0f64);
    for i in 0..2000 {
        let mut x: f64 = rng.sample(dist);
        if i % 3 == 0 {
            x = -x;
        }
        kb.add_assign(b(x));
        let y = x + c1;
        let t = s1 + y;
        c1 = y - (t - s1);
        s1 = t;
        assert_eq!(kb.sum.to_bits(), s1.to_bits());
        assert_eq!(kb.comp.to_bits(), c1.to_bits());

        kbn.add_assign(b(x));
        let s = s2 + x;
        let av = s - x;
        let bv = s - av;
        let d = (s2 - av) + (x - bv);
        s2 = s;
        c2 = c2 + d;
        assert_eq!(kbn.sum.to_bits(), s2.to_bits());
        assert_eq!(kbn.comp.to_bits(), c2.to_bits());
    }
    assert_eq!(kb.total().to_bits(), (s1 + c1).to_bits());
    assert_eq!(kbn.total().to_bits(), (s2 + c2).to_bits());
}
