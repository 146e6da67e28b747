//! Other formulations of the two sums: loops written out by hand, and the
//! Kahan-Babuska-Neumaier sum with a comparison of magnitudes in place of
//! the general transform. They return what the accumulators return.

use crate::float::Float;
use crate::kahan::kahan_fold;
use crate::neumaier::{neumaier_fold, neumaier_in_range};
use crate::number::{lemma_arithmetic_wf, lemma_plus_alike, lemma_zero_units, Format, Number};
use crate::running::{
    all_wf, lemma_all_wf_front, lemma_numbers_step, lemma_numbers_wf, numbers, Running,
};
use crate::transform::{
    abs_two_sum_model, law_abs_two_sum_agrees, law_abs_two_sum_exact, law_two_sum_exact,
    two_sum, two_sum_in_range, two_sum_model,
};
use vstd::prelude::*;

verus! {

/// The state after `x` is added with a comparison of magnitudes.
pub open spec fn neumaier_abs_add(f: Format, st: Running, x: Number) -> Running {
    let r = abs_two_sum_model(f, st.sum, x);
    Running { sum: r.0, comp: st.comp.plus(f, r.1) }
}

/// The state after the values of a sequence are added in order to the empty
/// state, each with a comparison of magnitudes.
pub open spec fn neumaier_abs_fold(f: Format, xs: Seq<Number>) -> Running
    decreases xs.len(),
{
    if xs.len() == 0 {
        Running::empty()
    } else {
        neumaier_abs_add(f, neumaier_abs_fold(f, xs.drop_last()), xs.last())
    }
}

/// The sum with a comparison of magnitudes returns what the accumulator
/// returns, on every sequence of finite values on which no transform
/// overflows: the same running sum, a compensation that is equal, and a
/// total that is equal.
pub proof fn law_neumaier_abs_agrees(f: Format, xs: Seq<Number>)
    requires
        f.wf(),
        all_wf(f, xs),
        neumaier_in_range(f, xs),
    ensures
        neumaier_fold(f, xs).wf(f),
        neumaier_abs_fold(f, xs).wf(f),
        neumaier_fold(f, xs).sum is Finite,
        neumaier_abs_fold(f, xs).sum == neumaier_fold(f, xs).sum,
        neumaier_abs_fold(f, xs).comp.equals(neumaier_fold(f, xs).comp),
        neumaier_abs_fold(f, xs).total(f).equals(neumaier_fold(f, xs).total(f)),
    decreases xs.len(),
{
    lemma_zero_units(f);
    if xs.len() > 0 {
        let front = xs.drop_last();
        let x = xs.last();
        let st = neumaier_fold(f, front);
        let st2 = neumaier_abs_fold(f, front);
        lemma_all_wf_front(f, xs);
        law_neumaier_abs_agrees(f, front);
        law_two_sum_exact(f, st.sum, x);
        law_abs_two_sum_exact(f, st.sum, x);
        law_abs_two_sum_agrees(f, st.sum, x);
        let d = two_sum_model(f, st.sum, x).1;
        let d2 = abs_two_sum_model(f, st.sum, x).1;
        lemma_arithmetic_wf(f, st.sum, x);
        assert(d.wf(f) && d2.wf(f)) by {
            let s = st.sum.plus(f, x);
            let av = s.minus(f, x);
            let bv = s.minus(f, av);
            lemma_arithmetic_wf(f, s, x);
            lemma_arithmetic_wf(f, s, av);
            lemma_arithmetic_wf(f, st.sum, av);
            lemma_arithmetic_wf(f, x, bv);
            lemma_arithmetic_wf(f, st.sum.minus(f, av), x.minus(f, bv));
            lemma_arithmetic_wf(f, s, st.sum);
            lemma_arithmetic_wf(f, x, s.minus(f, st.sum));
            lemma_arithmetic_wf(f, st.sum, s.minus(f, x));
        }
        lemma_arithmetic_wf(f, st.comp, d);
        lemma_arithmetic_wf(f, st2.comp, d2);
        lemma_plus_alike(f, st2.comp, st.comp, d2, d);
        lemma_plus_alike(
            f,
            neumaier_abs_fold(f, xs).sum,
            neumaier_fold(f, xs).sum,
            neumaier_abs_fold(f, xs).comp,
            neumaier_fold(f, xs).comp,
        );
    }
}

/// The rounded sum of `a` and `b` and the error of the rounding, by the
/// fast transform with the operand of larger magnitude first; on equal
/// magnitudes `a` comes first.
pub fn abs_two_sum<T: Float>(a: T, b: T) -> (r: (T, T))
    ensures
        (r.0.number(), r.1.number()) == abs_two_sum_model(T::format(), a.number(), b.number()),
        r.0.canonical(),
        r.1.canonical(),
        r.0.number() == a.number().plus(T::format(), b.number()),
        a.number() is Finite && b.number() is Finite && r.0.number() is Finite
            ==> r.1.number() is Finite && r.0.number().value() + r.1.number().value()
            == a.number().value() + b.number().value(),
        two_sum_in_range(T::format(), a.number(), b.number()) ==> r.0.number() == two_sum_model(
            T::format(),
            a.number(),
            b.number(),
        ).0 && r.1.number().equals(two_sum_model(T::format(), a.number(), b.number()).1),
{
    let s = a.plus(b);
    let t = if a.abs().at_least(b.abs()) {
        b.minus(s.minus(a))
    } else {
        a.minus(s.minus(b))
    };
    proof {
        T::lemma_format();
        a.lemma_wf();
        b.lemma_wf();
        if a.number() is Finite && b.number() is Finite && s.number() is Finite {
            law_abs_two_sum_exact(T::format(), a.number(), b.number());
        }
        if two_sum_in_range(T::format(), a.number(), b.number()) {
            law_abs_two_sum_agrees(T::format(), a.number(), b.number());
        }
    }
    (s, t)
}

/// The total of the Kahan-Babuska sum of a slice, as a loop written out.
pub fn kahan_babuska_sum<T: Float>(values: &[T]) -> (r: T)
    ensures
        r.number() == kahan_fold(T::format(), numbers(values@)).total(T::format()),
        r.canonical(),
{
    let mut s = T::zero();
    let mut c = T::zero();
    let mut i: usize = 0;
    proof {
        if values.len() > 0 {
            lemma_numbers_step(values@, 0);
        }
    }
    while i < values.len()
        invariant
            i <= values.len(),
            (Running { sum: s.number(), comp: c.number() }) == kahan_fold(
                T::format(),
                numbers(values@).take(i as int),
            ),
        decreases values.len() - i,
    {
        proof {
            lemma_numbers_step(values@, i as int);
        }
        let x = values[i];
        let y = x.plus(c);
        let t = s.plus(y);
        c = y.minus(t.minus(s));
        s = t;
        i = i + 1;
    }
    proof {
        assert(numbers(values@).take(values@.len() as int) =~= numbers(values@));
    }
    s.plus(c)
}

/// The total of the Kahan-Babuska-Neumaier sum of a slice, as a loop
/// written out.
pub fn kahan_babuska_neumaier_sum<T: Float>(values: &[T]) -> (r: T)
    ensures
        r.number() == neumaier_fold(T::format(), numbers(values@)).total(T::format()),
        r.canonical(),
{
    let mut s = T::zero();
    let mut c = T::zero();
    let mut i: usize = 0;
    proof {
        if values.len() > 0 {
            lemma_numbers_step(values@, 0);
        }
    }
    while i < values.len()
        invariant
            i <= values.len(),
            (Running { sum: s.number(), comp: c.number() }) == neumaier_fold(
                T::format(),
                numbers(values@).take(i as int),
            ),
        decreases values.len() - i,
    {
        proof {
            lemma_numbers_step(values@, i as int);
        }
        let (t, d) = two_sum(s, values[i]);
        s = t;
        c = c.plus(d);
        i = i + 1;
    }
    proof {
        assert(numbers(values@).take(values@.len() as int) =~= numbers(values@));
    }
    s.plus(c)
}

/// The total of the Kahan-Babuska-Neumaier sum of a slice, with a
/// comparison of magnitudes in each step. On finite values on which no
/// transform overflows it equals the accumulator's total.
pub fn kahan_babuska_neumaier_abs_sum<T: Float>(values: &[T]) -> (r: T)
    ensures
        r.number() == neumaier_abs_fold(T::format(), numbers(values@)).total(T::format()),
        r.canonical(),
        neumaier_in_range(T::format(), numbers(values@)) ==> r.number().equals(
            neumaier_fold(T::format(), numbers(values@)).total(T::format()),
        ),
{
    let mut s = T::zero();
    let mut c = T::zero();
    let mut i: usize = 0;
    proof {
        if values.len() > 0 {
            lemma_numbers_step(values@, 0);
        }
    }
    while i < values.len()
        invariant
            i <= values.len(),
            (Running { sum: s.number(), comp: c.number() }) == neumaier_abs_fold(
                T::format(),
                numbers(values@).take(i as int),
            ),
        decreases values.len() - i,
    {
        proof {
            lemma_numbers_step(values@, i as int);
        }
        let x = values[i];
        let t = s.plus(x);
        if s.abs().at_least(x.abs()) {
            c = c.plus(x.minus(t.minus(s)));
        } else {
            c = c.plus(s.minus(t.minus(x)));
        }
        s = t;
        i = i + 1;
    }
    proof {
        assert(numbers(values@).take(values@.len() as int) =~= numbers(values@));
        if neumaier_in_range(T::format(), numbers(values@)) {
            T::lemma_format();
            lemma_numbers_wf(values@);
            law_neumaier_abs_agrees(T::format(), numbers(values@));
        }
    }
    s.plus(c)
}

/// The total of the Kahan-Babuska-Neumaier sum of a slice, by the
/// transform that compares magnitudes. On finite values on which no
/// transform overflows it equals the accumulator's total.
pub fn kahan_babuska_neumaier_abs_two_sum<T: Float>(values: &[T]) -> (r: T)
    ensures
        r.number() == neumaier_abs_fold(T::format(), numbers(values@)).total(T::format()),
        r.canonical(),
        neumaier_in_range(T::format(), numbers(values@)) ==> r.number().equals(
            neumaier_fold(T::format(), numbers(values@)).total(T::format()),
        ),
{
    let mut s = T::zero();
    let mut c = T::zero();
    let mut i: usize = 0;
    proof {
        if values.len() > 0 {
            lemma_numbers_step(values@, 0);
        }
    }
    while i < values.len()
        invariant
            i <= values.len(),
            (Running { sum: s.number(), comp: c.number() }) == neumaier_abs_fold(
                T::format(),
                numbers(values@).take(i as int),
            ),
        decreases values.len() - i,
    {
        proof {
            lemma_numbers_step(values@, i as int);
        }
        let (t, d) = abs_two_sum(s, values[i]);
        s = t;
        c = c.plus(d);
        i = i + 1;
    }
    proof {
        assert(numbers(values@).take(values@.len() as int) =~= numbers(values@));
        if neumaier_in_range(T::format(), numbers(values@)) {
            T::lemma_format();
            lemma_numbers_wf(values@);
            law_neumaier_abs_agrees(T::format(), numbers(values@));
        }
    }
    s.plus(c)
}

} // verus!
