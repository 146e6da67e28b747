//! The Kahan-Babuska-Neumaier accumulator.

use crate::float::Float;
use crate::number::{lemma_arithmetic_wf, lemma_zero_units, Format, Number};
use crate::running::{all_wf, lemma_all_wf_front, lemma_numbers_step, numbers, Running};
use crate::transform::{
    law_two_sum_exact, two_sub, two_sub_model, two_sum, two_sum_in_range, two_sum_model,
};
use vstd::prelude::*;

verus! {

/// The state after `x` is added: the general transform of the sum and of
/// `x`, its error added to the compensation so far.
pub open spec fn neumaier_add(f: Format, st: Running, x: Number) -> Running {
    let r = two_sum_model(f, st.sum, x);
    Running { sum: r.0, comp: st.comp.plus(f, r.1) }
}

/// The state after `x` is subtracted: the subtracting transform of the sum
/// and of `x`, its error added to the compensation so far.
pub open spec fn neumaier_sub(f: Format, st: Running, x: Number) -> Running {
    let r = two_sub_model(f, st.sum, x);
    Running { sum: r.0, comp: st.comp.plus(f, r.1) }
}

/// The state after the values of a sequence are added in order to the empty
/// state.
pub open spec fn neumaier_fold(f: Format, xs: Seq<Number>) -> Running
    decreases xs.len(),
{
    if xs.len() == 0 {
        Running::empty()
    } else {
        neumaier_add(f, neumaier_fold(f, xs.drop_last()), xs.last())
    }
}

/// Whether the values are finite and no step of the sum overflows in its
/// transform.
pub open spec fn neumaier_in_range(f: Format, xs: Seq<Number>) -> bool
    decreases xs.len(),
{
    xs.len() == 0 || (neumaier_in_range(f, xs.drop_last()) && two_sum_in_range(
        f,
        neumaier_fold(f, xs.drop_last()).sum,
        xs.last(),
    ))
}

/// The exact sum of the values of a sequence, in units of the smallest
/// subnormal.
pub open spec fn exact_sum(xs: Seq<Number>) -> int
    decreases xs.len(),
{
    if xs.len() == 0 {
        0
    } else {
        exact_sum(xs.drop_last()) + xs.last().value()
    }
}

/// The exact sum of the errors that the transforms of the steps return.
pub open spec fn neumaier_errors(f: Format, xs: Seq<Number>) -> int
    decreases xs.len(),
{
    if xs.len() == 0 {
        0
    } else {
        neumaier_errors(f, xs.drop_last()) + two_sum_model(
            f,
            neumaier_fold(f, xs.drop_last()).sum,
            xs.last(),
        ).1.value()
    }
}

/// An accumulator for the Kahan-Babuska-Neumaier sum: the errors of the
/// steps are summed apart from the running sum, whatever the magnitudes of
/// the terms.
#[derive(Clone, Copy, Debug)]
pub struct KahanBabuskaNeumaier<T> {
    /// Accumulated sum.
    pub sum: T,
    /// Compensation of the error.
    pub comp: T,
}

impl<T: Float> View for KahanBabuskaNeumaier<T> {
    type V = Running;

    open spec fn view(&self) -> Running {
        Running { sum: self.sum.number(), comp: self.comp.number() }
    }
}

impl<T: Float> KahanBabuskaNeumaier<T> {
    /// Whether both fields hold the bit patterns that their values are
    /// written as.
    pub open spec fn canonical(self) -> bool {
        self.sum.canonical() && self.comp.canonical()
    }

    /// A new, empty accumulator.
    pub fn new() -> (r: Self)
        ensures
            r@ == Running::empty(),
            r.canonical(),
    {
        KahanBabuskaNeumaier { sum: T::zero(), comp: T::zero() }
    }

    /// The estimated total: the sum plus the compensation.
    pub fn total(&self) -> (r: T)
        ensures
            r.number() == self@.total(T::format()),
            r.canonical(),
    {
        self.sum.plus(self.comp)
    }

    /// Adds `rhs` to the accumulator.
    pub fn add_assign(&mut self, rhs: T)
        ensures
            final(self)@ == neumaier_add(T::format(), old(self)@, rhs.number()),
            final(self).canonical(),
    {
        let (s, c) = two_sum(self.sum, rhs);
        self.sum = s;
        self.comp = self.comp.plus(c);
    }

    /// Subtracts `rhs` from the accumulator.
    pub fn sub_assign(&mut self, rhs: T)
        ensures
            final(self)@ == neumaier_sub(T::format(), old(self)@, rhs.number()),
            final(self).canonical(),
    {
        let (s, c) = two_sub(self.sum, rhs);
        self.sum = s;
        self.comp = self.comp.plus(c);
    }

    /// The accumulator with `rhs` added.
    pub fn add(self, rhs: T) -> (r: Self)
        ensures
            r@ == neumaier_add(T::format(), self@, rhs.number()),
            r.canonical(),
    {
        let mut r = self;
        r.add_assign(rhs);
        r
    }

    /// The accumulator with `rhs` subtracted.
    pub fn sub(self, rhs: T) -> (r: Self)
        ensures
            r@ == neumaier_sub(T::format(), self@, rhs.number()),
            r.canonical(),
    {
        let mut r = self;
        r.sub_assign(rhs);
        r
    }

    /// The accumulator that has taken in the values of a slice, in order.
    pub fn sum(values: &[T]) -> (r: Self)
        ensures
            r@ == neumaier_fold(T::format(), numbers(values@)),
            r.canonical(),
    {
        let mut acc = KahanBabuskaNeumaier::new();
        let mut i: usize = 0;
        proof {
            if values.len() > 0 {
                lemma_numbers_step(values@, 0);
            }
        }
        while i < values.len()
            invariant
                i <= values.len(),
                acc@ == neumaier_fold(T::format(), numbers(values@).take(i as int)),
                acc.canonical(),
            decreases values.len() - i,
        {
            proof {
                lemma_numbers_step(values@, i as int);
            }
            acc.add_assign(values[i]);
            i = i + 1;
        }
        proof {
            assert(numbers(values@).take(values@.len() as int) =~= numbers(values@));
        }
        acc
    }
}

/// Nothing is lost between the running sum and the errors of the steps: on
/// finite values on which no transform overflows, the running sum and the
/// errors add up to the exact sum of the values. The compensation is the
/// rounded sum of those errors.
pub proof fn law_neumaier_conserves(f: Format, xs: Seq<Number>)
    requires
        f.wf(),
        all_wf(f, xs),
        neumaier_in_range(f, xs),
    ensures
        neumaier_fold(f, xs).sum.wf(f),
        neumaier_fold(f, xs).sum is Finite,
        neumaier_fold(f, xs).sum.value() + neumaier_errors(f, xs) == exact_sum(xs),
    decreases xs.len(),
{
    lemma_zero_units(f);
    if xs.len() > 0 {
        let front = xs.drop_last();
        lemma_all_wf_front(f, xs);
        law_neumaier_conserves(f, front);
        law_two_sum_exact(f, neumaier_fold(f, front).sum, xs.last());
        lemma_arithmetic_wf(f, neumaier_fold(f, front).sum, xs.last());
    }
}

/// An accumulator that has taken in nothing has a total of positive zero.
pub proof fn law_neumaier_empty_total(f: Format)
    requires
        f.wf(),
    ensures
        neumaier_fold(f, Seq::empty()).total(f) == Number::zero(false),
{
    lemma_zero_units(f);
}

} // verus!
