//! The Kahan-Babuska accumulator.

use crate::float::Float;
use crate::number::{lemma_arithmetic_wf, lemma_zero_units, Format, Number};
use crate::running::{lemma_numbers_step, numbers, Running};
use crate::transform::{
    fast_two_sum, fast_two_sum_applies, fast_two_sum_model, law_fast_two_sum_exact,
};
use vstd::prelude::*;

verus! {

/// The state after `x` is added: the fast transform of the sum and of `x`
/// plus the compensation so far.
pub open spec fn kahan_add(f: Format, st: Running, x: Number) -> Running {
    let r = fast_two_sum_model(f, st.sum, x.plus(f, st.comp));
    Running { sum: r.0, comp: r.1 }
}

/// The state after `x` is subtracted: the fast transform of the sum and of
/// the compensation so far less `x`.
pub open spec fn kahan_sub(f: Format, st: Running, x: Number) -> Running {
    let r = fast_two_sum_model(f, st.sum, st.comp.minus(f, x));
    Running { sum: r.0, comp: r.1 }
}

/// The state after the values of a sequence are added in order to the empty
/// state.
pub open spec fn kahan_fold(f: Format, xs: Seq<Number>) -> Running
    decreases xs.len(),
{
    if xs.len() == 0 {
        Running::empty()
    } else {
        kahan_add(f, kahan_fold(f, xs.drop_last()), xs.last())
    }
}

/// An accumulator for the Kahan-Babuska sum: the compensation of each step
/// is folded into the next term. It is accurate as long as the running sum
/// is not smaller in magnitude than the terms.
#[derive(Clone, Copy, Debug)]
pub struct KahanBabuska<T> {
    /// Accumulated sum.
    pub sum: T,
    /// Compensation of the error.
    pub comp: T,
}

impl<T: Float> View for KahanBabuska<T> {
    type V = Running;

    open spec fn view(&self) -> Running {
        Running { sum: self.sum.number(), comp: self.comp.number() }
    }
}

impl<T: Float> KahanBabuska<T> {
    /// Whether both fields hold the bit patterns that their values are
    /// written as.
    pub open spec fn canonical(self) -> bool {
        self.sum.canonical() && self.comp.canonical()
    }

    /// A new, empty accumulator.
    pub fn new() -> (r: Self)
        ensures
            r@ == Running::empty(),
            r.canonical(),
    {
        KahanBabuska { sum: T::zero(), comp: T::zero() }
    }

    /// The estimated total: the sum plus the compensation.
    pub fn total(&self) -> (r: T)
        ensures
            r.number() == self@.total(T::format()),
            r.canonical(),
    {
        self.sum.plus(self.comp)
    }

    /// Adds `rhs` to the accumulator.
    pub fn add_assign(&mut self, rhs: T)
        ensures
            final(self)@ == kahan_add(T::format(), old(self)@, rhs.number()),
            final(self).canonical(),
    {
        let (s, c) = fast_two_sum(self.sum, rhs.plus(self.comp));
        self.sum = s;
        self.comp = c;
    }

    /// Subtracts `rhs` from the accumulator.
    pub fn sub_assign(&mut self, rhs: T)
        ensures
            final(self)@ == kahan_sub(T::format(), old(self)@, rhs.number()),
            final(self).canonical(),
    {
        let (s, c) = fast_two_sum(self.sum, self.comp.minus(rhs));
        self.sum = s;
        self.comp = c;
    }

    /// The accumulator with `rhs` added.
    pub fn add(self, rhs: T) -> (r: Self)
        ensures
            r@ == kahan_add(T::format(), self@, rhs.number()),
            r.canonical(),
    {
        let mut r = self;
        r.add_assign(rhs);
        r
    }

    /// The accumulator with `rhs` subtracted.
    pub fn sub(self, rhs: T) -> (r: Self)
        ensures
            r@ == kahan_sub(T::format(), self@, rhs.number()),
            r.canonical(),
    {
        let mut r = self;
        r.sub_assign(rhs);
        r
    }

    /// The accumulator that has taken in the values of a slice, in order.
    pub fn sum(values: &[T]) -> (r: Self)
        ensures
            r@ == kahan_fold(T::format(), numbers(values@)),
            r.canonical(),
    {
        let mut acc = KahanBabuska::new();
        let mut i: usize = 0;
        proof {
            if values.len() > 0 {
                lemma_numbers_step(values@, 0);
            }
        }
        while i < values.len()
            invariant
                i <= values.len(),
                acc@ == kahan_fold(T::format(), numbers(values@).take(i as int)),
                acc.canonical(),
            decreases values.len() - i,
        {
            proof {
                lemma_numbers_step(values@, i as int);
            }
            acc.add_assign(values[i]);
            i = i + 1;
        }
        proof {
            assert(numbers(values@).take(values@.len() as int) =~= numbers(values@));
        }
        acc
    }
}

/// A step loses no more than the rounding of the term: where the running
/// sum is zero or its exponent is not below that of the term with the
/// compensation folded in, and the new sum is finite, the new sum and the
/// new compensation add up to the old sum and that term.
pub proof fn law_kahan_step_exact(f: Format, st: Running, x: Number)
    requires
        f.wf(),
        st.wf(f),
        x.wf(f),
        fast_two_sum_applies(f, st.sum, x.plus(f, st.comp)),
        kahan_add(f, st, x).sum is Finite,
    ensures
        kahan_add(f, st, x).comp is Finite,
        kahan_add(f, st, x).sum.value() + kahan_add(f, st, x).comp.value() == st.sum.value()
            + x.plus(f, st.comp).value(),
{
    lemma_arithmetic_wf(f, x, st.comp);
    law_fast_two_sum_exact(f, st.sum, x.plus(f, st.comp));
}

/// An accumulator that has taken in nothing has a total of positive zero.
pub proof fn law_kahan_empty_total(f: Format)
    requires
        f.wf(),
    ensures
        kahan_fold(f, Seq::empty()).total(f) == Number::zero(false),
{
    lemma_zero_units(f);
}

} // verus!
