//! What the two accumulators share: the state of a running sum as values,
//! and the values of a slice.

use crate::float::Float;
use crate::number::{Format, Number};
use vstd::prelude::*;

verus! {

/// The state of a running sum: the rounded sum so far, and the compensation
/// that stands for what the roundings lost.
pub struct Running {
    pub sum: Number,
    pub comp: Number,
}

impl Running {
    /// The empty state: both fields positive zero.
    pub open spec fn empty() -> Running {
        Running { sum: Number::zero(false), comp: Number::zero(false) }
    }

    /// The estimated total: the sum plus the compensation, rounded once.
    pub open spec fn total(self, f: Format) -> Number {
        self.sum.plus(f, self.comp)
    }

    /// Whether both fields are well formed.
    pub open spec fn wf(self, f: Format) -> bool {
        self.sum.wf(f) && self.comp.wf(f)
    }
}

/// The values of a sequence of bit patterns, in order.
pub open spec fn numbers<T: Float>(s: Seq<T>) -> Seq<Number> {
    Seq::new(s.len(), |i: int| s[i].number())
}

/// Whether every value of a sequence is well formed.
pub open spec fn all_wf(f: Format, xs: Seq<Number>) -> bool {
    forall|i: int| 0 <= i < xs.len() ==> (#[trigger] xs[i]).wf(f)
}

/// The values of a prefix, one longer, are those of the prefix and one more.
pub proof fn lemma_numbers_step<T: Float>(s: Seq<T>, i: int)
    requires
        0 <= i < s.len(),
    ensures
        numbers(s).take(i + 1).drop_last() == numbers(s).take(i),
        numbers(s).take(i + 1).last() == s[i].number(),
        numbers(s).take(i + 1).len() == i + 1,
        numbers(s).take(0).len() == 0,
        numbers(s).take(s.len() as int) == numbers(s),
{
    assert(numbers(s).take(i + 1).drop_last() =~= numbers(s).take(i));
    assert(numbers(s).take(s.len() as int) =~= numbers(s));
}

/// The values of bit patterns are well formed.
pub proof fn lemma_numbers_wf<T: Float>(s: Seq<T>)
    ensures
        all_wf(T::format(), numbers(s)),
{
    assert forall|i: int| 0 <= i < numbers(s).len() implies (#[trigger] numbers(s)[i]).wf(
        T::format(),
    ) by {
        s[i].lemma_wf();
    }
}

/// Every prefix of a sequence of well-formed values is one.
pub proof fn lemma_all_wf_front(f: Format, xs: Seq<Number>)
    requires
        all_wf(f, xs),
        xs.len() > 0,
    ensures
        all_wf(f, xs.drop_last()),
        xs.last().wf(f),
{
    let front = xs.drop_last();
    assert forall|i: int| 0 <= i < front.len() implies (#[trigger] front[i]).wf(f) by {
        assert(front[i] == xs[i]);
    }
}

} // verus!
