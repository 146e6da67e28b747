//! The operator `==` on values and accumulators: equality as IEEE 754 has
//! it, under which a NaN equals nothing and the two zeros are equal.

use crate::binary32::Binary32;
use crate::binary64::Binary64;
use crate::float::Float;
use crate::kahan::KahanBabuska;
use crate::neumaier::KahanBabuskaNeumaier;
use vstd::prelude::*;
use vstd::std_specs::cmp::PartialEqSpecImpl;

verus! {

impl PartialEq for Binary64 {
    fn eq(&self, other: &Binary64) -> (r: bool) {
        self.equals(*other)
    }
}

impl PartialEqSpecImpl for Binary64 {
    open spec fn obeys_eq_spec() -> bool {
        true
    }

    open spec fn eq_spec(&self, other: &Binary64) -> bool {
        self@.equals(other@)
    }
}

impl PartialEq for Binary32 {
    fn eq(&self, other: &Binary32) -> (r: bool) {
        self.equals(*other)
    }
}

impl PartialEqSpecImpl for Binary32 {
    open spec fn obeys_eq_spec() -> bool {
        true
    }

    open spec fn eq_spec(&self, other: &Binary32) -> bool {
        self@.equals(other@)
    }
}

impl<T: Float> PartialEq for KahanBabuska<T> {
    fn eq(&self, other: &KahanBabuska<T>) -> (r: bool) {
        self.sum.equals(other.sum) && self.comp.equals(other.comp)
    }
}

impl<T: Float> PartialEqSpecImpl for KahanBabuska<T> {
    open spec fn obeys_eq_spec() -> bool {
        true
    }

    open spec fn eq_spec(&self, other: &KahanBabuska<T>) -> bool {
        self@.sum.equals(other@.sum) && self@.comp.equals(other@.comp)
    }
}

impl<T: Float> PartialEq for KahanBabuskaNeumaier<T> {
    fn eq(&self, other: &KahanBabuskaNeumaier<T>) -> (r: bool) {
        self.sum.equals(other.sum) && self.comp.equals(other.comp)
    }
}

impl<T: Float> PartialEqSpecImpl for KahanBabuskaNeumaier<T> {
    open spec fn obeys_eq_spec() -> bool {
        true
    }

    open spec fn eq_spec(&self, other: &KahanBabuskaNeumaier<T>) -> bool {
        self@.sum.equals(other@.sum) && self@.comp.equals(other@.comp)
    }
}

} // verus!
