//! `==` on conditional plans.
use crate::plan::ConditionalPlan;
use vstd::prelude::*;
use vstd::std_specs::cmp::PartialEqSpecImpl;

verus! {

impl PartialEq for ConditionalPlan {
    /// Two plans are equal when they are the same plan: the actions agree
    /// and the subplans are equal, whatever values the plans have stored.
    fn eq(&self, other: &Self) -> (same: bool) {
        self.same_as(other)
    }
}

impl PartialEqSpecImpl for ConditionalPlan {
    open spec fn obeys_eq_spec() -> bool {
        true
    }

    open spec fn eq_spec(&self, other: &Self) -> bool {
        self@.same_plan(other@)
    }
}

} // verus!
