//! The standard comparison traits for variables and state sets, which
//! order by specificity.
use vstd::prelude::*;
use core::cmp::Ordering;
use crate::var::{Var, Order, var_order};
use crate::state_set::{StateSet, state_order};

verus! {

/// The standard ordering that corresponds to a specificity order.
pub open spec fn to_std(o: Option<Order>) -> Option<Ordering> {
    match o {
        Some(Order::Less) => Some(Ordering::Less),
        Some(Order::Equal) => Some(Ordering::Equal),
        Some(Order::Greater) => Some(Ordering::Greater),
        None => None,
    }
}

fn convert(o: Option<Order>) -> (r: Option<Ordering>)
    ensures
        r == to_std(o),
{
    match o {
        Some(Order::Less) => Some(Ordering::Less),
        Some(Order::Equal) => Some(Ordering::Equal),
        Some(Order::Greater) => Some(Ordering::Greater),
        None => None,
    }
}

impl PartialOrd for Var {
    fn partial_cmp(&self, other: &Self) -> (r: Option<Ordering>) {
        convert(self.order(*other))
    }
}

impl vstd::std_specs::cmp::PartialOrdSpecImpl for Var {
    open spec fn obeys_partial_cmp_spec() -> bool {
        true
    }

    open spec fn partial_cmp_spec(&self, other: &Self) -> Option<Ordering> {
        to_std(var_order(*self, *other))
    }
}

impl PartialEq for StateSet {
    fn eq(&self, other: &Self) -> (r: bool) {
        self.same_as(other)
    }
}

impl vstd::std_specs::cmp::PartialEqSpecImpl for StateSet {
    open spec fn obeys_eq_spec() -> bool {
        true
    }

    open spec fn eq_spec(&self, other: &Self) -> bool {
        self@ == other@
    }
}

impl PartialOrd for StateSet {
    fn partial_cmp(&self, rhs: &Self) -> (r: Option<Ordering>) {
        convert(self.compare(rhs))
    }
}

impl vstd::std_specs::cmp::PartialOrdSpecImpl for StateSet {
    open spec fn obeys_partial_cmp_spec() -> bool {
        true
    }

    open spec fn partial_cmp_spec(&self, other: &Self) -> Option<Ordering> {
        to_std(state_order(self@, other@))
    }
}

} // verus!
