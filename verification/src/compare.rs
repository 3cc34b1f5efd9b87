//! The operators `==` and `<` on values.

use crate::json::{equal, order, Json};
use crate::order::Order;
use crate::property::Property;
use core::cmp::Ordering;
use vstd::prelude::*;
use vstd::std_specs::cmp::{PartialEqSpecImpl, PartialOrdSpecImpl};

verus! {

impl PartialEq for Json {
    fn eq(&self, other: &Json) -> (r: bool) {
        self.equals(other)
    }
}

impl PartialEqSpecImpl for Json {
    open spec fn obeys_eq_spec() -> bool {
        true
    }

    /// `==` is the equality of values.
    open spec fn eq_spec(&self, other: &Json) -> bool {
        equal(self@, other@)
    }
}

impl PartialEq for Property {
    fn eq(&self, other: &Property) -> (r: bool) {
        self.key == other.key && self.value.equals(&other.value)
    }
}

impl PartialEqSpecImpl for Property {
    open spec fn obeys_eq_spec() -> bool {
        true
    }

    /// Two properties are equal when their keys are the same and their
    /// values are equal.
    open spec fn eq_spec(&self, other: &Property) -> bool {
        self.key@ == other.key@ && equal(self.value@, other.value@)
    }
}

/// The outcome of a comparison in the terms of the standard library.
pub open spec fn standard(o: Option<Order>) -> Option<Ordering> {
    match o {
        Some(Order::Less) => Some(Ordering::Less),
        Some(Order::Equal) => Some(Ordering::Equal),
        Some(Order::Greater) => Some(Ordering::Greater),
        None => None,
    }
}

impl PartialOrd for Json {
    fn partial_cmp(&self, other: &Json) -> (r: Option<Ordering>) {
        match self.compare(other) {
            Some(Order::Less) => Some(Ordering::Less),
            Some(Order::Equal) => Some(Ordering::Equal),
            Some(Order::Greater) => Some(Ordering::Greater),
            None => None,
        }
    }
}

impl PartialOrdSpecImpl for Json {
    open spec fn obeys_partial_cmp_spec() -> bool {
        true
    }

    /// `<` and its kin go by the total order of values.
    open spec fn partial_cmp_spec(&self, other: &Json) -> Option<Ordering> {
        standard(order(self@, other@))
    }
}

} // verus!
