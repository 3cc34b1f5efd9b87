//! The three-way result of a comparison.

use vstd::prelude::*;

verus! {

/// Outcome of comparing a left operand with a right one.
#[derive(Clone, Copy, Debug, PartialEq, Eq, Structural)]
pub enum Order {
    Less,
    Equal,
    Greater,
}

impl Order {
    /// The outcome seen from the other side.
    pub open spec fn flip(self) -> Order {
        match self {
            Order::Less => Order::Greater,
            Order::Equal => Order::Equal,
            Order::Greater => Order::Less,
        }
    }

    /// Order of two mathematical integers.
    pub open spec fn of_ints(a: int, b: int) -> Order {
        if a < b {
            Order::Less
        } else if a == b {
            Order::Equal
        } else {
            Order::Greater
        }
    }

    /// Exchanges `Less` and `Greater`.
    pub fn reverse(self) -> (r: Order)
        ensures
            r == self.flip(),
    {
        match self {
            Order::Less => Order::Greater,
            Order::Equal => Order::Equal,
            Order::Greater => Order::Less,
        }
    }
}

} // verus!
