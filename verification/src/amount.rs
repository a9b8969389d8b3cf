//! The integer money type used by prices and settlements.

use vstd::prelude::*;

verus! {

/// An amount of money, counted in the smallest currency unit ("cents").
/// Negative values appear only as transient deltas; valid prices are
/// strictly positive.
#[derive(Copy, Clone, Debug, Eq, Hash, PartialEq, PartialOrd, Ord)]
pub struct Amount {
    pub as_int: i64,
}

impl Amount {
    /// The zero amount.
    pub fn new() -> (r: Self)
        ensures
            r.as_int == 0,
    {
        Amount { as_int: 0 }
    }

    /// Sum of two amounts.
    pub fn add(self, rhs: Self) -> (r: Self)
        requires
            i64::MIN <= self.as_int + rhs.as_int <= i64::MAX,
        ensures
            r.as_int == self.as_int + rhs.as_int,
    {
        Amount { as_int: self.as_int + rhs.as_int }
    }

    /// Difference of two amounts.
    pub fn sub(self, rhs: Self) -> (r: Self)
        requires
            i64::MIN <= self.as_int - rhs.as_int <= i64::MAX,
        ensures
            r.as_int == self.as_int - rhs.as_int,
    {
        Amount { as_int: self.as_int - rhs.as_int }
    }

    /// An amount scaled by an order size.
    pub fn mul(self, rhs: i64) -> (r: Self)
        requires
            i64::MIN <= self.as_int * rhs <= i64::MAX,
        ensures
            r.as_int == self.as_int * rhs,
    {
        Amount { as_int: self.as_int * rhs }
    }
}

impl Default for Amount {
    fn default() -> (r: Self)
        ensures
            r.as_int == 0,
    {
        Self::new()
    }
}

} // verus!
