//! Order records and their priority orderings.

pub mod flat;
pub mod limit;
pub mod market;
