use vstd::prelude::*;

verus! {

/// The stake of one validator.
pub type WeightUnit = u64;

/// A sum of stakes. Wide enough for the stakes of every validator together.
pub type TotalWeight = u128;

/// The weight of a validator that holds no stake.
pub const ZERO: WeightUnit = 0;

} // verus!
