use crate::message::Validator;
use crate::weight_unit::WeightUnit;
use std::collections::HashMap;
use vstd::prelude::*;

verus! {

broadcast use vstd::std_specs::hash::group_hash_axioms;

/// The stake table: which validators are known, and with what weight.
/// It is fixed once built.
pub struct SendersWeight {
    weights: HashMap<Validator, WeightUnit>,
}

impl View for SendersWeight {
    type V = Map<Validator, WeightUnit>;

    closed spec fn view(&self) -> Map<Validator, WeightUnit> {
        self.weights@
    }
}

/// The weight that a validator counts with: its stake, or nothing where the
/// table does not know it.
pub open spec fn weight_of(weights: Map<Validator, WeightUnit>, sender: Validator) -> WeightUnit {
    if weights.contains_key(sender) {
        weights[sender]
    } else {
        0
    }
}

impl SendersWeight {
    pub fn new(senders_weight: HashMap<Validator, WeightUnit>) -> (table: Self)
        ensures
            table@ == senders_weight@,
    {
        SendersWeight { weights: senders_weight }
    }

    /// The stake of `sender`, if the table knows that validator.
    pub fn weight(&self, sender: Validator) -> (found: Option<WeightUnit>)
        ensures
            found == (if self@.contains_key(sender) {
                Some(self@[sender])
            } else {
                None
            }),
    {
        match self.weights.get(&sender) {
            Some(w) => Some(*w),
            None => None,
        }
    }

    /// The stake of `sender`, counting an unknown validator as zero.
    pub fn weight_or_zero(&self, sender: Validator) -> (w: WeightUnit)
        ensures
            w == weight_of(self@, sender),
    {
        match self.weights.get(&sender) {
            Some(w) => *w,
            None => crate::weight_unit::ZERO,
        }
    }
}

impl Clone for SendersWeight {
    fn clone(&self) -> (copy: Self)
        ensures
            copy@ == self@,
    {
        SendersWeight { weights: self.weights.clone() }
    }
}

} // verus!
