use crate::justification::LatestMsgsHonest;
use crate::message::MessageModel;
use crate::message::Validator;
use crate::senders_weight::SendersWeight;
use crate::weight_unit::WeightUnit;
use vstd::prelude::*;

verus! {

/// Why no estimate could be derived.
#[derive(Clone, Copy, Debug, PartialEq, Eq, Structural)]
pub enum EstimateError {
    /// There is no latest honest message to derive an estimate from.
    NoMessage,
    /// None of the senders of the latest honest messages carries any weight.
    NoWeight,
}

impl EstimateError {
    /// A short description of the condition.
    pub fn as_str(&self) -> (text: &'static str)
        ensures
            text@ == (match *self {
                EstimateError::NoMessage => "no msg"@,
                EstimateError::NoWeight => "no weight"@,
            }),
    {
        match self {
            EstimateError::NoMessage => "no msg",
            EstimateError::NoWeight => "no weight",
        }
    }
}

/// The view of what `mk_estimate` returned.
pub open spec fn outcome<E: View>(r: Result<E, EstimateError>) -> Result<E::V, EstimateError> {
    match r {
        Ok(e) => Ok(e@),
        Err(x) => Err(x),
    }
}

/// Something that a message can carry: it can be compared and copied, and what
/// it is shows in its view.
pub trait Value: Sized + View {
    /// Whether two values are the same.
    fn same(&self, other: &Self) -> (b: bool)
        ensures
            b == (self@ == other@),
    ;

    /// A copy of this value.
    fn duplicate(&self) -> (copy: Self)
        ensures
            copy@ == self@,
    ;
}

/// A consensus value: something that validators vote on, and that can be
/// derived again from the latest honest votes and the validators' weights.
pub trait Estimate: Value {
    /// The estimate that follows from the given latest honest messages under the
    /// given weights. It depends on nothing else.
    spec fn estimate_of(
        latest_msgs: Seq<MessageModel<Self::V>>,
        senders_weights: Map<Validator, WeightUnit>,
    ) -> Result<Self::V, EstimateError>;

    /// Derives the estimate from the latest honest messages. Fails with
    /// `NoMessage` where there is none.
    fn mk_estimate(latest_msgs: &LatestMsgsHonest<Self>, senders_weights: &SendersWeight) -> (r:
        Result<Self, EstimateError>)
        ensures
            outcome(r) == Self::estimate_of(latest_msgs@, senders_weights@),
            latest_msgs@.len() == 0 ==> outcome(r) == Err::<Self::V, EstimateError>(
                EstimateError::NoMessage,
            ),
    ;
}

} // verus!
