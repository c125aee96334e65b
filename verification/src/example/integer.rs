use crate::justification::LatestMsgsHonest;
use crate::message::Message;
use crate::message::MessageModel;
use crate::message::Validator;
use crate::senders_weight::weight_of;
use crate::senders_weight::SendersWeight;
use crate::traits::Estimate;
use crate::traits::EstimateError;
use crate::traits::Value;
use crate::weight_unit::TotalWeight;
use crate::weight_unit::WeightUnit;
use vstd::prelude::*;

verus! {

/// An estimate that is a plain number. Validators agree on the weighted median
/// of the numbers they vote for.
#[derive(Clone, Eq, Debug, Ord, PartialOrd, PartialEq, Hash, Structural)]
pub struct IntegerWrapper(u32);

/// A message whose estimate is a number.
pub type IntegerMsg = Message<IntegerWrapper>;

#[derive(Clone, Eq, Debug, Ord, PartialOrd, PartialEq, Hash)]
pub struct Tx;

impl View for IntegerWrapper {
    type V = u32;

    closed spec fn view(&self) -> u32 {
        self.0
    }
}

/// One vote as the estimator counts it: the number voted for, and the weight
/// of the validator that voted.
pub type Vote = (u32, WeightUnit);

/// The votes that the given latest messages stand for, in the same order. A
/// sender that the weights do not know votes with weight zero.
pub open spec fn votes(
    latest_msgs: Seq<MessageModel<u32>>,
    senders_weights: Map<Validator, WeightUnit>,
) -> Seq<Vote> {
    Seq::new(
        latest_msgs.len(),
        |i: int| (latest_msgs[i].estimate, weight_of(senders_weights, latest_msgs[i].sender)),
    )
}

/// The weight of all the votes together.
pub open spec fn total_weight(votes: Seq<Vote>) -> nat
    decreases votes.len(),
{
    if votes.len() == 0 {
        0
    } else {
        total_weight(votes.drop_last()) + votes.last().1 as nat
    }
}

/// The weight of the votes for a number that is at most `bound`.
pub open spec fn weight_up_to(votes: Seq<Vote>, bound: int) -> nat
    decreases votes.len(),
{
    if votes.len() == 0 {
        0
    } else if votes.last().0 <= bound {
        weight_up_to(votes.drop_last(), bound) + votes.last().1 as nat
    } else {
        weight_up_to(votes.drop_last(), bound)
    }
}

/// `v` is the lower weighted median of the votes: it was voted for, the votes
/// for numbers up to `v` carry at least half of the total weight, and those for
/// numbers below `v` carry less than half of it.
pub open spec fn is_weighted_median(votes: Seq<Vote>, v: u32) -> bool {
    &&& exists|i: int| 0 <= i < votes.len() && (#[trigger] votes[i]).0 == v
    &&& 2 * weight_up_to(votes, v as int) >= total_weight(votes)
    &&& forall|u: u32| u < v ==> 2 * #[trigger] weight_up_to(votes, u as int) < total_weight(votes)
}

/// The estimate that the weighted median gives: none without a message, none
/// where no vote carries weight, else the one number that is the lower
/// weighted median of the votes.
pub open spec fn weighted_median(
    latest_msgs: Seq<MessageModel<u32>>,
    senders_weights: Map<Validator, WeightUnit>,
) -> Result<u32, EstimateError> {
    let votes = votes(latest_msgs, senders_weights);
    if latest_msgs.len() == 0 {
        Err(EstimateError::NoMessage)
    } else if total_weight(votes) == 0 {
        Err(EstimateError::NoWeight)
    } else {
        Ok(choose|v: u32| is_weighted_median(votes, v))
    }
}

/// The votes are in ascending order of the numbers voted for.
pub open spec fn ascending(votes: Seq<Vote>) -> bool {
    forall|i: int, j: int| 0 <= i <= j < votes.len() ==> votes[i].0 <= votes[j].0
}

/// The votes of `part` all occur among `whole`.
pub open spec fn drawn_from(part: Seq<Vote>, whole: Seq<Vote>) -> bool {
    forall|i: int| 0 <= i < part.len() ==> whole.contains(#[trigger] part[i])
}

/// Votes for numbers up to `bound` never weigh more than all the votes.
pub proof fn lemma_weight_up_to_bounded(votes: Seq<Vote>, bound: int)
    ensures
        weight_up_to(votes, bound) <= total_weight(votes),
    decreases votes.len(),
{
    if votes.len() > 0 {
        lemma_weight_up_to_bounded(votes.drop_last(), bound);
    }
}

/// Where every vote is for a number up to `bound`, the votes up to `bound` are
/// all the votes.
pub proof fn lemma_weight_up_to_all(votes: Seq<Vote>, bound: int)
    requires
        forall|i: int| 0 <= i < votes.len() ==> (#[trigger] votes[i]).0 <= bound,
    ensures
        weight_up_to(votes, bound) == total_weight(votes),
    decreases votes.len(),
{
    if votes.len() > 0 {
        let front = votes.drop_last();
        assert forall|i: int| 0 <= i < front.len() implies (#[trigger] front[i]).0 <= bound by {
            assert(front[i] == votes[i]);
        }
        lemma_weight_up_to_all(front, bound);
    }
}

/// Where every vote is for a number above `bound`, no vote counts up to `bound`.
pub proof fn lemma_weight_up_to_none(votes: Seq<Vote>, bound: int)
    requires
        forall|i: int| 0 <= i < votes.len() ==> (#[trigger] votes[i]).0 > bound,
    ensures
        weight_up_to(votes, bound) == 0,
    decreases votes.len(),
{
    if votes.len() > 0 {
        let front = votes.drop_last();
        assert forall|i: int| 0 <= i < front.len() implies (#[trigger] front[i]).0 > bound by {
            assert(front[i] == votes[i]);
        }
        lemma_weight_up_to_none(front, bound);
    }
}

/// The weight up to `bound` of a sequence is that of its first `k` votes plus
/// that of the rest.
pub proof fn lemma_weight_up_to_split(votes: Seq<Vote>, k: int, bound: int)
    requires
        0 <= k <= votes.len(),
    ensures
        weight_up_to(votes, bound) == weight_up_to(votes.take(k), bound) + weight_up_to(
            votes.skip(k),
            bound,
        ),
    decreases votes.len() - k,
{
    if k == votes.len() {
        assert(votes.take(k) =~= votes);
        assert(votes.skip(k).len() == 0);
    } else {
        let front = votes.drop_last();
        lemma_weight_up_to_split(front, k, bound);
        assert(front.take(k) =~= votes.take(k));
        assert(votes.skip(k).drop_last() =~= front.skip(k));
        assert(votes.skip(k).last() == votes.last());
    }
}

/// Putting one more vote anywhere into a sequence adds that vote's weight to
/// the weight up to every bound that the vote is within.
pub proof fn lemma_weight_up_to_insert(votes: Seq<Vote>, at: int, vote: Vote, bound: int)
    requires
        0 <= at <= votes.len(),
    ensures
        weight_up_to(votes.insert(at, vote), bound) == weight_up_to(votes, bound) + (if vote.0
            <= bound {
            vote.1 as nat
        } else {
            0
        }),
    decreases votes.len() - at,
{
    let longer = votes.insert(at, vote);
    if at == votes.len() {
        assert(longer.drop_last() =~= votes);
        assert(longer.last() == vote);
    } else {
        lemma_weight_up_to_insert(votes.drop_last(), at, vote, bound);
        assert(longer.drop_last() =~= votes.drop_last().insert(at, vote));
        assert(longer.last() == votes.last());
    }
}

/// All the votes together weigh at most as much as that many votes of the
/// greatest weight.
pub proof fn lemma_total_weight_limit(votes: Seq<Vote>)
    ensures
        total_weight(votes) <= votes.len() * 0xffff_ffff_ffff_ffff,
    decreases votes.len(),
{
    if votes.len() > 0 {
        lemma_total_weight_limit(votes.drop_last());
        assert((votes.len() - 1) * 0xffff_ffff_ffff_ffff + 0xffff_ffff_ffff_ffff == votes.len()
            * 0xffff_ffff_ffff_ffff) by (nonlinear_arith);
    }
}

/// Two sequences that weigh the same up to every bound have the same total
/// weight.
pub proof fn lemma_same_total(a: Seq<Vote>, b: Seq<Vote>)
    requires
        forall|bound: int| weight_up_to(a, bound) == weight_up_to(b, bound),
    ensures
        total_weight(a) == total_weight(b),
{
    lemma_weight_up_to_all(a, 0xffff_ffff);
    lemma_weight_up_to_all(b, 0xffff_ffff);
}

/// In votes in ascending order, the vote at which the running weight first
/// reaches half of the total is for the weighted median.
pub proof fn lemma_median_at_crossing(sorted: Seq<Vote>, k: int)
    requires
        ascending(sorted),
        0 <= k < sorted.len(),
        2 * total_weight(sorted.take(k)) < total_weight(sorted),
        2 * total_weight(sorted.take(k + 1)) >= total_weight(sorted),
    ensures
        is_weighted_median(sorted, sorted[k].0),
{
    let v = sorted[k].0;
    lemma_weight_up_to_split(sorted, k + 1, v as int);
    assert forall|i: int| 0 <= i < sorted.take(k + 1).len() implies (#[trigger] sorted.take(
        k + 1,
    )[i]).0 <= v by {
        assert(sorted.take(k + 1)[i] == sorted[i]);
    }
    lemma_weight_up_to_all(sorted.take(k + 1), v as int);
    assert forall|u: u32| u < v implies 2 * #[trigger] weight_up_to(sorted, u as int)
        < total_weight(sorted) by {
        lemma_weight_up_to_split(sorted, k, u as int);
        assert forall|i: int| 0 <= i < sorted.skip(k).len() implies (#[trigger] sorted.skip(
            k,
        )[i]).0 > u by {
            assert(sorted.skip(k)[i] == sorted[k + i]);
        }
        lemma_weight_up_to_none(sorted.skip(k), u as int);
        lemma_weight_up_to_bounded(sorted.take(k), u as int);
    }
    assert(sorted[k].0 == v);
}

/// Whether a number is the weighted median depends only on which numbers were
/// voted for and on the weight up to every bound.
pub proof fn lemma_median_carries_over(a: Seq<Vote>, b: Seq<Vote>, v: u32)
    requires
        is_weighted_median(a, v),
        drawn_from(a, b),
        forall|bound: int| weight_up_to(a, bound) == weight_up_to(b, bound),
    ensures
        is_weighted_median(b, v),
{
    lemma_same_total(a, b);
    let i = choose|i: int| 0 <= i < a.len() && (#[trigger] a[i]).0 == v;
    assert(b.contains(a[i]));
    let j = choose|j: int| 0 <= j < b.len() && b[j] == a[i];
    assert(b[j].0 == v);
    assert forall|u: u32| u < v implies 2 * #[trigger] weight_up_to(b, u as int) < total_weight(
        b,
    ) by {
        assert(weight_up_to(a, u as int) == weight_up_to(b, u as int));
    }
}

/// There is at most one weighted median.
pub proof fn lemma_median_unique(votes: Seq<Vote>, v1: u32, v2: u32)
    requires
        is_weighted_median(votes, v1),
        is_weighted_median(votes, v2),
    ensures
        v1 == v2,
{
    if v1 < v2 {
        assert(2 * weight_up_to(votes, v1 as int) < total_weight(votes));
    }
    if v2 < v1 {
        assert(2 * weight_up_to(votes, v2 as int) < total_weight(votes));
    }
}

/// A wider bound takes in at least as much weight.
pub proof fn lemma_weight_up_to_monotone(votes: Seq<Vote>, lower: int, upper: int)
    requires
        lower <= upper,
    ensures
        weight_up_to(votes, lower) <= weight_up_to(votes, upper),
    decreases votes.len(),
{
    if votes.len() > 0 {
        lemma_weight_up_to_monotone(votes.drop_last(), lower, upper);
    }
}

/// Where nobody voted for `bound` itself, the votes up to `bound` are the votes
/// below it.
pub proof fn lemma_weight_up_to_gap(votes: Seq<Vote>, bound: int)
    requires
        forall|i: int| 0 <= i < votes.len() ==> (#[trigger] votes[i]).0 != bound,
    ensures
        weight_up_to(votes, bound) == weight_up_to(votes, bound - 1),
    decreases votes.len(),
{
    if votes.len() > 0 {
        let front = votes.drop_last();
        assert forall|i: int| 0 <= i < front.len() implies (#[trigger] front[i]).0 != bound by {
            assert(front[i] == votes[i]);
        }
        lemma_weight_up_to_gap(front, bound);
        assert(votes[votes.len() - 1].0 != bound);
    }
}

proof fn lemma_least_bound(votes: Seq<Vote>, upper: nat) -> (least: nat)
    requires
        2 * weight_up_to(votes, upper as int) >= total_weight(votes),
    ensures
        least <= upper,
        2 * weight_up_to(votes, least as int) >= total_weight(votes),
        forall|u: int| 0 <= u < least ==> 2 * #[trigger] weight_up_to(votes, u) < total_weight(votes),
    decreases upper,
{
    if upper > 0 && 2 * weight_up_to(votes, upper - 1) >= total_weight(votes) {
        lemma_least_bound(votes, (upper - 1) as nat)
    } else {
        assert forall|u: int| 0 <= u < upper implies 2 * #[trigger] weight_up_to(votes, u)
            < total_weight(votes) by {
            lemma_weight_up_to_monotone(votes, u, upper - 1);
        }
        upper
    }
}

/// Votes that carry weight have a weighted median.
pub proof fn lemma_median_exists(votes: Seq<Vote>)
    requires
        total_weight(votes) > 0,
    ensures
        exists|v: u32| is_weighted_median(votes, v),
{
    lemma_weight_up_to_all(votes, 0xffff_ffff);
    let least = lemma_least_bound(votes, 0xffff_ffff);
    let v = least as u32;
    if forall|i: int| 0 <= i < votes.len() ==> (#[trigger] votes[i]).0 != v {
        if v == 0 {
            lemma_weight_up_to_none(votes, 0);
        } else {
            lemma_weight_up_to_gap(votes, v as int);
        }
        assert(false);
    }
    assert forall|u: u32| u < v implies 2 * #[trigger] weight_up_to(votes, u as int)
        < total_weight(votes) by {
        assert(0 <= u as int && (u as int) < least);
    }
    assert(is_weighted_median(votes, v));
}

/// The weight up to a bound does not depend on the order in which the latest
/// messages stand.
pub proof fn lemma_weight_up_to_any_order(
    a: Seq<MessageModel<u32>>,
    b: Seq<MessageModel<u32>>,
    senders_weights: Map<Validator, WeightUnit>,
    bound: int,
)
    requires
        a.to_multiset() == b.to_multiset(),
    ensures
        weight_up_to(votes(a, senders_weights), bound) == weight_up_to(
            votes(b, senders_weights),
            bound,
        ),
    decreases a.len(),
{
    a.to_multiset_ensures();
    b.to_multiset_ensures();
    if a.len() > 0 {
        let x = a.last();
        let vote: Vote = (x.estimate, weight_of(senders_weights, x.sender));
        assert(a[a.len() - 1] == x);
        assert(a.contains(x));
        assert(b.to_multiset().count(x) > 0);
        assert(b.contains(x));
        let j = choose|j: int| 0 <= j < b.len() && b[j] == x;
        let front = a.drop_last();
        let rest = b.remove(j);
        assert(front =~= a.remove(a.len() - 1));
        assert(front.to_multiset() =~= rest.to_multiset());
        lemma_weight_up_to_any_order(front, rest, senders_weights, bound);
        assert(votes(a, senders_weights).drop_last() =~= votes(front, senders_weights));
        assert(votes(a, senders_weights).last() == vote);
        assert(votes(b, senders_weights) =~= votes(rest, senders_weights).insert(j, vote));
        lemma_weight_up_to_insert(votes(rest, senders_weights), j, vote, bound);
    }
}

/// The estimate does not depend on the order in which the latest messages
/// stand: it is the same for any two arrangements of the same messages.
pub proof fn lemma_estimate_any_order(
    a: Seq<MessageModel<u32>>,
    b: Seq<MessageModel<u32>>,
    senders_weights: Map<Validator, WeightUnit>,
)
    requires
        a.to_multiset() == b.to_multiset(),
    ensures
        weighted_median(a, senders_weights) == weighted_median(b, senders_weights),
{
    a.to_multiset_ensures();
    b.to_multiset_ensures();
    let va = votes(a, senders_weights);
    let vb = votes(b, senders_weights);
    assert forall|bound: int| weight_up_to(va, bound) == weight_up_to(vb, bound) by {
        lemma_weight_up_to_any_order(a, b, senders_weights, bound);
    }
    lemma_same_total(va, vb);
    if a.len() > 0 && total_weight(va) > 0 {
        assert forall|i: int| 0 <= i < va.len() implies vb.contains(#[trigger] va[i]) by {
            assert(a.contains(a[i]));
            assert(b.to_multiset().count(a[i]) > 0);
            let k = choose|k: int| 0 <= k < b.len() && b[k] == a[i];
            assert(vb[k] == va[i]);
        }
        lemma_median_exists(va);
        let chosen = choose|v: u32| is_weighted_median(va, v);
        lemma_median_carries_over(va, vb, chosen);
        lemma_median_unique(vb, choose|v: u32| is_weighted_median(vb, v), chosen);
    }
}

/// A single vote of nonzero weight decides: with exactly one latest message,
/// whose sender carries weight, the estimate is that message's number,
/// whatever the weight is.
pub proof fn lemma_single_voter(msg: MessageModel<u32>, senders_weights: Map<Validator, WeightUnit>)
    requires
        weight_of(senders_weights, msg.sender) > 0,
    ensures
        weighted_median(seq![msg], senders_weights) == Ok::<u32, EstimateError>(msg.estimate),
{
    let all = votes(seq![msg], senders_weights);
    assert(all.len() == 1);
    assert(all[0] == (msg.estimate, weight_of(senders_weights, msg.sender)));
    assert(total_weight(all.drop_last()) == 0);
    assert(total_weight(all) == weight_of(senders_weights, msg.sender));
    assert(weight_up_to(all.drop_last(), msg.estimate as int) == 0);
    assert(weight_up_to(all, msg.estimate as int) == total_weight(all));
    assert forall|u: u32| u < msg.estimate implies 2 * #[trigger] weight_up_to(all, u as int)
        < total_weight(all) by {
        assert(weight_up_to(all.drop_last(), u as int) == 0);
        assert(weight_up_to(all, u as int) == 0);
    }
    assert(is_weighted_median(all, msg.estimate));
    lemma_median_unique(all, choose|v: u32| is_weighted_median(all, v), msg.estimate);
}

/// A single vote without weight decides nothing: with exactly one latest
/// message, whose sender is unknown or carries no weight, there is no
/// estimate.
pub proof fn lemma_single_voter_without_weight(
    msg: MessageModel<u32>,
    senders_weights: Map<Validator, WeightUnit>,
)
    requires
        weight_of(senders_weights, msg.sender) == 0,
    ensures
        weighted_median(seq![msg], senders_weights) == Err::<u32, EstimateError>(
            EstimateError::NoWeight,
        ),
{
    let all = votes(seq![msg], senders_weights);
    assert(all.len() == 1);
    assert(all[0] == (msg.estimate, weight_of(senders_weights, msg.sender)));
    assert(total_weight(all.drop_last()) == 0);
    assert(total_weight(all) == weight_of(senders_weights, msg.sender));
}

/// Puts `vote` into `sorted` at its place in the ascending order.
fn insert_ascending(sorted: &mut Vec<Vote>, vote: Vote)
    requires
        ascending(old(sorted)@),
    ensures
        ascending(final(sorted)@),
        exists|at: int|
            0 <= at <= old(sorted)@.len() && final(sorted)@ == #[trigger] old(sorted)@.insert(
                at,
                vote,
            ),
{
    let n = sorted.len();
    let mut at: usize = 0;
    while at < n && sorted[at].0 <= vote.0
        invariant
            0 <= at <= n,
            n == sorted.len(),
            sorted@ == old(sorted)@,
            forall|k: int| 0 <= k < at ==> sorted[k].0 <= vote.0,
        decreases n - at,
    {
        at += 1;
    }
    let ghost before = sorted@;
    sorted.insert(at, vote);
    assert forall|i: int, j: int| 0 <= i <= j < sorted@.len() implies sorted@[i].0
        <= sorted@[j].0 by {
        if i < at && j > at {
            assert(sorted@[i] == before[i]);
            assert(sorted@[j] == before[j - 1]);
        }
    }
}

/// The votes of the given messages, in ascending order of the numbers voted
/// for.
fn votes_ascending(latest_msgs: &Vec<IntegerMsg>, senders_weights: &SendersWeight) -> (sorted:
    Vec<Vote>)
    ensures
        ascending(sorted@),
        sorted@.len() == latest_msgs@.len(),
        drawn_from(sorted@, votes(crate::message::models(latest_msgs@), senders_weights@)),
        forall|bound: int|
            weight_up_to(sorted@, bound) == weight_up_to(
                votes(crate::message::models(latest_msgs@), senders_weights@),
                bound,
            ),
{
    let ghost all = votes(crate::message::models(latest_msgs@), senders_weights@);
    let n = latest_msgs.len();
    let mut sorted: Vec<Vote> = Vec::new();
    let mut k: usize = 0;
    assert(all.take(0) =~= Seq::<Vote>::empty());
    while k < n
        invariant
            0 <= k <= n,
            n == latest_msgs.len(),
            all == votes(crate::message::models(latest_msgs@), senders_weights@),
            sorted@.len() == k,
            ascending(sorted@),
            drawn_from(sorted@, all),
            forall|bound: int| weight_up_to(sorted@, bound) == weight_up_to(all.take(k as int), bound),
        decreases n - k,
    {
        let msg = &latest_msgs[k];
        let vote: Vote = (msg.estimate().0, senders_weights.weight_or_zero(msg.sender()));
        assert(vote == all[k as int]);
        let ghost before = sorted@;
        insert_ascending(&mut sorted, vote);
        proof {
            let at = choose|at: int|
                0 <= at <= before.len() && sorted@ == #[trigger] before.insert(at, vote);
            assert(all.take(k + 1) =~= all.take(k as int).push(vote));
            assert(all.take(k + 1).drop_last() =~= all.take(k as int));
            assert forall|bound: int|
                weight_up_to(sorted@, bound) == weight_up_to(all.take(k + 1), bound) by {
                lemma_weight_up_to_insert(before, at, vote, bound);
            }
            assert forall|i: int| 0 <= i < sorted@.len() implies all.contains(
                #[trigger] sorted@[i],
            ) by {
                if i < at {
                    assert(sorted@[i] == before[i]);
                } else if i > at {
                    assert(sorted@[i] == before[i - 1]);
                }
            }
        }
        k += 1;
    }
    assert(all.take(n as int) =~= all);
    sorted
}

impl IntegerWrapper {
    pub fn new(estimate: u32) -> (wrapped: Self)
        ensures
            wrapped@ == estimate,
    {
        IntegerWrapper(estimate)
    }

    /// The number that this estimate stands for.
    pub fn value(&self) -> (estimate: u32)
        ensures
            estimate == self@,
    {
        self.0
    }
}

impl Value for IntegerWrapper {
    fn same(&self, other: &Self) -> (b: bool) {
        self.0 == other.0
    }

    fn duplicate(&self) -> (copy: Self) {
        IntegerWrapper(self.0)
    }
}

/// The goal here is to find the weighted median of all the values.
impl Estimate for IntegerWrapper {
    open spec fn estimate_of(
        latest_msgs: Seq<MessageModel<u32>>,
        senders_weights: Map<Validator, WeightUnit>,
    ) -> Result<u32, EstimateError> {
        weighted_median(latest_msgs, senders_weights)
    }

    fn mk_estimate(latest_msgs: &LatestMsgsHonest<Self>, senders_weights: &SendersWeight) -> (r:
        Result<Self, EstimateError>)
        ensures
            r matches Ok(e) ==> is_weighted_median(votes(latest_msgs@, senders_weights@), e@),
            r matches Err(EstimateError::NoWeight) ==> latest_msgs@.len() > 0 && total_weight(
                votes(latest_msgs@, senders_weights@),
            ) == 0,
            r matches Err(EstimateError::NoMessage) ==> latest_msgs@.len() == 0,
    {
        let msgs = latest_msgs.messages();
        let n = msgs.len();
        if n == 0 {
            return Err(EstimateError::NoMessage);
        }
        let ghost all = votes(latest_msgs@, senders_weights@);
        // Since the votes come in the order of the numbers voted for, the number
        // at which half of the total weight is reached is the consensus.
        let msgs_sorted_by_estimate = votes_ascending(msgs, senders_weights);
        let ghost sorted = msgs_sorted_by_estimate@;

        // The total weight of the senders of the messages.
        let mut total_weight: TotalWeight = 0;
        let mut i: usize = 0;
        assert(sorted.take(0) =~= Seq::<Vote>::empty());
        while i < n
            invariant
                0 <= i <= n,
                n == sorted.len(),
                sorted == msgs_sorted_by_estimate@,
                total_weight == self::total_weight(sorted.take(i as int)),
            decreases n - i,
        {
            proof {
                lemma_total_weight_limit(sorted.take(i as int));
                assert(sorted.take(i + 1).drop_last() =~= sorted.take(i as int));
                assert(i * 0xffff_ffff_ffff_ffff + 0xffff_ffff_ffff_ffff
                    <= 0xffff_ffff_ffff_ffff_ffff_ffff_ffff_ffff) by (nonlinear_arith)
                    requires
                        0 <= i < 0xffff_ffff_ffff_ffff,
                ;
            }
            total_weight = total_weight + msgs_sorted_by_estimate[i].1 as TotalWeight;
            i += 1;
        }
        proof {
            assert(sorted.take(n as int) =~= sorted);
            lemma_same_total(sorted, all);
        }
        if total_weight == 0 {
            return Err(EstimateError::NoWeight);
        }
        let mut running_weight: TotalWeight = 0;
        let mut k: usize = 0;
        while k < n
            invariant
                0 <= k <= n,
                n == sorted.len(),
                sorted == msgs_sorted_by_estimate@,
                ascending(sorted),
                drawn_from(sorted, all),
                forall|bound: int| weight_up_to(sorted, bound) == weight_up_to(all, bound),
                all == votes(latest_msgs@, senders_weights@),
                n == latest_msgs@.len(),
                total_weight == self::total_weight(sorted),
                total_weight > 0,
                running_weight == self::total_weight(sorted.take(k as int)),
                2 * running_weight < total_weight,
            decreases n - k,
        {
            proof {
                assert(sorted.take(k + 1).drop_last() =~= sorted.take(k as int));
                lemma_weight_up_to_split(sorted, k + 1, 0xffff_ffff);
                lemma_weight_up_to_all(sorted, 0xffff_ffff);
                lemma_weight_up_to_all(sorted.take(k + 1), 0xffff_ffff);
            }
            running_weight = running_weight + msgs_sorted_by_estimate[k].1 as TotalWeight;
            if running_weight >= total_weight - running_weight {
                let estimate = msgs_sorted_by_estimate[k].0;
                proof {
                    lemma_median_at_crossing(sorted, k as int);
                    lemma_median_carries_over(sorted, all, estimate);
                    lemma_same_total(sorted, all);
                    let chosen = choose|v: u32| is_weighted_median(all, v);
                    lemma_median_unique(all, chosen, estimate);
                }
                return Ok(IntegerWrapper(estimate));
            }
            k += 1;
        }
        proof {
            assert(sorted.take(n as int) =~= sorted);
            assert(false);
        }
        Err(EstimateError::NoMessage)
    }
}

} // verus!
