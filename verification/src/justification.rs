use crate::lemmas::lemma_honest_one_per_validator;
use crate::lemmas::lemma_latest_of;
use crate::message::clone_msgs;
use crate::message::contains_msg;
use crate::message::depends_on;
use crate::message::models;
pub use crate::message::Justification;
use crate::message::Message;
use crate::message::MessageModel;
use crate::message::Validator;
use crate::message::distinct;
use crate::senders_weight::weight_of;
use crate::senders_weight::SendersWeight;
use crate::weight_unit::TotalWeight;
use crate::weight_unit::WeightUnit;
use crate::traits::outcome;
use crate::traits::Estimate;
use crate::traits::EstimateError;
use crate::traits::Value;
use std::collections::HashSet;
use vstd::prelude::*;

verus! {

broadcast use vstd::std_specs::hash::group_hash_axioms;

/// `a` is a later message of the validator that cast `b`.
pub open spec fn supersedes<V>(a: MessageModel<V>, b: MessageModel<V>) -> bool {
    a.sender == b.sender && depends_on(a, b)
}

/// `a` stands for `b`: it is `b`, or a later message of the same validator.
pub open spec fn covers<V>(a: MessageModel<V>, b: MessageModel<V>) -> bool {
    a.sender == b.sender && (a == b || depends_on(a, b))
}

/// One of the messages of `latest` stands for `msg`.
pub open spec fn covered<V>(latest: Seq<MessageModel<V>>, msg: MessageModel<V>) -> bool {
    exists|i: int| 0 <= i < latest.len() && covers(#[trigger] latest[i], msg)
}

/// The test that a message passes unless `msg` supersedes it.
pub open spec fn not_superseded_by<V>(msg: MessageModel<V>) -> spec_fn(MessageModel<V>) -> bool {
    |old: MessageModel<V>| !supersedes(msg, old)
}

/// The test that the messages of `sender` pass.
pub open spec fn cast_by<V>(sender: Validator) -> spec_fn(MessageModel<V>) -> bool {
    |m: MessageModel<V>| m.sender == sender
}

/// The latest messages after `msg` has been seen. Where a message of `latest`
/// stands for `msg`, nothing changes. Otherwise `msg` takes the place of the
/// messages it supersedes, at the end.
pub open spec fn updated<V>(latest: Seq<MessageModel<V>>, msg: MessageModel<V>) -> Seq<
    MessageModel<V>,
> {
    if covered(latest, msg) {
        latest
    } else {
        latest.filter(not_superseded_by(msg)).push(msg)
    }
}

/// The latest messages after the messages of `msgs` have been seen, one after
/// the other.
pub open spec fn observed<V>(latest: Seq<MessageModel<V>>, msgs: Seq<MessageModel<V>>) -> Seq<
    MessageModel<V>,
>
    decreases msgs.len(),
{
    if msgs.len() == 0 {
        latest
    } else {
        updated(observed(latest, msgs.drop_last()), msgs.last())
    }
}

/// The latest messages of a justification.
pub open spec fn latest_of<V>(msgs: Seq<MessageModel<V>>) -> Seq<MessageModel<V>> {
    observed(Seq::empty(), msgs)
}

/// How many of the messages were cast by `sender`.
pub open spec fn count_from<V>(latest: Seq<MessageModel<V>>, sender: Validator) -> nat {
    latest.filter(cast_by(sender)).len()
}

/// The test that a latest message passes where its sender is not a known
/// equivocator and has no other latest message.
pub open spec fn is_honest<V>(latest: Seq<MessageModel<V>>, equivocators: Set<Validator>) -> spec_fn(
    MessageModel<V>,
) -> bool {
    |m: MessageModel<V>| !equivocators.contains(m.sender) && count_from(latest, m.sender) == 1
}

/// The latest messages of the honest validators: those whose sender is not a
/// known equivocator and has exactly one latest message.
pub open spec fn honest<V>(latest: Seq<MessageModel<V>>, equivocators: Set<Validator>) -> Seq<
    MessageModel<V>,
> {
    latest.filter(is_honest(latest, equivocators))
}

/// `m` is a latest message among `msgs`: it is one of them, and none of them
/// is a later message of the same validator.
pub open spec fn is_latest_among<V>(msgs: Seq<MessageModel<V>>, m: MessageModel<V>) -> bool {
    msgs.contains(m) && forall|i: int| 0 <= i < msgs.len() ==> !supersedes(#[trigger] msgs[i], m)
}

/// Filtering keeps a sequence free of repetitions.
pub proof fn lemma_filter_keeps_distinct<A>(s: Seq<A>, pred: spec_fn(A) -> bool)
    requires
        s.no_duplicates(),
    ensures
        s.filter(pred).no_duplicates(),
    decreases s.len(),
{
    reveal(Seq::filter);
    if s.len() > 0 {
        let front = s.drop_last();
        lemma_filter_keeps_distinct(front, pred);
        if pred(s.last()) {
            if front.filter(pred).contains(s.last()) {
                front.lemma_filter_contains_rev(pred, s.last());
                let i = choose|i: int| 0 <= i < front.len() && front[i] == s.last();
                assert(s[i] == s[s.len() - 1]);
            }
        }
    }
}

/// A copy of a set of validators.
fn copy_of(validators: &HashSet<Validator>) -> (copy: HashSet<Validator>)
    ensures
        copy@ == validators@,
{
    let mut copy: HashSet<Validator> = HashSet::new();
    for v in iter: validators.iter()
        invariant
            iter.seq().unref().to_set() == validators@,
            forall|x: Validator|
                copy@.contains(x) <==> exists|k: int|
                    0 <= k < iter.index() && (#[trigger] iter.seq().unref()[k]) == x,
            iter.index() == iter.seq().len() ==> copy@ == validators@,
    {
        copy.insert(*v);
        assert(iter.seq().unref()[iter.index()] == *v);
        assert(iter.index() + 1 == iter.seq().len() ==> copy@ =~= validators@) by {
            assert forall|x: Validator|
                iter.index() + 1 == iter.seq().len() && iter.seq().unref().contains(
                    x,
                ) implies copy@.contains(x) by {
                let k = choose|k: int|
                    0 <= k < iter.seq().unref().len() && iter.seq().unref()[k] == x;
                assert(iter.seq().unref()[k] == x);
            }
        }
    }
    copy
}

/// The latest messages of the validators, as far as they have been seen: for
/// each validator the messages of which no later one is known. A validator
/// with more than one latest message has equivocated.
pub struct LatestMsgs<E: View>(Vec<Message<E>>);

impl<E: View> View for LatestMsgs<E> {
    type V = Seq<MessageModel<E::V>>;

    closed spec fn view(&self) -> Seq<MessageModel<E::V>> {
        models(self.0@)
    }
}

impl<E: View> LatestMsgs<E> {
    #[verifier::type_invariant]
    spec fn each_once(self) -> bool {
        self@.no_duplicates()
    }
}

/// Whether one of `latest` stands for `msg`.
fn is_covered<E: Value>(latest: &Vec<Message<E>>, msg: &Message<E>) -> (found: bool)
    ensures
        found == covered(models(latest@), msg@),
{
    let n = latest.len();
    let mut i: usize = 0;
    while i < n
        invariant
            0 <= i <= n,
            n == latest.len(),
            forall|k: int| 0 <= k < i ==> !covers(#[trigger] models(latest@)[k], msg@),
        decreases n - i,
    {
        let old = &latest[i];
        if old.sender() == msg.sender() && (old.same(msg) || old.depends(msg)) {
            assert(covers(models(latest@)[i as int], msg@));
            return true;
        }
        i += 1;
    }
    false
}

/// Removes from `msgs` the messages that `msg` supersedes.
fn drop_superseded<E: Value>(msgs: &mut Vec<Message<E>>, msg: &Message<E>)
    ensures
        models(final(msgs)@) == models(old(msgs)@).filter(not_superseded_by(msg@)),
{
    let ghost all = models(msgs@);
    let ghost keep = not_superseded_by(msg@);
    let ghost mut seen: int = 0;
    let mut j: usize = 0;
    proof {
        reveal(Seq::filter);
        assert(all.take(0).filter(keep) =~= Seq::<MessageModel<E::V>>::empty());
        assert(models(msgs@) =~= all.take(0).filter(keep) + all.skip(0));
    }
    while j < msgs.len()
        invariant
            0 <= seen <= all.len(),
            keep == not_superseded_by(msg@),
            j == all.take(seen).filter(keep).len(),
            models(msgs@) == all.take(seen).filter(keep) + all.skip(seen),
        decreases all.len() - seen,
    {
        proof {
            assert(models(msgs@).len() == j + (all.len() - seen));
            assert(models(msgs@)[j as int] == all.skip(seen)[0]);
            assert(all.take(seen + 1) =~= all.take(seen).push(all[seen]));
            all.take(seen).lemma_filter_push(all[seen], keep);
        }
        let ghost before = models(msgs@);
        if msgs[j].sender() == msg.sender() && msg.depends(&msgs[j]) {
            msgs.remove(j);
            assert(models(msgs@) =~= before.remove(j as int));
            assert(models(msgs@) =~= all.take(seen + 1).filter(keep) + all.skip(seen + 1));
        } else {
            j += 1;
            assert(models(msgs@) =~= all.take(seen + 1).filter(keep) + all.skip(seen + 1));
        }
        proof {
            seen = seen + 1;
        }
    }
    proof {
        assert(models(msgs@).len() == j + (all.len() - seen));
        assert(all.take(seen) =~= all);
        assert(models(msgs@) =~= all.filter(keep));
    }
}

impl<E: Value> LatestMsgs<E> {
    /// No validator has been heard of yet.
    pub fn new() -> (latest: Self)
        ensures
            latest@ == Seq::<MessageModel<E::V>>::empty(),
    {
        let latest = LatestMsgs(Vec::new());
        assert(latest@ =~= Seq::<MessageModel<E::V>>::empty());
        latest
    }

    /// The latest messages of each validator in a justification.
    pub fn from(j: &Justification<E>) -> (latest: Self)
        ensures
            latest@ == latest_of(j@),
            forall|m: MessageModel<E::V>| latest@.contains(m) <==> is_latest_among(j@, m),
    {
        let msgs = j.messages();
        let n = msgs.len();
        let mut latest = LatestMsgs::new();
        let mut i: usize = 0;
        assert(j@.take(0) =~= Seq::<MessageModel<E::V>>::empty());
        while i < n
            invariant
                0 <= i <= n,
                n == msgs.len(),
                models(msgs@) == j@,
                latest@ == latest_of(j@.take(i as int)),
            decreases n - i,
        {
            assert(j@.take(i + 1).drop_last() =~= j@.take(i as int));
            latest.update(&msgs[i]);
            i += 1;
        }
        assert(j@.take(n as int) =~= j@);
        assert forall|m: MessageModel<E::V>| latest@.contains(m) <==> is_latest_among(j@, m) by {
            lemma_latest_of(j@, m);
        }
        latest
    }

    /// Takes note of `new_msg`. Returns whether it became a latest message,
    /// which it does unless it, or a later message of its sender, is one already.
    pub fn update(&mut self, new_msg: &Message<E>) -> (changed: bool)
        ensures
            changed == !covered(old(self)@, new_msg@),
            final(self)@ == updated(old(self)@, new_msg@),
    {
        proof {
            use_type_invariant(&*self);
        }
        if is_covered(&self.0, new_msg) {
            return false;
        }
        let ghost before = self@;
        let ghost keep = not_superseded_by(new_msg@);
        let mut msgs: Vec<Message<E>> = Vec::new();
        core::mem::swap(&mut self.0, &mut msgs);
        drop_superseded(&mut msgs, new_msg);
        msgs.push(new_msg.clone());
        proof {
            lemma_filter_keeps_distinct(before, keep);
            if before.filter(keep).contains(new_msg@) {
                before.lemma_filter_contains_rev(keep, new_msg@);
                let i = choose|i: int| 0 <= i < before.len() && before[i] == new_msg@;
                assert(covers(before[i], new_msg@));
            }
            assert(models(msgs@) =~= before.filter(keep).push(new_msg@));
        }
        self.0 = msgs;
        true
    }

    /// How many latest messages are known, of all validators together.
    pub fn len(&self) -> (n: usize)
        ensures
            n == self@.len(),
    {
        self.0.len()
    }

    /// The latest messages, of all validators together.
    pub fn messages(&self) -> (msgs: &Vec<Message<E>>)
        ensures
            models(msgs@) == self@,
            self@.no_duplicates(),
    {
        proof {
            use_type_invariant(self);
        }
        &self.0
    }

    /// Whether `msg` is a latest message.
    pub fn contains(&self, msg: &Message<E>) -> (found: bool)
        ensures
            found == self@.contains(msg@),
    {
        contains_msg(&self.0, msg)
    }

    /// How many latest messages `sender` has. More than one means that it
    /// has equivocated.
    pub fn count_from(&self, sender: Validator) -> (count: usize)
        ensures
            count == count_from(self@, sender),
    {
        let ghost all = self@;
        let ghost pred = cast_by::<E::V>(sender);
        let n = self.0.len();
        let mut count: usize = 0;
        let mut i: usize = 0;
        proof {
            reveal(Seq::filter);
            assert(all.take(0).filter(pred) =~= Seq::<MessageModel<E::V>>::empty());
        }
        while i < n
            invariant
                0 <= i <= n,
                n == self.0.len(),
                all == models(self.0@),
                pred == cast_by::<E::V>(sender),
                count == all.take(i as int).filter(pred).len(),
                count <= i,
            decreases n - i,
        {
            proof {
                assert(all.take(i + 1) =~= all.take(i as int).push(all[i as int]));
                all.take(i as int).lemma_filter_push(all[i as int], pred);
            }
            if self.0[i].sender() == sender {
                count += 1;
            }
            i += 1;
        }
        assert(all.take(n as int) =~= all);
        count
    }
}

impl<E: Value> Clone for LatestMsgs<E> {
    fn clone(&self) -> (copy: Self)
        ensures
            copy@ == self@,
    {
        proof {
            use_type_invariant(self);
        }
        LatestMsgs(clone_msgs(&self.0))
    }
}

/// The latest messages of the validators that are not known to equivocate.
/// No message occurs in it twice.
pub struct LatestMsgsHonest<E: View>(Vec<Message<E>>);

impl<E: View> View for LatestMsgsHonest<E> {
    type V = Seq<MessageModel<E::V>>;

    closed spec fn view(&self) -> Seq<MessageModel<E::V>> {
        models(self.0@)
    }
}

impl<E: View> LatestMsgsHonest<E> {
    #[verifier::type_invariant]
    spec fn each_once(self) -> bool {
        self@.no_duplicates()
    }
}

impl<E: Value> LatestMsgsHonest<E> {
    /// The empty collection.
    pub fn new() -> (latest: Self)
        ensures
            latest@ == Seq::<MessageModel<E::V>>::empty(),
    {
        let latest = LatestMsgsHonest(Vec::new());
        assert(latest@ =~= Seq::<MessageModel<E::V>>::empty());
        latest
    }

    /// The latest messages of the honest validators: of those that are not
    /// among `equivocators` and have exactly one latest message.
    pub fn from_latest_msgs(latest_msgs: &LatestMsgs<E>, equivocators: &HashSet<Validator>) -> (r:
        Self)
        ensures
            r@ == honest(latest_msgs@, equivocators@),
            forall|i: int| 0 <= i < r@.len() ==> !equivocators@.contains((#[trigger] r@[i]).sender),
            forall|i: int, j: int| 0 <= i < j < r@.len() ==> r@[i].sender != r@[j].sender,
    {
        let msgs = latest_msgs.messages();
        let ghost all = latest_msgs@;
        let ghost pred = is_honest(all, equivocators@);
        let n = msgs.len();
        let mut kept: Vec<Message<E>> = Vec::new();
        let mut i: usize = 0;
        proof {
            reveal(Seq::filter);
            assert(all.take(0).filter(pred) =~= Seq::<MessageModel<E::V>>::empty());
            assert(models(kept@) =~= Seq::<MessageModel<E::V>>::empty());
        }
        while i < n
            invariant
                0 <= i <= n,
                n == msgs.len(),
                all == models(msgs@),
                all == latest_msgs@,
                pred == is_honest(all, equivocators@),
                models(kept@) == all.take(i as int).filter(pred),
            decreases n - i,
        {
            proof {
                assert(all.take(i + 1) =~= all.take(i as int).push(all[i as int]));
                all.take(i as int).lemma_filter_push(all[i as int], pred);
            }
            let msg = &msgs[i];
            let sender = msg.sender();
            let ghost before = models(kept@);
            if !equivocators.contains(&sender) && latest_msgs.count_from(sender) == 1 {
                kept.push(msg.clone());
                assert(models(kept@) =~= before.push(msg@));
            }
            i += 1;
        }
        proof {
            assert(all.take(n as int) =~= all);
            lemma_filter_keeps_distinct(all, pred);
            lemma_honest_one_per_validator(all, equivocators@);
        }
        LatestMsgsHonest(kept)
    }

    /// Adds `msg` unless it is there already. Returns whether it was added.
    pub fn insert(&mut self, msg: Message<E>) -> (added: bool)
        ensures
            added == !old(self)@.contains(msg@),
            final(self)@ == (if added {
                old(self)@.push(msg@)
            } else {
                old(self)@
            }),
    {
        proof {
            use_type_invariant(&*self);
        }
        if contains_msg(&self.0, &msg) {
            false
        } else {
            let ghost before = self@;
            let mut msgs: Vec<Message<E>> = Vec::new();
            core::mem::swap(&mut self.0, &mut msgs);
            msgs.push(msg);
            assert(models(msgs@) =~= before.push(msg@));
            self.0 = msgs;
            true
        }
    }

    /// How many messages it holds.
    pub fn len(&self) -> (n: usize)
        ensures
            n == self@.len(),
    {
        self.0.len()
    }

    /// Its messages.
    pub fn messages(&self) -> (msgs: &Vec<Message<E>>)
        ensures
            models(msgs@) == self@,
            self@.no_duplicates(),
    {
        proof {
            use_type_invariant(self);
        }
        &self.0
    }

}

impl<E: Estimate> LatestMsgsHonest<E> {
    /// The estimate that follows from these messages under the given weights.
    pub fn mk_estimate(&self, senders_weights: &SendersWeight) -> (r: Result<E, EstimateError>)
        ensures
            outcome(r) == E::estimate_of(self@, senders_weights@),
    {
        E::mk_estimate(self, senders_weights)
    }
}

impl<E: Value> Clone for LatestMsgsHonest<E> {
    fn clone(&self) -> (copy: Self)
        ensures
            copy@ == self@,
    {
        proof {
            use_type_invariant(self);
        }
        LatestMsgsHonest(clone_msgs(&self.0))
    }
}

/// What a node knows: the validators' weights, the weight of the validators
/// that it has caught equivocating, its own latest message, the latest
/// messages it has seen, how much equivocating weight it tolerates, and the
/// validators that it has caught.
pub ghost struct StateModel<V> {
    pub senders_weights: Map<Validator, WeightUnit>,
    pub state_fault_weight: nat,
    pub own_latest_message: Option<MessageModel<V>>,
    pub latest_msgs: Seq<MessageModel<V>>,
    pub fault_tolerance_threshold: nat,
    pub equivocators: Set<Validator>,
}

/// The weights of the equivocators whose identity is below `limit`, added up.
pub open spec fn fault_weight_below(
    equivocators: Set<Validator>,
    weights: Map<Validator, WeightUnit>,
    limit: nat,
) -> nat
    decreases limit,
{
    if limit == 0 {
        0
    } else {
        let v = (limit - 1) as Validator;
        fault_weight_below(equivocators, weights, (limit - 1) as nat) + (if equivocators.contains(
            v,
        ) {
            weight_of(weights, v) as nat
        } else {
            0
        })
    }
}

/// The weights of exactly the validators in `equivocators`, added up. An
/// equivocator that the weights do not know counts as zero.
pub open spec fn fault_weight(equivocators: Set<Validator>, weights: Map<Validator, WeightUnit>) -> nat {
    fault_weight_below(equivocators, weights, 0x1_0000_0000)
}

/// The fault weight of a state is the weight of its equivocators.
pub open spec fn accounted<V>(state: StateModel<V>) -> bool {
    state.state_fault_weight == fault_weight(state.equivocators, state.senders_weights)
}

/// The equivocating weight is within what the state tolerates.
pub open spec fn within_threshold<V>(state: StateModel<V>) -> bool {
    state.state_fault_weight <= state.fault_tolerance_threshold
}

/// With `msg` among the latest messages, its sender has more than one of them.
pub open spec fn shows_equivocation<V>(latest: Seq<MessageModel<V>>, msg: MessageModel<V>) -> bool {
    latest.contains(msg) && count_from(latest, msg.sender) >= 2
}

/// The state after the messages of `msgs` have been seen. Only the latest
/// messages change: no validator is blamed.
pub open spec fn after_from_msgs<V>(state: StateModel<V>, msgs: Seq<MessageModel<V>>) -> StateModel<
    V,
> {
    StateModel { latest_msgs: observed(state.latest_msgs, msgs), ..state }
}

/// The state after `msg` has been inserted. The latest messages take note of
/// it. Where it is then one of several latest messages of its sender, and the
/// sender was not blamed before, the sender joins the equivocators and its
/// weight is added to the fault weight.
pub open spec fn after_faulty_insert<V>(state: StateModel<V>, msg: MessageModel<V>) -> StateModel<
    V,
> {
    let latest = updated(state.latest_msgs, msg);
    if shows_equivocation(latest, msg) && !state.equivocators.contains(msg.sender) {
        StateModel {
            latest_msgs: latest,
            equivocators: state.equivocators.insert(msg.sender),
            state_fault_weight: state.state_fault_weight + weight_of(
                state.senders_weights,
                msg.sender,
            ) as nat,
            ..state
        }
    } else {
        StateModel { latest_msgs: latest, ..state }
    }
}

/// The estimate that a justification gives: that of the latest messages in it
/// of the honest validators.
pub open spec fn justified_estimate<E: Estimate>(
    msgs: Seq<MessageModel<E::V>>,
    equivocators: Set<Validator>,
    weights: Map<Validator, WeightUnit>,
) -> Result<E::V, EstimateError> {
    E::estimate_of(honest(latest_of(msgs), equivocators), weights)
}

proof fn lemma_fault_weight_below_of_none(weights: Map<Validator, WeightUnit>, limit: nat)
    ensures
        fault_weight_below(Set::empty(), weights, limit) == 0,
    decreases limit,
{
    if limit > 0 {
        lemma_fault_weight_below_of_none(weights, (limit - 1) as nat);
    }
}

proof fn lemma_fault_weight_below_insert(
    equivocators: Set<Validator>,
    weights: Map<Validator, WeightUnit>,
    sender: Validator,
    limit: nat,
)
    requires
        !equivocators.contains(sender),
        limit <= 0x1_0000_0000,
    ensures
        fault_weight_below(equivocators.insert(sender), weights, limit) == fault_weight_below(
            equivocators,
            weights,
            limit,
        ) + (if sender < limit {
            weight_of(weights, sender) as nat
        } else {
            0
        }),
    decreases limit,
{
    if limit > 0 {
        lemma_fault_weight_below_insert(equivocators, weights, sender, (limit - 1) as nat);
    }
}

proof fn lemma_fault_weight_below_limit(
    equivocators: Set<Validator>,
    weights: Map<Validator, WeightUnit>,
    limit: nat,
)
    ensures
        fault_weight_below(equivocators, weights, limit) <= limit * 0xffff_ffff_ffff_ffff,
    decreases limit,
{
    if limit > 0 {
        lemma_fault_weight_below_limit(equivocators, weights, (limit - 1) as nat);
        assert((limit - 1) * 0xffff_ffff_ffff_ffff + 0xffff_ffff_ffff_ffff == limit
            * 0xffff_ffff_ffff_ffff) by (nonlinear_arith);
    }
}

/// Without equivocators there is no fault weight.
pub proof fn lemma_fault_weight_of_none(weights: Map<Validator, WeightUnit>)
    ensures
        fault_weight(Set::empty(), weights) == 0,
{
    lemma_fault_weight_below_of_none(weights, 0x1_0000_0000);
}

/// One more equivocator adds its weight to the fault weight.
pub proof fn lemma_fault_weight_insert(
    equivocators: Set<Validator>,
    weights: Map<Validator, WeightUnit>,
    sender: Validator,
)
    requires
        !equivocators.contains(sender),
    ensures
        fault_weight(equivocators.insert(sender), weights) == fault_weight(equivocators, weights)
            + weight_of(weights, sender),
{
    lemma_fault_weight_below_insert(equivocators, weights, sender, 0x1_0000_0000);
}

/// The fault weight never exceeds what all validators together could weigh.
pub proof fn lemma_fault_weight_limit(
    equivocators: Set<Validator>,
    weights: Map<Validator, WeightUnit>,
)
    ensures
        fault_weight(equivocators, weights) <= 0x1_0000_0000 * 0xffff_ffff_ffff_ffff,
{
    lemma_fault_weight_below_limit(equivocators, weights, 0x1_0000_0000);
}

/// The equivocating weight has grown beyond what the state tolerates: the
/// consensus guarantee no longer holds for this validator.
#[derive(Clone, Copy, Debug, PartialEq, Eq, Structural)]
pub struct SafetyThresholdExceeded;

/// The consensus state of one node.
pub struct SenderState<E: View> {
    senders_weights: SendersWeight,
    state_fault_weight: TotalWeight,
    my_last_msg: Option<Message<E>>,
    latest_msgs: LatestMsgs<E>,
    thr: TotalWeight,
    equivocators: HashSet<Validator>,
}

impl<E: View> View for SenderState<E> {
    type V = StateModel<E::V>;

    closed spec fn view(&self) -> StateModel<E::V> {
        StateModel {
            senders_weights: self.senders_weights@,
            state_fault_weight: self.state_fault_weight as nat,
            own_latest_message: match self.my_last_msg {
                Some(m) => Some(m@),
                None => None,
            },
            latest_msgs: self.latest_msgs@,
            fault_tolerance_threshold: self.thr as nat,
            equivocators: self.equivocators@,
        }
    }
}

impl<E: View> SenderState<E> {
    #[verifier::type_invariant]
    spec fn fault_weight_accounted(self) -> bool {
        accounted(self@)
    }
}

impl<E: Value> SenderState<E> {
    /// A state made of the given parts. The fault weight has to be the weight
    /// of the given equivocators.
    pub fn new(
        senders_weights: SendersWeight,
        state_fault_weight: TotalWeight,
        my_last_msg: Option<Message<E>>,
        latest_msgs: LatestMsgs<E>,
        thr: TotalWeight,
        equivocators: HashSet<Validator>,
    ) -> (state: Self)
        requires
            state_fault_weight == fault_weight(equivocators@, senders_weights@),
        ensures
            state@ == (StateModel {
                senders_weights: senders_weights@,
                state_fault_weight: state_fault_weight as nat,
                own_latest_message: match my_last_msg {
                    Some(m) => Some(m@),
                    None => None,
                },
                latest_msgs: latest_msgs@,
                fault_tolerance_threshold: thr as nat,
                equivocators: equivocators@,
            }),
    {
        SenderState {
            senders_weights,
            state_fault_weight,
            my_last_msg,
            latest_msgs,
            thr,
            equivocators,
        }
    }

    /// The validators that this node has caught equivocating.
    pub fn equivocators(&self) -> (known: &HashSet<Validator>)
        ensures
            known@ == self@.equivocators,
    {
        &self.equivocators
    }

    /// The validators' weights.
    pub fn senders_weights(&self) -> (weights: &SendersWeight)
        ensures
            weights@ == self@.senders_weights,
    {
        &self.senders_weights
    }

    /// The node's own latest message, if it has cast one.
    pub fn my_last_msg(&self) -> (own: &Option<Message<E>>)
        ensures
            self@.own_latest_message == (match *own {
                Some(m) => Some(m@),
                None => None,
            }),
    {
        &self.my_last_msg
    }

    /// The latest messages that this node has seen.
    pub fn latests_msgs(&self) -> (latest: &LatestMsgs<E>)
        ensures
            latest@ == self@.latest_msgs,
    {
        &self.latest_msgs
    }

    /// The weight of the validators caught equivocating. It is the sum of
    /// their weights.
    pub fn fault_weight(&self) -> (weight: TotalWeight)
        ensures
            weight == self@.state_fault_weight,
            accounted(self@),
    {
        proof {
            use_type_invariant(self);
        }
        self.state_fault_weight
    }

    /// The equivocating weight that this node tolerates.
    pub fn fault_tolerance_threshold(&self) -> (thr: TotalWeight)
        ensures
            thr == self@.fault_tolerance_threshold,
    {
        self.thr
    }

    /// Whether the equivocating weight is still within what this node
    /// tolerates. It fails exactly when the fault weight is above the threshold.
    pub fn check_threshold(&self) -> (r: Result<(), SafetyThresholdExceeded>)
        ensures
            r.is_ok() == within_threshold(self@),
    {
        if self.state_fault_weight <= self.thr {
            Ok(())
        } else {
            Err(SafetyThresholdExceeded)
        }
    }
}

impl<E: Value> Clone for SenderState<E> {
    fn clone(&self) -> (copy: Self)
        ensures
            copy@ == self@,
    {
        proof {
            use_type_invariant(self);
        }
        SenderState {
            senders_weights: self.senders_weights.clone(),
            state_fault_weight: self.state_fault_weight,
            my_last_msg: match &self.my_last_msg {
                Some(m) => Some(m.clone()),
                None => None,
            },
            latest_msgs: self.latest_msgs.clone(),
            thr: self.thr,
            equivocators: copy_of(&self.equivocators),
        }
    }
}

impl<E: Value> Justification<E> {
    /// A justification of the given messages, each once, and the state after
    /// they have been seen. A validator with two messages among them that do
    /// not follow one another has both among the latest messages; it is not
    /// blamed for it here.
    pub fn from_msgs(messages: Vec<Message<E>>, sender_state: &SenderState<E>) -> (r: (
        Self,
        SenderState<E>,
    ))
        ensures
            r.0@ == distinct(models(messages@)),
            r.1@ == after_from_msgs(sender_state@, models(messages@)),
    {
        let ghost all = models(messages@);
        let mut justification = Justification::new();
        let mut latest_msgs = sender_state.latest_msgs.clone();
        let n = messages.len();
        let mut i: usize = 0;
        assert(all.take(0) =~= Seq::<MessageModel<E::V>>::empty());
        while i < n
            invariant
                0 <= i <= n,
                n == messages.len(),
                all == models(messages@),
                justification@ == distinct(all.take(i as int)),
                latest_msgs@ == observed(sender_state@.latest_msgs, all.take(i as int)),
            decreases n - i,
        {
            assert(all.take(i + 1).drop_last() =~= all.take(i as int));
            latest_msgs.update(&messages[i]);
            justification.insert(messages[i].clone());
            i += 1;
        }
        assert(all.take(n as int) =~= all);
        proof {
            use_type_invariant(sender_state);
        }
        let state = SenderState {
            senders_weights: sender_state.senders_weights.clone(),
            state_fault_weight: sender_state.state_fault_weight,
            my_last_msg: match &sender_state.my_last_msg {
                Some(m) => Some(m.clone()),
                None => None,
            },
            latest_msgs,
            thr: sender_state.thr,
            equivocators: copy_of(&sender_state.equivocators),
        };
        (justification, state)
    }

    /// Inserts `msg`, whatever it does to its sender's standing, and returns
    /// whether it was new to the justification, together with the state after
    /// it. A sender that turns out to have several latest messages is blamed
    /// once: it joins the equivocators and its weight is added to the fault
    /// weight. Whether the fault weight is still tolerable is for the caller
    /// to check.
    pub fn faulty_insert(&mut self, msg: &Message<E>, sender_state: &SenderState<E>) -> (r: (
        bool,
        SenderState<E>,
    ))
        ensures
            r.0 == !old(self)@.contains(msg@),
            final(self)@ == (if r.0 {
                old(self)@.push(msg@)
            } else {
                old(self)@
            }),
            r.1@ == after_faulty_insert(sender_state@, msg@),
    {
        let added = self.insert(msg.clone());
        let mut latest_msgs = sender_state.latest_msgs.clone();
        latest_msgs.update(msg);
        let sender = msg.sender();
        let mut equivocators = copy_of(&sender_state.equivocators);
        let mut state_fault_weight = sender_state.state_fault_weight;
        proof {
            use_type_invariant(sender_state);
        }
        if latest_msgs.contains(msg) && latest_msgs.count_from(sender) >= 2
            && !equivocators.contains(&sender) {
            proof {
                lemma_fault_weight_insert(
                    sender_state@.equivocators,
                    sender_state@.senders_weights,
                    sender,
                );
                lemma_fault_weight_limit(
                    sender_state@.equivocators.insert(sender),
                    sender_state@.senders_weights,
                );
            }
            equivocators.insert(sender);
            state_fault_weight = state_fault_weight + sender_state.senders_weights.weight_or_zero(
                sender,
            ) as TotalWeight;
        }
        let state = SenderState {
            senders_weights: sender_state.senders_weights.clone(),
            state_fault_weight,
            my_last_msg: match &sender_state.my_last_msg {
                Some(m) => Some(m.clone()),
                None => None,
            },
            latest_msgs,
            thr: sender_state.thr,
            equivocators,
        };
        (added, state)
    }
}

impl<E: Estimate> Justification<E> {
    /// The estimate that this justification gives: that of its latest
    /// messages of the validators that are honest, as far as `equivocators`
    /// and the justification itself tell.
    pub fn mk_estimate(
        &self,
        equivocators: &HashSet<Validator>,
        senders_weights: &SendersWeight,
    ) -> (r: Result<E, EstimateError>)
        ensures
            outcome(r) == justified_estimate::<E>(self@, equivocators@, senders_weights@),
    {
        let latest_msgs = LatestMsgs::from(self);
        let latest_msgs_honest = LatestMsgsHonest::from_latest_msgs(&latest_msgs, equivocators);
        latest_msgs_honest.mk_estimate(senders_weights)
    }
}

} // verus!
