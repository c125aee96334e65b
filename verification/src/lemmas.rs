use crate::justification::accounted;
use crate::justification::after_faulty_insert;
use crate::justification::cast_by;
use crate::justification::count_from;
use crate::justification::covered;
use crate::justification::covers;
use crate::justification::honest;
use crate::justification::is_honest;
use crate::justification::is_latest_among;
use crate::justification::latest_of;
use crate::justification::lemma_fault_weight_insert;
use crate::justification::lemma_filter_keeps_distinct;
use crate::justification::not_superseded_by;
use crate::justification::shows_equivocation;
use crate::justification::supersedes;
use crate::justification::updated;
use crate::justification::within_threshold;
use crate::justification::StateModel;
use crate::message::equivocation;
use crate::message::lemma_depends_irreflexive;
use crate::message::lemma_depends_transitive;
use crate::message::MessageModel;
use crate::message::Validator;
use crate::senders_weight::weight_of;
use vstd::prelude::*;

verus! {

/// `latest` keeps track of the messages `seen`: it holds some of them, each
/// once, none of them superseded by another, and one that stands for each
/// message seen.
pub open spec fn tracks<V>(latest: Seq<MessageModel<V>>, seen: Seq<MessageModel<V>>) -> bool {
    &&& latest.no_duplicates()
    &&& forall|i: int| 0 <= i < latest.len() ==> seen.contains(#[trigger] latest[i])
    &&& forall|i: int, j: int|
        0 <= i < latest.len() && 0 <= j < latest.len() ==> !supersedes(
            #[trigger] latest[i],
            #[trigger] latest[j],
        )
    &&& forall|k: int| 0 <= k < seen.len() ==> covered(latest, #[trigger] seen[k])
}

/// Taking note of one more message keeps track.
pub proof fn lemma_updated_tracks<V>(
    latest: Seq<MessageModel<V>>,
    seen: Seq<MessageModel<V>>,
    msg: MessageModel<V>,
)
    requires
        tracks(latest, seen),
    ensures
        tracks(updated(latest, msg), seen.push(msg)),
{
    let after = updated(latest, msg);
    let all = seen.push(msg);
    let keep = not_superseded_by(msg);
    let kept = latest.filter(keep);
    assert(all[seen.len() as int] == msg);
    assert forall|x: MessageModel<V>| seen.contains(x) implies all.contains(x) by {
        let k = choose|k: int| 0 <= k < seen.len() && seen[k] == x;
        assert(all[k] == x);
    }
    if covered(latest, msg) {
        assert forall|k: int| 0 <= k < all.len() implies covered(after, #[trigger] all[k]) by {
            if k < seen.len() {
                assert(all[k] == seen[k]);
            }
        }
    } else {
        lemma_filter_keeps_distinct(latest, keep);
        if kept.contains(msg) {
            latest.lemma_filter_contains_rev(keep, msg);
            let i = choose|i: int| 0 <= i < latest.len() && latest[i] == msg;
            assert(covers(latest[i], msg));
        }
        assert forall|i: int| 0 <= i < kept.len() implies latest.contains(#[trigger] kept[i])
            && keep(kept[i]) by {
            assert(kept.contains(kept[i]));
            latest.lemma_filter_contains_rev(keep, kept[i]);
            latest.lemma_filter_pred(keep, i);
        }
        assert forall|i: int| 0 <= i < after.len() implies all.contains(#[trigger] after[i]) by {
            if i < kept.len() {
                assert(after[i] == kept[i]);
                let k = choose|k: int| 0 <= k < latest.len() && latest[k] == kept[i];
                assert(seen.contains(latest[k]));
            }
        }
        assert forall|i: int, j: int| 0 <= i < after.len() && 0 <= j < after.len() implies !supersedes(
            #[trigger] after[i],
            #[trigger] after[j],
        ) by {
            if i < kept.len() && j < kept.len() {
                assert(after[i] == kept[i] && after[j] == kept[j]);
                let a = choose|a: int| 0 <= a < latest.len() && latest[a] == kept[i];
                let b = choose|b: int| 0 <= b < latest.len() && latest[b] == kept[j];
                assert(!supersedes(latest[a], latest[b]));
            } else if i < kept.len() {
                assert(after[i] == kept[i]);
                let a = choose|a: int| 0 <= a < latest.len() && latest[a] == kept[i];
                if supersedes(after[i], msg) {
                    assert(covers(latest[a], msg));
                }
            } else if j < kept.len() {
                assert(after[j] == kept[j]);
                assert(keep(kept[j]));
            } else {
                lemma_depends_irreflexive(msg);
            }
        }
        assert(after[kept.len() as int] == msg);
        assert forall|k: int| 0 <= k < all.len() implies covered(after, #[trigger] all[k]) by {
            if k < seen.len() {
                assert(all[k] == seen[k]);
                assert(covered(latest, seen[k]));
                let i = choose|i: int| 0 <= i < latest.len() && covers(#[trigger] latest[i], seen[k]);
                if keep(latest[i]) {
                    latest.lemma_filter_contains(keep, i);
                    let a = choose|a: int| 0 <= a < kept.len() && kept[a] == latest[i];
                    assert(after[a] == latest[i]);
                    assert(covers(after[a], all[k]));
                } else {
                    if latest[i] != seen[k] {
                        lemma_depends_transitive(msg, latest[i], seen[k]);
                    }
                    assert(covers(after[kept.len() as int], all[k]));
                }
            } else {
                assert(covers(after[kept.len() as int], all[k]));
            }
        }
    }
}

/// The latest messages of a justification keep track of its messages.
pub proof fn lemma_latest_of_tracks<V>(msgs: Seq<MessageModel<V>>)
    ensures
        tracks(latest_of(msgs), msgs),
    decreases msgs.len(),
{
    if msgs.len() > 0 {
        lemma_latest_of_tracks(msgs.drop_last());
        lemma_updated_tracks(latest_of(msgs.drop_last()), msgs.drop_last(), msgs.last());
        assert(msgs.drop_last().push(msgs.last()) =~= msgs);
    }
}

/// The latest messages of a justification are exactly those of its messages
/// that none of its messages supersedes: for each validator the messages that
/// no later message of the same validator in the justification was built upon.
/// Each of them is held once.
pub proof fn lemma_latest_of<V>(msgs: Seq<MessageModel<V>>, m: MessageModel<V>)
    ensures
        latest_of(msgs).no_duplicates(),
        latest_of(msgs).contains(m) <==> is_latest_among(msgs, m),
{
    let latest = latest_of(msgs);
    lemma_latest_of_tracks(msgs);
    if latest.contains(m) {
        let i = choose|i: int| 0 <= i < latest.len() && latest[i] == m;
        assert(msgs.contains(latest[i]));
        assert forall|k: int| 0 <= k < msgs.len() implies !supersedes(#[trigger] msgs[k], m) by {
            if supersedes(msgs[k], m) {
                assert(covered(latest, msgs[k]));
                let j = choose|j: int| 0 <= j < latest.len() && covers(#[trigger] latest[j], msgs[k]);
                if latest[j] != msgs[k] {
                    lemma_depends_transitive(latest[j], msgs[k], m);
                }
                assert(supersedes(latest[j], latest[i]));
            }
        }
    }
    if is_latest_among(msgs, m) {
        let k = choose|k: int| 0 <= k < msgs.len() && msgs[k] == m;
        assert(covered(latest, msgs[k]));
        let j = choose|j: int| 0 <= j < latest.len() && covers(#[trigger] latest[j], m);
        if latest[j] != m {
            assert(msgs.contains(latest[j]));
            let a = choose|a: int| 0 <= a < msgs.len() && msgs[a] == latest[j];
            assert(supersedes(msgs[a], m));
        }
    }
}

/// The honest latest messages are latest messages, each once; none is of a
/// known equivocator, and no two are of the same validator. Every latest
/// message of a validator that is not a known equivocator and has no other
/// latest message is among them.
pub proof fn lemma_honest_one_per_validator<V>(
    latest: Seq<MessageModel<V>>,
    equivocators: Set<Validator>,
)
    requires
        latest.no_duplicates(),
    ensures
        honest(latest, equivocators).no_duplicates(),
        forall|i: int|
            0 <= i < honest(latest, equivocators).len() ==> latest.contains(
                #[trigger] honest(latest, equivocators)[i],
            ) && !equivocators.contains(honest(latest, equivocators)[i].sender),
        forall|i: int, j: int|
            0 <= i < j < honest(latest, equivocators).len() ==> honest(
                latest,
                equivocators,
            )[i].sender != honest(latest, equivocators)[j].sender,
        forall|k: int|
            0 <= k < latest.len() && !equivocators.contains((#[trigger] latest[k]).sender)
                && count_from(latest, latest[k].sender) == 1 ==> honest(
                latest,
                equivocators,
            ).contains(latest[k]),
{
    let pred = is_honest(latest, equivocators);
    let h = honest(latest, equivocators);
    lemma_filter_keeps_distinct(latest, pred);
    assert forall|i: int| 0 <= i < h.len() implies latest.contains(#[trigger] h[i])
        && !equivocators.contains(h[i].sender) && count_from(latest, h[i].sender) == 1 by {
        assert(h.contains(h[i]));
        latest.lemma_filter_contains_rev(pred, h[i]);
        latest.lemma_filter_pred(pred, i);
    }
    assert forall|i: int, j: int| 0 <= i < j < h.len() implies h[i].sender != h[j].sender by {
        if h[i].sender == h[j].sender {
            let s = h[i].sender;
            let of_s = latest.filter(cast_by(s));
            assert(latest.contains(h[i]) && latest.contains(h[j]));
            let a = choose|a: int| 0 <= a < latest.len() && latest[a] == h[i];
            let b = choose|b: int| 0 <= b < latest.len() && latest[b] == h[j];
            latest.lemma_filter_contains(cast_by(s), a);
            latest.lemma_filter_contains(cast_by(s), b);
            let x = choose|x: int| 0 <= x < of_s.len() && of_s[x] == h[i];
            let y = choose|y: int| 0 <= y < of_s.len() && of_s[y] == h[j];
            assert(x != y);
        }
    }
    assert forall|k: int|
        0 <= k < latest.len() && !equivocators.contains((#[trigger] latest[k]).sender)
            && count_from(latest, latest[k].sender) == 1 implies h.contains(latest[k]) by {
        latest.lemma_filter_contains(pred, k);
    }
}

/// A validator has no message among `latest` exactly when it has none counted.
pub proof fn lemma_count_from_none<V>(latest: Seq<MessageModel<V>>, sender: Validator)
    ensures
        count_from(latest, sender) == 0 <==> forall|i: int|
            0 <= i < latest.len() ==> (#[trigger] latest[i]).sender != sender,
{
    let of_s = latest.filter(cast_by(sender));
    if count_from(latest, sender) == 0 {
        assert forall|i: int| 0 <= i < latest.len() implies (#[trigger] latest[i]).sender
            != sender by {
            if latest[i].sender == sender {
                latest.lemma_filter_contains(cast_by(sender), i);
            }
        }
    } else {
        latest.lemma_filter_pred(cast_by(sender), 0);
        assert(of_s.contains(of_s[0]));
        latest.lemma_filter_contains_rev(cast_by(sender), of_s[0]);
    }
}

/// One more message counts for its sender and for nobody else.
pub proof fn lemma_count_from_push<V>(
    latest: Seq<MessageModel<V>>,
    msg: MessageModel<V>,
    sender: Validator,
)
    ensures
        count_from(latest.push(msg), sender) == count_from(latest, sender) + (if msg.sender
            == sender {
            1nat
        } else {
            0nat
        }),
{
    latest.lemma_filter_push(msg, cast_by(sender));
}

/// Inserting a message keeps the books: where the fault weight was the weight
/// of the equivocators before, it is so after. It never shrinks, and becomes
/// larger only by the weight of a validator that was not blamed before.
pub proof fn lemma_faulty_insert_accounted<V>(state: StateModel<V>, msg: MessageModel<V>)
    requires
        accounted(state),
    ensures
        accounted(after_faulty_insert(state, msg)),
        after_faulty_insert(state, msg).state_fault_weight >= state.state_fault_weight,
        after_faulty_insert(state, msg).state_fault_weight != state.state_fault_weight
            ==> !state.equivocators.contains(msg.sender) && after_faulty_insert(
            state,
            msg,
        ).state_fault_weight == state.state_fault_weight + weight_of(
            state.senders_weights,
            msg.sender,
        ),
        after_faulty_insert(state, msg).senders_weights == state.senders_weights,
        after_faulty_insert(state, msg).fault_tolerance_threshold
            == state.fault_tolerance_threshold,
        after_faulty_insert(state, msg).own_latest_message == state.own_latest_message,
{
    if !state.equivocators.contains(msg.sender) {
        lemma_fault_weight_insert(state.equivocators, state.senders_weights, msg.sender);
    }
}

/// A validator that is blamed already is never counted again: whatever
/// message of it is inserted, the equivocators and the fault weight stay.
pub proof fn lemma_blamed_once<V>(state: StateModel<V>, msg: MessageModel<V>)
    requires
        state.equivocators.contains(msg.sender),
    ensures
        after_faulty_insert(state, msg).state_fault_weight == state.state_fault_weight,
        after_faulty_insert(state, msg).equivocators == state.equivocators,
{
}

/// Two conflicting messages of a validator that the state has not heard of
/// cost that validator's weight exactly once: the first insertion blames
/// nobody, the second one blames the validator and adds its weight, and
/// nothing of that validator that is inserted afterwards adds to it.
pub proof fn lemma_equivocation_counted_once<V>(
    state: StateModel<V>,
    first: MessageModel<V>,
    second: MessageModel<V>,
    third: MessageModel<V>,
)
    requires
        equivocation(first, second),
        third.sender == first.sender,
        count_from(state.latest_msgs, first.sender) == 0,
        !state.equivocators.contains(first.sender),
    ensures
        after_faulty_insert(state, first).state_fault_weight == state.state_fault_weight,
        after_faulty_insert(state, first).equivocators == state.equivocators,
        after_faulty_insert(after_faulty_insert(state, first), second).state_fault_weight
            == state.state_fault_weight + weight_of(state.senders_weights, first.sender),
        after_faulty_insert(after_faulty_insert(state, first), second).equivocators
            == state.equivocators.insert(first.sender),
        after_faulty_insert(
            after_faulty_insert(after_faulty_insert(state, first), second),
            third,
        ).state_fault_weight == state.state_fault_weight + weight_of(
            state.senders_weights,
            first.sender,
        ),
{
    let s = first.sender;
    let l0 = state.latest_msgs;
    lemma_count_from_none(l0, s);
    // the first message becomes the only latest message of its sender
    assert(!covered(l0, first));
    let k0 = l0.filter(not_superseded_by(first));
    lemma_count_from_none(k0, s);
    assert forall|i: int| 0 <= i < k0.len() implies (#[trigger] k0[i]).sender != s by {
        assert(k0.contains(k0[i]));
        l0.lemma_filter_contains_rev(not_superseded_by(first), k0[i]);
    }
    let l1 = k0.push(first);
    assert(l1 == updated(l0, first));
    lemma_count_from_push(k0, first, s);
    let state1 = after_faulty_insert(state, first);
    assert(state1.latest_msgs == l1);
    // the second one joins it
    assert forall|i: int| 0 <= i < l1.len() implies !covers(#[trigger] l1[i], second) by {
        if i < k0.len() {
            assert(l1[i] == k0[i]);
        }
    }
    k0.lemma_filter_push(first, not_superseded_by(second));
    let k1 = k0.filter(not_superseded_by(second));
    assert forall|i: int| 0 <= i < k1.len() implies (#[trigger] k1[i]).sender != s by {
        assert(k1.contains(k1[i]));
        k0.lemma_filter_contains_rev(not_superseded_by(second), k1[i]);
    }
    lemma_count_from_none(k1, s);
    lemma_count_from_push(k1, first, s);
    lemma_count_from_push(k1.push(first), second, s);
    let l2 = k1.push(first).push(second);
    assert(l2 == updated(l1, second));
    assert(l2[l2.len() - 1] == second);
    let state2 = after_faulty_insert(state1, second);
    lemma_blamed_once(state2, third);
}

/// A state that tolerates no equivocating weight is beyond its threshold
/// after the first insertion that blames a validator of nonzero weight.
pub proof fn lemma_zero_threshold_exceeded<V>(state: StateModel<V>, msg: MessageModel<V>)
    requires
        state.fault_tolerance_threshold == 0,
        shows_equivocation(updated(state.latest_msgs, msg), msg),
        !state.equivocators.contains(msg.sender),
        weight_of(state.senders_weights, msg.sender) > 0,
    ensures
        !within_threshold(after_faulty_insert(state, msg)),
{
}

} // verus!
