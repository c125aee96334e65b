use cbc_casper::example::integer::IntegerMsg;
use cbc_casper::example::integer::IntegerWrapper;
use cbc_casper::justification::Justification;
use cbc_casper::justification::LatestMsgs;
use cbc_casper::justification::SenderState;
use cbc_casper::senders_weight::SendersWeight;
use cbc_casper::traits::EstimateError;
use std::collections::HashMap;
use std::collections::HashSet;

fn table(weights: &[(u32, u64)]) -> SendersWeight {
    let map: HashMap<u32, u64> = weights.iter().cloned().collect();
    SendersWeight::new(map)
}

fn fresh_state(weights: &[(u32, u64)], thr: u128) -> SenderState<IntegerWrapper> {
    SenderState::new(table(weights), 0, None, LatestMsgs::new(), thr, HashSet::new())
}

fn vote(sender: u32, estimate: u32) -> IntegerMsg {
    IntegerMsg::new(sender, Justification::new(), IntegerWrapper::new(estimate), None)
}

fn built_upon(sender: u32, estimate: u32, parents: &[&IntegerMsg]) -> IntegerMsg {
    let mut j = Justification::new();
    for p in parents {
        j.insert((*p).clone());
    }
    IntegerMsg::new(sender, j, IntegerWrapper::new(estimate), None)
}

#[test]
fn message_holds_its_parts() {
    let m0 = vote(3, 17);
    assert_eq!(m0.sender(), 3);
    assert_eq!(m0.estimate().value(), 17);
    assert!(m0.justification().is_empty());
    assert!(m0.sender_previous().is_none());
    let m1 = IntegerMsg::new(
        3,
        Justification::from_msgs(vec![m0.clone()], &fresh_state(&[], 0)).0,
        IntegerWrapper::new(18),
        Some(m0.clone()),
    );
    assert_eq!(m1.justification().len(), 1);
    assert!(m1.justification().contains(&m0));
    assert!(m1.sender_previous().unwrap().same(&m0));
    let copy = m1.clone();
    assert!(copy.same(&m1));
    assert!(copy.sender_previous().unwrap().same(&m0));
}

#[test]
fn messages_are_the_same_by_sender_estimate_and_justification() {
    let m0 = vote(0, 1);
    assert!(m0.same(&vote(0, 1)));
    assert!(!m0.same(&vote(1, 1)));
    assert!(!m0.same(&vote(0, 2)));
    assert!(!m0.same(&built_upon(0, 1, &[&vote(1, 1)])));
    assert!(built_upon(0, 1, &[&vote(1, 1)]).same(&built_upon(0, 1, &[&vote(1, 1)])));
    let with_previous =
        IntegerMsg::new(0, Justification::new(), IntegerWrapper::new(1), Some(vote(0, 0)));
    assert!(m0.same(&with_previous));
}

#[test]
fn depends_follows_the_justifications() {
    let m0 = vote(0, 1);
    let m1 = built_upon(1, 2, &[&m0]);
    let m2 = built_upon(2, 3, &[&m1]);
    let other = vote(3, 4);
    assert!(m1.depends(&m0));
    assert!(m2.depends(&m1));
    assert!(m2.depends(&m0));
    assert!(!m0.depends(&m0));
    assert!(!m0.depends(&m1));
    assert!(!m0.depends(&m2));
    assert!(!m2.depends(&m2));
    assert!(!m2.depends(&other));
    assert!(!other.depends(&m2));
}

#[test]
fn equivocation_is_two_unrelated_messages_of_one_sender() {
    let a = vote(0, 1);
    let b = vote(0, 2);
    let later = built_upon(0, 3, &[&a]);
    assert!(a.equivocates(&b));
    assert!(b.equivocates(&a));
    assert!(!a.equivocates(&a));
    assert!(!a.equivocates(&vote(0, 1)));
    assert!(!a.equivocates(&vote(1, 2)));
    assert!(!a.equivocates(&later));
    assert!(!later.equivocates(&a));
    assert!(later.equivocates(&b));
}

#[test]
fn justification_holds_each_message_once() {
    let mut j: Justification<IntegerWrapper> = Justification::new();
    assert!(j.is_empty());
    assert_eq!(j.len(), 0);
    assert!(!j.contains(&vote(0, 1)));
    assert!(j.insert(vote(0, 1)));
    assert!(!j.insert(vote(0, 1)));
    assert!(j.insert(vote(0, 2)));
    assert!(j.insert(vote(1, 1)));
    assert_eq!(j.len(), 3);
    assert!(!j.is_empty());
    assert!(j.contains(&vote(0, 1)));
    assert!(j.contains(&vote(1, 1)));
    assert!(!j.contains(&vote(1, 2)));
    assert_eq!(j.messages().len(), 3);
    assert!(j.messages()[0].same(&vote(0, 1)));
    assert!(j.messages()[1].same(&vote(0, 2)));
    assert!(j.messages()[2].same(&vote(1, 1)));
    let copy = j.clone();
    assert_eq!(copy.len(), 3);
    assert!(copy.contains(&vote(0, 2)));
}

#[test]
fn justification_from_msgs_drops_repetitions() {
    let state = fresh_state(&[(0, 1), (1, 1)], 0);
    let (j, after) =
        Justification::from_msgs(vec![vote(0, 1), vote(1, 2), vote(0, 1), vote(1, 2)], &state);
    assert_eq!(j.len(), 2);
    assert!(j.messages()[0].same(&vote(0, 1)));
    assert!(j.messages()[1].same(&vote(1, 2)));
    assert_eq!(after.latests_msgs().len(), 2);
    assert_eq!(after.latests_msgs().count_from(0), 1);
    assert_eq!(after.latests_msgs().count_from(1), 1);
    assert!(after.equivocators().is_empty());
    assert_eq!(after.fault_weight(), 0);
}

#[test]
fn message_from_msgs_takes_the_estimate_of_its_justification() {
    let state = fresh_state(&[(0, 1), (1, 1), (2, 1)], 1);
    let m0 = vote(0, 1);
    let m1 = vote(1, 2);
    let m2 = vote(2, 3);
    let (m3, after) = IntegerMsg::from_msgs(1, vec![&m0, &m1, &m2, &m1], &state).unwrap();
    assert_eq!(m3.sender(), 1);
    assert_eq!(m3.estimate().value(), 2);
    assert_eq!(m3.justification().len(), 3);
    assert!(m3.justification().contains(&m0));
    assert!(m3.justification().contains(&m1));
    assert!(m3.justification().contains(&m2));
    assert!(m3.sender_previous().is_none());
    assert!(m3.depends(&m1));
    assert_eq!(after.latests_msgs().len(), 3);
    assert!(after.equivocators().is_empty());
    assert_eq!(after.fault_weight(), 0);
    assert_eq!(after.fault_tolerance_threshold(), 1);
    assert_eq!(after.senders_weights().weight(2), Some(1));
    // the state that was handed in is as it was
    assert_eq!(state.latests_msgs().len(), 0);
}

#[test]
fn message_from_msgs_fails_where_there_is_no_estimate() {
    let state = fresh_state(&[(0, 1)], 1);
    assert_eq!(
        IntegerMsg::from_msgs(0, vec![], &state).err(),
        Some(EstimateError::NoMessage)
    );
    let stranger = vote(9, 1);
    assert_eq!(
        IntegerMsg::from_msgs(0, vec![&stranger], &state).err(),
        Some(EstimateError::NoWeight)
    );
    let a = vote(0, 1);
    let b = vote(0, 2);
    assert_eq!(
        IntegerMsg::from_msgs(0, vec![&a, &b], &state).err(),
        Some(EstimateError::NoMessage)
    );
}

#[test]
fn message_from_msgs_leaves_out_the_equivocators_of_the_state() {
    let mut blamed = HashSet::new();
    blamed.insert(0u32);
    let state: SenderState<IntegerWrapper> = SenderState::new(
        table(&[(0, 5), (1, 1), (2, 1)]),
        5,
        None,
        LatestMsgs::new(),
        10,
        blamed,
    );
    let m0 = vote(0, 1);
    let m1 = vote(1, 2);
    let m2 = vote(2, 3);
    let (m, after) = IntegerMsg::from_msgs(2, vec![&m0, &m1, &m2], &state).unwrap();
    assert_eq!(m.estimate().value(), 2);
    assert_eq!(after.fault_weight(), 5);
    assert!(after.equivocators().contains(&0));
    assert_eq!(after.equivocators().len(), 1);
}
