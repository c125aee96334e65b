use cbc_casper::example::integer::IntegerMsg;
use cbc_casper::example::integer::IntegerWrapper;
use cbc_casper::justification::Justification;
use cbc_casper::justification::LatestMsgs;
use cbc_casper::justification::SafetyThresholdExceeded;
use cbc_casper::justification::SenderState;
use cbc_casper::senders_weight::SendersWeight;
use std::collections::HashMap;
use std::collections::HashSet;

fn table(weights: &[(u32, u64)]) -> SendersWeight {
    let map: HashMap<u32, u64> = weights.iter().cloned().collect();
    SendersWeight::new(map)
}

fn fresh_state(weights: &[(u32, u64)], thr: u128) -> SenderState<IntegerWrapper> {
    SenderState::new(table(weights), 0, None, LatestMsgs::new(), thr, HashSet::new())
}

fn vote(sender: u32, estimate: u32) -> IntegerMsg {
    IntegerMsg::new(sender, Justification::new(), IntegerWrapper::new(estimate), None)
}

fn built_upon(sender: u32, estimate: u32, parents: &[&IntegerMsg]) -> IntegerMsg {
    let mut j = Justification::new();
    for p in parents {
        j.insert((*p).clone());
    }
    IntegerMsg::new(sender, j, IntegerWrapper::new(estimate), None)
}

#[test]
fn state_holds_its_parts() {
    let mut blamed = HashSet::new();
    blamed.insert(1u32);
    blamed.insert(4u32);
    let own = vote(0, 9);
    let state: SenderState<IntegerWrapper> = SenderState::new(
        table(&[(0, 2), (1, 3), (4, 5)]),
        8,
        Some(own.clone()),
        LatestMsgs::new(),
        20,
        blamed,
    );
    assert_eq!(state.fault_weight(), 8);
    assert_eq!(state.fault_tolerance_threshold(), 20);
    assert_eq!(state.equivocators().len(), 2);
    assert!(state.equivocators().contains(&1));
    assert!(state.equivocators().contains(&4));
    assert_eq!(state.senders_weights().weight(4), Some(5));
    assert!(state.my_last_msg().as_ref().unwrap().same(&own));
    assert_eq!(state.latests_msgs().len(), 0);
    assert_eq!(state.check_threshold(), Ok(()));
    let copy = state.clone();
    assert_eq!(copy.fault_weight(), 8);
    assert_eq!(copy.fault_tolerance_threshold(), 20);
    assert_eq!(copy.equivocators(), state.equivocators());
    assert!(copy.my_last_msg().as_ref().unwrap().same(&own));
}

#[test]
fn latest_messages_keep_the_newest_of_each_sender() {
    let m0 = vote(0, 1);
    let m1 = built_upon(0, 2, &[&m0]);
    let m2 = built_upon(0, 3, &[&m1]);
    let other = vote(1, 7);
    let mut latest: LatestMsgs<IntegerWrapper> = LatestMsgs::new();
    assert!(latest.update(&m0));
    assert!(!latest.update(&m0));
    assert!(latest.update(&other));
    assert!(latest.update(&m2));
    assert!(!latest.update(&m1));
    assert!(!latest.update(&m0));
    assert_eq!(latest.len(), 2);
    assert_eq!(latest.count_from(0), 1);
    assert_eq!(latest.count_from(1), 1);
    assert_eq!(latest.count_from(2), 0);
    assert!(latest.contains(&m2));
    assert!(latest.contains(&other));
    assert!(!latest.contains(&m0));
    assert!(!latest.contains(&m1));
    assert!(latest.messages()[0].same(&other));
    assert!(latest.messages()[1].same(&m2));
    assert_eq!(latest.clone().len(), 2);
}

#[test]
fn latest_messages_of_a_justification_do_not_depend_on_its_order() {
    let m0 = vote(0, 1);
    let m1 = built_upon(0, 2, &[&m0]);
    let other = vote(1, 7);
    let mut forward = Justification::new();
    forward.insert(m0.clone());
    forward.insert(other.clone());
    forward.insert(m1.clone());
    let mut backward = Justification::new();
    backward.insert(m1.clone());
    backward.insert(other.clone());
    backward.insert(m0.clone());
    for j in [forward, backward] {
        let latest = LatestMsgs::from(&j);
        assert_eq!(latest.len(), 2);
        assert!(latest.contains(&m1));
        assert!(latest.contains(&other));
        assert!(!latest.contains(&m0));
    }
}

#[test]
fn from_msgs_records_conflicting_messages_without_blame() {
    let state = fresh_state(&[(0, 3), (1, 1)], 10);
    let (j, after) = Justification::from_msgs(vec![vote(0, 1), vote(0, 2), vote(1, 5)], &state);
    assert_eq!(j.len(), 3);
    assert_eq!(after.latests_msgs().count_from(0), 2);
    assert_eq!(after.latests_msgs().count_from(1), 1);
    assert!(after.equivocators().is_empty());
    assert_eq!(after.fault_weight(), 0);
    assert_eq!(after.check_threshold(), Ok(()));
}

#[test]
fn equivocation_is_counted_once() {
    let state = fresh_state(&[(0, 3), (1, 5)], 10);
    let a = vote(0, 1);
    let b = vote(0, 2);
    let c = vote(0, 3);
    let mut j = Justification::new();

    let (added, s1) = j.faulty_insert(&a, &state);
    assert!(added);
    assert_eq!(s1.fault_weight(), 0);
    assert!(s1.equivocators().is_empty());
    assert_eq!(s1.latests_msgs().count_from(0), 1);

    let (added, s2) = j.faulty_insert(&b, &s1);
    assert!(added);
    assert_eq!(s2.fault_weight(), 3);
    assert_eq!(s2.equivocators().len(), 1);
    assert!(s2.equivocators().contains(&0));
    assert_eq!(s2.latests_msgs().count_from(0), 2);

    let (added, s3) = j.faulty_insert(&b, &s2);
    assert!(!added);
    assert_eq!(s3.fault_weight(), 3);
    assert_eq!(s3.equivocators().len(), 1);
    assert_eq!(s3.latests_msgs().count_from(0), 2);

    let (added, s4) = j.faulty_insert(&c, &s3);
    assert!(added);
    assert_eq!(s4.fault_weight(), 3);
    assert_eq!(s4.equivocators().len(), 1);
    assert_eq!(s4.latests_msgs().count_from(0), 3);
    assert_eq!(j.len(), 3);

    // the states that were handed in are as they were
    assert_eq!(state.fault_weight(), 0);
    assert_eq!(s1.fault_weight(), 0);
}

#[test]
fn each_equivocator_adds_its_own_weight() {
    let state = fresh_state(&[(0, 3), (1, 5), (2, u64::MAX)], 10);
    let mut j = Justification::new();
    let (_, s) = j.faulty_insert(&vote(0, 1), &state);
    let (_, s) = j.faulty_insert(&vote(1, 1), &s);
    let (_, s) = j.faulty_insert(&vote(2, 1), &s);
    assert_eq!(s.fault_weight(), 0);
    let (_, s) = j.faulty_insert(&vote(1, 2), &s);
    assert_eq!(s.fault_weight(), 5);
    let (_, s) = j.faulty_insert(&vote(0, 2), &s);
    assert_eq!(s.fault_weight(), 8);
    let (_, s) = j.faulty_insert(&vote(2, 2), &s);
    assert_eq!(s.fault_weight(), 8 + u64::MAX as u128);
    assert_eq!(s.equivocators().len(), 3);
    assert_eq!(s.check_threshold(), Err(SafetyThresholdExceeded));
}

#[test]
fn unknown_equivocator_weighs_nothing() {
    let state = fresh_state(&[(0, 3)], 0);
    let mut j = Justification::new();
    let (_, s) = j.faulty_insert(&vote(7, 1), &state);
    let (_, s) = j.faulty_insert(&vote(7, 2), &s);
    assert!(s.equivocators().contains(&7));
    assert_eq!(s.fault_weight(), 0);
    assert_eq!(s.check_threshold(), Ok(()));
}

#[test]
fn later_message_of_a_sender_is_no_equivocation() {
    let state = fresh_state(&[(0, 3)], 0);
    let m0 = vote(0, 1);
    let m1 = built_upon(0, 2, &[&m0]);
    let mut j = Justification::new();
    let (_, s) = j.faulty_insert(&m0, &state);
    let (_, s) = j.faulty_insert(&m1, &s);
    assert_eq!(s.fault_weight(), 0);
    assert!(s.equivocators().is_empty());
    assert_eq!(s.latests_msgs().count_from(0), 1);
    assert!(s.latests_msgs().contains(&m1));
    // and neither is an earlier one that arrives late
    let mut j = Justification::new();
    let (_, s) = j.faulty_insert(&m1, &state);
    let (added, s) = j.faulty_insert(&m0, &s);
    assert!(added);
    assert_eq!(j.len(), 2);
    assert_eq!(s.fault_weight(), 0);
    assert!(s.equivocators().is_empty());
    assert_eq!(s.latests_msgs().count_from(0), 1);
    assert!(s.latests_msgs().contains(&m1));
}

#[test]
fn faulty_insert_blames_a_sender_that_from_msgs_let_pass() {
    let state = fresh_state(&[(0, 3)], 10);
    let a = vote(0, 1);
    let b = vote(0, 2);
    let (mut j, s) = Justification::from_msgs(vec![a.clone(), b.clone()], &state);
    assert_eq!(s.fault_weight(), 0);
    let (added, s) = j.faulty_insert(&a, &s);
    assert!(!added);
    assert_eq!(s.fault_weight(), 3);
    assert!(s.equivocators().contains(&0));
}

#[test]
fn zero_threshold_is_exceeded_by_the_first_equivocation() {
    let state = fresh_state(&[(0, 1), (1, 1)], 0);
    assert_eq!(state.check_threshold(), Ok(()));
    let mut j = Justification::new();
    let (_, s1) = j.faulty_insert(&vote(0, 1), &state);
    assert_eq!(s1.check_threshold(), Ok(()));
    let (_, s2) = j.faulty_insert(&vote(1, 1), &s1);
    assert_eq!(s2.check_threshold(), Ok(()));
    let (_, s3) = j.faulty_insert(&vote(0, 2), &s2);
    assert_eq!(s3.fault_weight(), 1);
    assert_eq!(s3.check_threshold(), Err(SafetyThresholdExceeded));
}

#[test]
fn threshold_is_exceeded_only_above_it() {
    let state = fresh_state(&[(0, 2), (1, 3)], 2);
    let mut j = Justification::new();
    let (_, s) = j.faulty_insert(&vote(0, 1), &state);
    let (_, s) = j.faulty_insert(&vote(0, 2), &s);
    assert_eq!(s.fault_weight(), 2);
    assert_eq!(s.check_threshold(), Ok(()));
    let (_, s) = j.faulty_insert(&vote(1, 1), &s);
    let (_, s) = j.faulty_insert(&vote(1, 2), &s);
    assert_eq!(s.fault_weight(), 5);
    assert_eq!(s.check_threshold(), Err(SafetyThresholdExceeded));
}
