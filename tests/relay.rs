use std::collections::VecDeque;
use std::str::FromStr;

use rings_core::chord::Chord;
use rings_core::did::Did;
use rings_core::error::Error;
use rings_core::handler::{check_envelope, handle_message_relay, stabilize_step};
use rings_core::message::{
    AlreadyConnected, FindSuccessor, FoundSuccessor, Message, NotifiedPredecessor,
    NotifyPredecessor,
};
use rings_core::relay::{MessageRelay, MessageRelayMethod, MessageSessionRelayProtocol};

fn ids() -> (Did, Did, Did, Did) {
    (
        Did::from_str("0x00E807fcc88dD319270493fB2e822e388Fe36ab0").unwrap(),
        Did::from_str("0x119999cf1046e68e36E1aA2E0E07105eDDD1f08E").unwrap(),
        Did::from_str("0xccffee254729296a45a3885639AC7E10F9d54979").unwrap(),
        Did::from_str("0xffffee254729296a45a3885639AC7E10F9d54979").unwrap(),
    )
}

fn path(v: &[Did]) -> VecDeque<Did> {
    v.iter().copied().collect()
}

fn relay(method: MessageRelayMethod, to: &[Did], from: &[Did], data: Message) -> MessageRelay {
    MessageRelay::new_with_path(
        "tx".to_string(),
        "msg".to_string(),
        path(to),
        path(from),
        method,
        1000,
        data,
    )
}

#[test]
fn three_hop_find_successor_goes_and_comes_back() {
    let (a, b, c, d) = ids();
    let mut chord_a = Chord::new(a);
    let mut chord_b = Chord::new(b);
    chord_b.join(c);
    let mut chord_c = Chord::new(c);
    chord_c.join(d);

    // A asks B for the successor of d
    let first = relay(
        MessageRelayMethod::SEND,
        &[b],
        &[a],
        Message::FindSuccessor(FindSuccessor { id: d, for_fix: false }),
    );
    assert_eq!(check_envelope(&first, b, 10), Ok(()));
    let out = handle_message_relay(&mut chord_b, first, a).unwrap().unwrap();
    assert_eq!(out.target, c);
    assert_eq!(out.relay.method, MessageRelayMethod::SEND);
    assert_eq!(out.relay.from_path, path(&[a, b]));
    assert_eq!(out.relay.to_path, path(&[b, c]));
    assert_eq!(out.relay.tx_id, "tx");

    // C knows the answer and reports back to B
    let out = handle_message_relay(&mut chord_c, out.relay, b).unwrap().unwrap();
    assert_eq!(out.target, b);
    assert_eq!(out.relay.method, MessageRelayMethod::REPORT);
    assert_eq!(out.relay.to_path, path(&[a, b]));
    assert_eq!(out.relay.from_path, path(&[b, c]));
    match &out.relay.data {
        Message::FoundSuccessor(m) => {
            assert_eq!(m.successor, d);
            assert!(!m.for_fix);
        }
        _ => panic!("expected FoundSuccessor"),
    }

    // B passes it on to A, one tail shorter on each path
    let out = handle_message_relay(&mut chord_b, out.relay, c).unwrap().unwrap();
    assert_eq!(out.target, a);
    assert_eq!(out.relay.to_path, path(&[a]));
    assert_eq!(out.relay.from_path, path(&[b]));

    // A is the originator: it takes the answer as its successor
    assert!(handle_message_relay(&mut chord_a, out.relay, b).unwrap().is_none());
    assert_eq!(chord_a.successor, d);
}

#[test]
fn found_successor_for_fix_fills_the_cursor_slot() {
    let (a, b, _, _) = ids();
    let mut chord_a = Chord::new(a);
    chord_a.fix_finger_index = 7;
    let report = relay(
        MessageRelayMethod::REPORT,
        &[a],
        &[b],
        Message::FoundSuccessor(FoundSuccessor { successor: b, for_fix: true }),
    );
    assert!(handle_message_relay(&mut chord_a, report, b).unwrap().is_none());
    assert_eq!(chord_a.finger[7], Some(b));
    assert_eq!(chord_a.successor, a);
}

#[test]
fn report_not_addressed_here_is_refused() {
    let (a, b, c, _) = ids();
    let mut chord_a = Chord::new(a);
    let report = relay(
        MessageRelayMethod::REPORT,
        &[c],
        &[b],
        Message::FoundSuccessor(FoundSuccessor { successor: b, for_fix: false }),
    );
    assert!(matches!(
        handle_message_relay(&mut chord_a, report, b),
        Err(Error::BadEnvelope)
    ));
    assert_eq!(chord_a.successor, a);
}

#[test]
fn notify_predecessor_is_answered_with_the_new_predecessor() {
    let (a, b, _, _) = ids();
    let mut chord_b = Chord::new(b);
    let send = relay(
        MessageRelayMethod::SEND,
        &[b],
        &[a],
        Message::NotifyPredecessor(NotifyPredecessor { predecessor: a }),
    );
    let out = handle_message_relay(&mut chord_b, send, a).unwrap().unwrap();
    assert_eq!(chord_b.predecessor, Some(a));
    assert_eq!(out.target, a);
    assert_eq!(out.relay.method, MessageRelayMethod::REPORT);
    assert_eq!(out.relay.to_path, path(&[a]));
    match &out.relay.data {
        Message::NotifiedPredecessor(m) => assert_eq!(m.predecessor, a),
        _ => panic!("expected NotifiedPredecessor"),
    }

    let mut chord_a = Chord::new(a);
    assert!(handle_message_relay(&mut chord_a, out.relay, b).unwrap().is_none());
    assert_eq!(chord_a.successor, a);
}

#[test]
fn notified_predecessor_sets_successor() {
    let (a, b, c, _) = ids();
    let mut chord_a = Chord::new(a);
    let report = relay(
        MessageRelayMethod::REPORT,
        &[a],
        &[b],
        Message::NotifiedPredecessor(NotifiedPredecessor { predecessor: c }),
    );
    assert!(handle_message_relay(&mut chord_a, report, b).unwrap().is_none());
    assert_eq!(chord_a.successor, c);
}

#[test]
fn other_payloads_change_nothing() {
    let (a, b, _, _) = ids();
    let mut chord = Chord::new(a);
    let ack = relay(
        MessageRelayMethod::SEND,
        &[a],
        &[b],
        Message::AlreadyConnected(AlreadyConnected),
    );
    assert!(handle_message_relay(&mut chord, ack, b).unwrap().is_none());
    let empty = relay(MessageRelayMethod::SEND, &[a], &[b], Message::Empty);
    assert!(matches!(
        handle_message_relay(&mut chord, empty, b),
        Err(Error::InvariantViolation)
    ));
    let wrong = relay(
        MessageRelayMethod::REPORT,
        &[a],
        &[b],
        Message::FindSuccessor(FindSuccessor { id: b, for_fix: false }),
    );
    assert!(matches!(
        handle_message_relay(&mut chord, wrong, b),
        Err(Error::BadEnvelope)
    ));
}

#[test]
fn find_successor_without_route_fails() {
    let (a, b, _, d) = ids();
    let mut chord = Chord::new(a);
    let send = relay(
        MessageRelayMethod::SEND,
        &[a],
        &[b],
        Message::FindSuccessor(FindSuccessor { id: d, for_fix: false }),
    );
    assert!(matches!(
        handle_message_relay(&mut chord, send, b),
        Err(Error::RoutingExhausted)
    ));
}

#[test]
fn envelope_checks() {
    let (a, b, _, _) = ids();
    let r = relay(MessageRelayMethod::SEND, &[b], &[a], Message::Empty);
    assert_eq!(check_envelope(&r, b, 1000), Ok(()));
    assert_eq!(check_envelope(&r, b, 1001), Err(Error::BadEnvelope));
    assert_eq!(check_envelope(&r, a, 10), Err(Error::BadEnvelope));
    let none = relay(MessageRelayMethod::SEND, &[], &[a], Message::Empty);
    assert_eq!(check_envelope(&none, b, 10), Err(Error::BadEnvelope));
}

#[test]
fn path_primitives() {
    let (a, b, c, _) = ids();
    let mut r = relay(MessageRelayMethod::SEND, &[b], &[a], Message::Empty);
    assert_eq!(r.find_prev(), Some(a));
    r.next_hop(b, c);
    assert_eq!(r.to_path, path(&[b, c]));
    assert_eq!(r.from_path, path(&[a, b]));
    r.push_prev(c, b);
    assert_eq!(r.from_path, path(&[a, b, b]));
    assert_eq!(r.remove_from_path(), Some(b));
    assert_eq!(r.remove_to_path(), Some(c));
    r.add_to_path(a);
    r.add_from_path(c);
    assert_eq!(r.to_path, path(&[b, a]));
    assert_eq!(r.from_path, path(&[a, b, c]));

    let mut back = relay(MessageRelayMethod::REPORT, &[a, b], &[b, c], Message::Empty);
    assert_eq!(back.find_prev(), Some(b));
    back.push_prev(b, c);
    assert_eq!(back.to_path, path(&[a]));
    assert_eq!(back.from_path, path(&[b, c, c]));
    let mut empty = relay(MessageRelayMethod::REPORT, &[], &[], Message::Empty);
    assert_eq!(empty.find_prev(), None);
    assert_eq!(empty.remove_to_path(), None);
    assert_eq!(empty.remove_from_path(), None);
}

#[test]
fn stabilize_step_notifies_successor_and_fixes_a_finger() {
    let (a, b, _, _) = ids();
    let mut chord = Chord::new(a);
    chord.join(b);
    let (notify, fix) = stabilize_step(&mut chord, 500);
    assert_eq!(notify.target, b);
    assert_eq!(notify.relay.method, MessageRelayMethod::SEND);
    assert_eq!(notify.relay.to_path, path(&[b]));
    assert_eq!(notify.relay.from_path, path(&[a]));
    assert_eq!(notify.relay.ttl_deadline, 500);
    match &notify.relay.data {
        Message::NotifyPredecessor(m) => assert_eq!(m.predecessor, a),
        _ => panic!("expected NotifyPredecessor"),
    }
    assert!(fix.unwrap().is_none());
    assert_eq!(chord.fix_finger_index, 1);

    chord.fix_finger_index = 158;
    let (_, fix) = stabilize_step(&mut chord, 500);
    let out = fix.unwrap().unwrap();
    assert_eq!(out.target, b);
    assert_eq!(out.relay.to_path, path(&[b]));
    assert_eq!(out.relay.from_path, path(&[a]));
    match &out.relay.data {
        Message::FindSuccessor(m) => {
            assert_eq!(m.id, a + Did::pow2(159));
            assert!(m.for_fix);
        }
        _ => panic!("expected FindSuccessor"),
    }
}
