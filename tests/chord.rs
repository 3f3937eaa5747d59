use std::str::FromStr;

use num_bigint::BigUint;
use rings_core::chord::{Chord, ChordAction, RemoteAction};
use rings_core::did::Did;
use rings_core::error::Error;

fn big(d: &Did) -> BigUint {
    BigUint::from_bytes_be(&d.to_bytes())
}

fn did_of(n: &BigUint) -> Did {
    Did::from_be_slice(&n.to_bytes_be())
}

fn ids() -> (Did, Did, Did, Did) {
    (
        Did::from_str("0x00E807fcc88dD319270493fB2e822e388Fe36ab0").unwrap(),
        Did::from_str("0x119999cf1046e68e36E1aA2E0E07105eDDD1f08E").unwrap(),
        Did::from_str("0xccffee254729296a45a3885639AC7E10F9d54979").unwrap(),
        Did::from_str("0xffffee254729296a45a3885639AC7E10F9d54979").unwrap(),
    )
}

#[test]
fn test_chord_finger() {
    let a = Did::from_str("0x00E807fcc88dD319270493fB2e822e388Fe36ab0").unwrap();
    let b = Did::from_str("0x119999cf1046e68e36E1aA2E0E07105eDDD1f08E").unwrap();
    let c = Did::from_str("0xccffee254729296a45a3885639AC7E10F9d54979").unwrap();
    let d = Did::from_str("0xffffee254729296a45a3885639AC7E10F9d54979").unwrap();

    assert!(a < b && b < c);
    // distence between (a, d) is less than (b, d)
    assert!((a - d) < (b - d));

    let mut node_a = Chord::new(a);
    assert_eq!(node_a.successor, a);

    // for increase seq join
    node_a.join(a);
    // Node A wont add self to finder
    assert_eq!(node_a.finger, [None; 160]);
    node_a.join(b);
    // b is very far away from a
    // a.finger should store did as range
    // [(a, a+2), (a+2, a+4), (a+4, a+8), ..., (a+2^159, a + 2^160)]
    // b is in range(a+2^156, a+2^157)
    assert!(big(&b) > BigUint::from(2u16).pow(156));
    assert!(big(&b) < BigUint::from(2u16).pow(157));
    // Node A's finter should be [None, .., B]
    assert!(node_a.finger.contains(&Some(b)));
    assert!(node_a.finger.contains(&None));

    // Node A starts to query node b for it's successor
    assert_eq!(
        node_a.join(b),
        ChordAction::RemoteAction(RemoteAction::FindSuccessor((b, a)))
    );
    assert_eq!(node_a.successor, b);
    // Node A keep querying node b for it's successor
    assert_eq!(
        node_a.join(c),
        ChordAction::RemoteAction(RemoteAction::FindSuccessor((b, a)))
    );
    // Node A's finter should be [None, ..B, C]
    assert!(node_a.finger.contains(&Some(c)), "{:?}", node_a.finger);
    // c is in range(a+2^159, a+2^160)
    assert!(big(&c) > BigUint::from(2u16).pow(159));
    assert!(big(&c) < BigUint::from(2u16).pow(160));

    assert_eq!(node_a.finger[159], Some(c));
    assert_eq!(node_a.finger[158], Some(c));
    assert_eq!(node_a.finger[155], Some(b));
    assert_eq!(node_a.finger[156], Some(b));

    assert_eq!(node_a.successor, b);
    // Node A will query c to find d
    assert_eq!(
        node_a.find_successor(d).unwrap(),
        ChordAction::RemoteAction(RemoteAction::FindSuccessor((c, d)))
    );
    assert_eq!(
        node_a.find_successor(c).unwrap(),
        ChordAction::RemoteAction(RemoteAction::FindSuccessor((b, c)))
    );

    // for decrease seq join
    let mut node_d = Chord::new(d);
    assert_eq!(
        node_d.join(c),
        ChordAction::RemoteAction(RemoteAction::FindSuccessor((c, d)))
    );
    assert_eq!(
        node_d.join(b),
        ChordAction::RemoteAction(RemoteAction::FindSuccessor((b, d)))
    );
    assert_eq!(
        node_d.join(a),
        ChordAction::RemoteAction(RemoteAction::FindSuccessor((a, d)))
    );

    // for over half ring join
    let mut node_d = Chord::new(d);
    assert_eq!(node_d.successor, d);
    assert_eq!(
        node_d.join(a),
        ChordAction::RemoteAction(RemoteAction::FindSuccessor((a, d)))
    );
    // for a ring a, a is over 2^152 far away from d
    assert!(d + did_of(&BigUint::from(2u16).pow(152)) > a);
    assert!(d + did_of(&BigUint::from(2u16).pow(151)) < a);
    assert!(node_d.finger.contains(&Some(a)));
    assert_eq!(node_d.finger[151], Some(a));
    assert_eq!(node_d.finger[152], None);
    assert_eq!(node_d.finger[0], Some(a));
    // when b insearted a is still more close to d
    assert_eq!(
        node_d.join(b),
        ChordAction::RemoteAction(RemoteAction::FindSuccessor((a, d)))
    );
    assert!(d + did_of(&BigUint::from(2u16).pow(159)) > b);
    assert_eq!(node_d.successor, a);
}

#[test]
fn join_self_changes_nothing() {
    let (a, _, _, _) = ids();
    let mut node = Chord::new(a);
    assert_eq!(node.join(a), ChordAction::Nothing);
    assert!(node.finger.iter().all(|f| f.is_none()));
    assert_eq!(node.successor, a);
    assert_eq!(node.predecessor, None);
}

#[test]
fn join_fills_fingers_up_to_the_joined_node() {
    let (a, b, _, _) = ids();
    let mut node = Chord::new(a);
    node.join(b);
    assert_eq!(node.finger[156], Some(b));
    assert_eq!(node.finger[0], Some(b));
    assert_eq!(node.finger[157], None);
    assert_eq!(node.successor, b);
}

#[test]
fn notify_takes_nearer_predecessor() {
    let (a, b, c, d) = ids();
    let mut node = Chord::new(d);
    assert_eq!(node.check_predecessor(), ChordAction::Nothing);
    node.notify(a);
    assert_eq!(node.predecessor, Some(a));
    // c lies in (a, d)
    node.notify(c);
    assert_eq!(node.predecessor, Some(c));
    // b does not lie in (c, d)
    node.notify(b);
    assert_eq!(node.predecessor, Some(c));
    assert_eq!(
        node.check_predecessor(),
        ChordAction::RemoteAction(RemoteAction::CheckPredecessor(c))
    );
}

#[test]
fn stabilize_adopts_predecessor_between_self_and_successor() {
    let (a, b, c, _) = ids();
    let mut node = Chord::new(a);
    node.join(c);
    assert_eq!(node.successor, c);
    assert_eq!(node.stablilize(), ChordAction::Nothing);
    node.predecessor = Some(b);
    assert_eq!(
        node.stablilize(),
        ChordAction::RemoteAction(RemoteAction::Notify((b, a)))
    );
    assert_eq!(node.successor, b);
    // a predecessor outside (self, successor) changes nothing
    node.predecessor = Some(c);
    assert_eq!(node.stablilize(), ChordAction::Nothing);
    assert_eq!(node.successor, b);
}

#[test]
fn closest_preceding_node_fails_on_empty_table() {
    let (a, _, _, d) = ids();
    let node = Chord::new(a);
    assert_eq!(node.closest_preceding_node(d), Err(Error::RoutingExhausted));
    assert_eq!(node.find_successor(d), Err(Error::RoutingExhausted));
}

#[test]
fn find_successor_answers_inside_successor_arc() {
    let (a, b, _, _) = ids();
    let mut node = Chord::new(a);
    node.join(b);
    assert_eq!(node.find_successor(b), Ok(ChordAction::Resolved(b)));
    let inside = a + Did::pow2(10);
    assert_eq!(node.find_successor(inside), Ok(ChordAction::Resolved(inside)));
    // a itself is not in (a, b], and no finger precedes it
    assert_eq!(node.find_successor(a), Err(Error::RoutingExhausted));
}

#[test]
fn fix_fingers_moves_cursor_and_sets_local_answers() {
    let (a, b, c, _) = ids();
    let mut alone = Chord::new(a);
    assert_eq!(alone.fix_fingers(), Err(Error::RoutingExhausted));
    assert_eq!(alone.fix_finger_index, 1);

    let mut node = Chord::new(a);
    node.join(b);
    node.finger[2] = None;
    assert_eq!(node.fix_fingers(), Ok(ChordAction::Nothing));
    assert_eq!(node.fix_finger_index, 1);
    assert_eq!(node.finger[1], Some(a + Did::pow2(1)));

    node.join(c);
    node.fix_finger_index = 158;
    // a + 2^159 lies beyond b: asked of the closest preceding finger
    let q = a + Did::pow2(159);
    assert_eq!(
        node.fix_fingers(),
        Ok(ChordAction::RemoteAction(
            RemoteAction::FindSuccessorAndAddToFinger((159, b, q))
        ))
    );
    assert_eq!(node.fix_finger_index, 159);
    assert_eq!(node.fix_fingers(), Ok(ChordAction::Nothing));
    assert_eq!(node.fix_finger_index, 0);
    assert_eq!(node.finger[0], Some(a + Did::pow2(0)));
}
