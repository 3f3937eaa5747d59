use std::sync::Arc;

use rings_core::error::Error;
use rings_core::hashring::HashRing;
use rings_core::kademlia::Address;
use rings_core::response::{base64_encode_json, TransportAndIce};
use rings_core::route::{Candidate, Key, RouteBucket, RouteTable};
use rings_core::storage::Storage;

fn key(first: u8, last: u8) -> Key {
    let mut b = [0u8; 20];
    b[0] = first;
    b[19] = last;
    Key::new(b)
}

fn cand(k: Key, sdp: &str) -> Candidate {
    Candidate { sdp: sdp.to_string(), key: k }
}

#[test]
fn route_table_without_owner_refuses_everything() {
    let mut t = RouteTable::new(0);
    assert!(!t.update_candidate(cand(key(1, 1), "x"), 1));
    assert!(t.get_closest_candidate(&key(1, 1), 5).is_empty());
    assert!(t.remove_lrs(&key(1, 1)).is_none());
    assert_eq!(t.remove_candidate(&cand(key(1, 1), "x")), Err(Error::NoCandidate));
    assert_eq!(t.get_stale_indexes(3601), vec![0]);
}

#[test]
fn route_table_with_owner_keeps_contacts() {
    let mut t = RouteTable::new(0);
    t.set_candidate(Arc::new(cand(key(0, 0), "me")));
    assert!(t.update_candidate(cand(key(0x80, 1), "a"), 10));
    assert!(t.update_candidate(cand(key(0x40, 2), "b"), 10));
    let r = t.get_closest_candidate(&key(0x40, 0), 1);
    assert_eq!(r.len(), 1);
    assert_eq!(r[0].sdp, "b");
    // the least recently seen contact of the bucket goes first
    assert_eq!(t.remove_lrs(&key(0x40, 0)).unwrap().sdp, "a");
    assert_eq!(t.remove_candidate(&cand(key(0x40, 2), "")), Ok(()));
    assert!(t.get_closest_candidate(&key(0x80, 1), 3).is_empty());
}

#[test]
fn route_bucket_basics() {
    let mut b = RouteBucket::new(0);
    b.update_candidate(cand(key(0, 1), "one"), 5);
    assert!(b.contains(&cand(key(0, 1), "")));
    assert!(!b.is_stale(3605));
    assert!(b.is_stale(3606));
    assert_eq!(b.remove_candidate(&cand(key(0, 1), "")).unwrap().sdp, "one");
    assert_eq!(key(0x0f, 0).leading_zeros(), 4);
}

#[test]
fn hash_ring_keeps_key_order() {
    let mut ring = HashRing::new();
    let k = |x: u8| {
        let mut b = [0u8; 20];
        b[0] = x;
        Address::new(b)
    };
    ring.insert(k(5), ("five".to_string(), vec![5]));
    ring.insert(k(1), ("one".to_string(), vec![1]));
    ring.insert(k(9), ("nine".to_string(), vec![9]));
    ring.insert(k(5), ("five again".to_string(), vec![]));
    let names: Vec<&str> = ring.nodes().iter().map(|n| n.msg.0.as_str()).collect();
    assert_eq!(names, vec!["one", "five", "five again", "nine"]);
}

#[test]
fn transport_and_ice_copies_its_arguments() {
    let t = TransportAndIce::new("tid", "ice-blob");
    assert_eq!(t.transport_id, "tid");
    assert_eq!(t.ice, "ice-blob");
}

#[test]
fn base64_of_json_bytes() {
    assert_eq!(base64_encode_json(b"{\"a\":1}"), "eyJhIjoxfQ==");
    assert_eq!(base64_encode_json(b""), "");
    assert_eq!(base64_encode_json(b"ab").len(), 4);
}

#[test]
fn storage_entries_expire_after_an_hour() {
    let mut b = [0u8; 20];
    b[3] = 7;
    let a = Address::new(b);
    let other = Address::new([1u8; 20]);
    let mut s = Storage::new();
    assert_eq!(s.get(&a, 10), None);
    s.insert(a, "sdp-a".to_string(), 100);
    s.insert(other, "sdp-o".to_string(), 2000);
    assert_eq!(s.get(&a, 3700), Some("sdp-a".to_string()));
    // stored at 100: expired once the cutoff passes it
    assert_eq!(s.get(&a, 3701), None);
    assert_eq!(s.get(&other, 3701), Some("sdp-o".to_string()));
    // storing again refreshes the time
    s.insert(other, "sdp-o2".to_string(), 5000);
    assert_eq!(s.get(&other, 8000), Some("sdp-o2".to_string()));
    assert_eq!(s.get(&other, 8601), None);
}
