use std::sync::Arc;

use rings_core::kademlia::{Address, Candidate, CandidateDistance, KBucket, KTable};

fn addr(first: u8, last: u8) -> Address {
    let mut b = [0u8; 20];
    b[0] = first;
    b[19] = last;
    Address::new(b)
}

fn cand(id: Address, sdp: &str) -> Candidate {
    Candidate { sdp: sdp.to_string(), id }
}

#[test]
fn xor_and_leading_zeros() {
    let a = addr(0b1010_0000, 1);
    let b = addr(0b1000_0000, 3);
    let x = a.xor(&b);
    assert_eq!(x.0[0], 0b0010_0000);
    assert_eq!(x.0[19], 2);
    assert_eq!(x.leading_zeros(), 2);
    assert_eq!(a.xor(&a).leading_zeros(), 160);
    assert_eq!(addr(0, 1).leading_zeros(), 159);
    assert_eq!(Address::new([0xff; 20]).leading_zeros(), 0);
}

#[test]
fn candidates_are_equal_by_address() {
    let x = cand(addr(1, 0), "one");
    let y = cand(addr(1, 0), "other");
    assert!(x == y);
    assert!(x != cand(addr(2, 0), "one"));
    let near = CandidateDistance(x.clone(), addr(0, 1));
    let far = CandidateDistance(y.clone(), addr(0, 9));
    assert!(near > far);
    assert!(near == far);
}

#[test]
fn bucket_moves_seen_contact_to_tail_and_caps_size() {
    let mut bucket = KBucket::new(100);
    for i in 0..20u8 {
        bucket.update_candidate(cand(addr(0, i), "s"), 100 + i as u64);
    }
    assert_eq!(bucket.get_candidates().len(), 20);
    bucket.update_candidate(cand(addr(0, 0), "fresh"), 200);
    assert_eq!(bucket.get_candidates().len(), 20);
    assert_eq!(bucket.get_candidates()[19].sdp, "fresh");
    assert_eq!(bucket.get_candidates()[0].id, addr(0, 1));
    assert_eq!(bucket.updated_at, 200);
    // a 21st distinct contact pushes out the least recently seen one
    bucket.update_candidate(cand(addr(0, 50), "new"), 201);
    assert_eq!(bucket.get_candidates().len(), 20);
    assert_eq!(bucket.get_candidates()[0].id, addr(0, 2));
    assert!(bucket.contains(&cand(addr(0, 50), "")));
    assert!(!bucket.contains(&cand(addr(0, 1), "")));
}

#[test]
fn bucket_removals_and_staleness() {
    let mut bucket = KBucket::new(10);
    assert!(bucket.remove_lrs().is_none());
    bucket.update_candidate(cand(addr(0, 1), "a"), 10);
    bucket.update_candidate(cand(addr(0, 2), "b"), 10);
    assert_eq!(bucket.remove_candidate(&cand(addr(0, 2), "")).unwrap().sdp, "b");
    assert!(bucket.remove_candidate(&cand(addr(0, 2), "")).is_none());
    assert_eq!(bucket.remove_lrs().unwrap().sdp, "a");
    assert!(!bucket.is_stale(3610));
    assert!(bucket.is_stale(3611));
    assert!(!bucket.is_stale(5));
}

#[test]
fn bucket_split_partitions_by_class() {
    let owner = addr(0, 0);
    let mut bucket = KBucket::new(1);
    bucket.update_candidate(cand(addr(0x80, 0), "c0"), 1);
    bucket.update_candidate(cand(addr(0x40, 0), "c1"), 1);
    bucket.update_candidate(cand(addr(0xc0, 0), "c0b"), 1);
    let moved = bucket.split(&owner, 0);
    let kept: Vec<&str> = bucket.get_candidates().iter().map(|c| c.sdp.as_str()).collect();
    let out: Vec<&str> = moved.get_candidates().iter().map(|c| c.sdp.as_str()).collect();
    assert_eq!(kept, vec!["c0", "c0b"]);
    assert_eq!(out, vec!["c1"]);
    assert_eq!(moved.updated_at, 1);
}

fn table() -> KTable {
    KTable::new(Arc::new(cand(addr(0, 0), "me")), 0)
}

#[test]
fn table_splits_last_bucket_when_full() {
    let mut t = table();
    // twenty contacts of class 0 fill the only bucket
    for i in 0..20u8 {
        assert!(t.update_candidate(cand(addr(0x80 | i, 0), "far"), 1));
    }
    // a contact of class 1: the bucket splits and it finds room
    assert!(t.update_candidate(cand(addr(0x40, 0), "near"), 2));
    // another contact of class 0: bucket 0 is full and no longer the last one
    assert!(!t.update_candidate(cand(addr(0xa0, 7), "refused"), 3));
    // a known contact is always refreshed
    assert!(t.update_candidate(cand(addr(0x80, 0), "again"), 4));
    let closest = t.get_closest_candidate(&addr(0x40, 0), 1);
    assert_eq!(closest.len(), 1);
    assert_eq!(closest[0].sdp, "near");
}

#[test]
fn closest_candidates_are_sorted_by_xor_distance() {
    let mut t = table();
    for i in 1..6u8 {
        t.update_candidate(cand(addr(0, i), &format!("c{}", i)), 1);
    }
    let r = t.get_closest_candidate(&addr(0, 4), 3);
    let ids: Vec<u8> = r.iter().map(|c| c.id.0[19]).collect();
    assert_eq!(ids, vec![4, 5, 1]);
    let all = t.get_closest_candidate(&addr(0, 4), 10);
    assert_eq!(all.len(), 5);
    assert!(t.get_closest_candidate(&addr(0, 4), 0).is_empty());
}

#[test]
fn table_removals_and_staleness() {
    let mut t = table();
    t.update_candidate(cand(addr(0, 1), "a"), 5000);
    t.update_candidate(cand(addr(0, 2), "b"), 5000);
    assert_eq!(t.remove_lrs(&addr(0, 9)).unwrap().sdp, "a");
    t.remove_candidate(&cand(addr(0, 2), ""));
    assert!(t.remove_lrs(&addr(0, 9)).is_none());
    assert_eq!(t.get_stale_indexes(8600), Vec::<usize>::new());
    assert_eq!(t.get_stale_indexes(8601), vec![0]);
}
