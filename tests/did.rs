use std::str::FromStr;

use num_bigint::BigUint;
use rings_core::did::{sort_by_ring, BiasId, Did, SortRing};
use rings_core::error::Error;

fn big(d: &Did) -> BigUint {
    BigUint::from_bytes_be(&d.to_bytes())
}

#[test]
fn test_did() {
    let a = Did::from_str("0x11E807fcc88dD319270493fB2e822e388Fe36ab0").unwrap();
    let b = Did::from_str("0x999999cf1046e68e36E1aA2E0E07105eDDD1f08E").unwrap();
    let c = Did::from_str("0xc0ffee254729296a45a3885639AC7E10F9d54979").unwrap();
    assert!(c > b && b > a);
}

#[test]
fn test_finate_ring_neg() {
    let zero = Did::from_str("0x0000000000000000000000000000000000000000").unwrap();
    let a = Did::from_str("0x11E807fcc88dD319270493fB2e822e388Fe36ab0").unwrap();
    assert_eq!(-a + a, zero);
    assert_eq!(-(-a), a);
}

#[test]
fn test_sort() {
    let a = Did::from_str("0xaaE807fcc88dD319270493fB2e822e388Fe36ab0").unwrap();
    let b = Did::from_str("0xbb9999cf1046e68e36E1aA2E0E07105eDDD1f08E").unwrap();
    let c = Did::from_str("0xccffee254729296a45a3885639AC7E10F9d54979").unwrap();
    let d = Did::from_str("0xdddfee254729296a45a3885639AC7E10F9d54979").unwrap();
    let mut v = vec![c, b, a, d];
    v.sort(a);
    assert_eq!(v, vec![a, b, c, d]);
    v.sort(b);
    assert_eq!(v, vec![b, c, d, a]);
    v.sort(c);
    assert_eq!(v, vec![c, d, a, b]);
    v.sort(d);
    assert_eq!(v, vec![d, a, b, c]);
}

#[test]
fn ring_distances_cancel() {
    let x = Did::from_str("0x00E807fcc88dD319270493fB2e822e388Fe36ab0").unwrap();
    let y = Did::from_str("0xffffee254729296a45a3885639AC7E10F9d54979").unwrap();
    assert_eq!((x - y) + (y - x), Did::zero());
    assert_eq!(x + (-x), Did::zero());
    assert_eq!(-(-y), y);
    assert_eq!(-Did::zero(), Did::zero());
}

#[test]
fn ring_addition_wraps() {
    let max = Did::from_str("0xffffffffffffffffffffffffffffffffffffffff").unwrap();
    let one = Did::pow2(0);
    assert_eq!(max + one, Did::zero());
    assert_eq!(Did::zero() - one, max);
    assert_eq!(big(&(max + max)), big(&max) - BigUint::from(1u8));
}

#[test]
fn pow2_values() {
    assert_eq!(big(&Did::pow2(0)), BigUint::from(1u8));
    assert_eq!(big(&Did::pow2(159)), BigUint::from(2u16).pow(159));
    assert_eq!(big(&Did::pow2(128)), BigUint::from(2u16).pow(128));
}

#[test]
fn bytes_round_trip() {
    let mut bytes = [0u8; 20];
    for (i, b) in bytes.iter_mut().enumerate() {
        *b = (i as u8) * 13 + 1;
    }
    let d = Did::from_bytes(bytes);
    assert_eq!(d.to_bytes(), bytes);
    assert_eq!(big(&d), BigUint::from_bytes_be(&bytes));
}

#[test]
fn from_be_slice_reduces_modulo_ring() {
    let n = BigUint::from(2u16).pow(160) + BigUint::from(5u8);
    let d = Did::from_be_slice(&n.to_bytes_be());
    assert_eq!(big(&d), BigUint::from(5u8));
    let small = Did::from_be_slice(&[1u8, 0]);
    assert_eq!(big(&small), BigUint::from(256u16));
    assert_eq!(Did::from_be_slice(&[]), Did::zero());
}

#[test]
fn parse_rejects_bad_hex() {
    assert_eq!(Did::from_str("0xzz"), Err(Error::BadHex));
    assert_eq!(Did::from_str("0x1234"), Err(Error::BadHex));
    let with = Did::from_str("0x119999cf1046e68e36E1aA2E0E07105eDDD1f08E").unwrap();
    let without = Did::from_str("119999cf1046e68e36e1aa2e0e07105eddd1f08e").unwrap();
    assert_eq!(with, without);
    assert_eq!(with.to_bytes()[0], 0x11);
    assert_eq!(with.to_bytes()[19], 0x8e);
}

#[test]
fn in_range_follows_the_ring() {
    let a = Did::from_str("0x00E807fcc88dD319270493fB2e822e388Fe36ab0").unwrap();
    let b = Did::from_str("0x119999cf1046e68e36E1aA2E0E07105eDDD1f08E").unwrap();
    let c = Did::from_str("0xccffee254729296a45a3885639AC7E10F9d54979").unwrap();
    let d = Did::from_str("0xffffee254729296a45a3885639AC7E10F9d54979").unwrap();
    assert!(b.in_range(&a, &a, &c));
    assert!(!d.in_range(&a, &a, &c));
    // the arc (c, b) wraps through zero
    assert!(a.in_range(&c, &c, &b));
    assert!(d.in_range(&c, &c, &b));
    assert!(!a.in_range(&a, &a, &b));
}

#[test]
fn bias_rebases_positions() {
    let a = Did::from_str("0x00E807fcc88dD319270493fB2e822e388Fe36ab0").unwrap();
    let d = Did::from_str("0xffffee254729296a45a3885639AC7E10F9d54979").unwrap();
    let bd = d.bias(&d);
    assert_eq!(bd.pos(), Did::zero());
    let ba = BiasId::new(&d, &a);
    assert_eq!(ba.pos(), a - d);
    assert_eq!(BiasId::to_did(&ba), a);
    // seen from d, d comes before a
    assert!(bd < ba);
    let other = a.bias(&a);
    // other bias: a rebased to d sits at a - d
    assert!(bd < other);
    assert!(ba.partial_cmp(&other) == Some(std::cmp::Ordering::Equal));
}

#[test]
fn sort_by_ring_orders_by_distance() {
    let ids: Vec<Did> = (0u8..12).map(|i| Did::from_be_slice(&[i.wrapping_mul(37), i])).collect();
    let origin = ids[5];
    let mut v = ids.clone();
    sort_by_ring(&mut v, origin);
    assert_eq!(v.len(), ids.len());
    assert_eq!(v[0], origin);
    for w in v.windows(2) {
        assert!(big(&(w[0] - origin)) <= big(&(w[1] - origin)));
    }
    for x in &ids {
        assert!(v.contains(x));
    }
}

#[test]
fn sort_of_empty_and_single() {
    let mut e: Vec<Did> = vec![];
    e.sort(Did::zero());
    assert!(e.is_empty());
    let mut one = vec![Did::pow2(3)];
    one.sort(Did::pow2(7));
    assert_eq!(one, vec![Did::pow2(3)]);
}
