//! A store of session descriptors by address, whose entries expire an hour
//! after they were stored.
use vstd::prelude::*;

use dashmap::DashMap;

use crate::kademlia::Address;

verus! {

/// Seconds after which a stored descriptor expires.
pub const KEY_EXPIRATION: u64 = 3600;

#[verifier::external_type_specification]
#[verifier::external_body]
#[verifier::reject_recursive_types(K)]
#[verifier::reject_recursive_types(V)]
#[verifier::reject_recursive_types(S)]
pub struct ExDashMap<K, V, S>(DashMap<K, V, S>);

/// A map of descriptors by address bytes, with their storing times.
pub type SdpMap = DashMap<[u8; 20], (String, u64)>;

/// What a map of descriptors holds: address bytes to the descriptor and the
/// time, in seconds, that it was stored.
pub uninterp spec fn stored_entries(m: SdpMap) -> Map<
    Seq<u8>,
    (Seq<char>, u64),
>;

/// Relies on `DashMap::new`: a map with no entries.
#[verifier::external_body]
fn entries_new() -> (r: SdpMap)
    ensures
        stored_entries(r) =~= Map::empty(),
{
    DashMap::new()
}

/// Relies on `DashMap::insert`: the key maps to the value afterwards, and the
/// value it had before, if any, is returned.
#[verifier::external_body]
fn entries_insert(m: &mut SdpMap, key: [u8; 20], value: SdpString) -> (r: Option<
    (String, u64),
>)
    ensures
        stored_entries(*final(m)) == stored_entries(*old(m)).insert(key@, (value.0@, value.1)),
        r.is_some() == stored_entries(*old(m)).contains_key(key@),
        r matches Some(v) ==> (v.0@, v.1) == stored_entries(*old(m))[key@],
{
    m.insert(key, (value.0, value.1))
}

/// Relies on `DashMap::remove`: the key has no entry afterwards.
#[verifier::external_body]
fn entries_remove(m: &mut SdpMap, key: &[u8; 20])
    ensures
        stored_entries(*final(m)) == stored_entries(*old(m)).remove(key@),
{
    m.remove(key);
}

/// Relies on `DashMap::get`: the entry of the key, if it has one.
#[verifier::external_body]
fn entries_get(m: &SdpMap, key: &[u8; 20]) -> (r: Option<(String, u64)>)
    ensures
        r.is_some() == stored_entries(*m).contains_key(key@),
        r matches Some(v) ==> (v.0@, v.1) == stored_entries(*m)[key@],
{
    m.get(key).map(|e| e.value().clone())
}

/// Relies on `DashMap::iter`: every entry is visited, in an order that the
/// map does not fix.
#[verifier::external_body]
fn entries_keys(m: &SdpMap) -> (r: Vec<[u8; 20]>)
    ensures
        forall|k: Seq<u8>|
            stored_entries(*m).contains_key(k) ==> exists|i: int|
                0 <= i < r@.len() && (#[trigger] r@[i])@ == k,
{
    m.iter().map(|e| *e.key()).collect()
}

/// The entries of `m` stored at `cutoff` or later.
pub open spec fn fresh_entries(m: Map<Seq<u8>, (Seq<char>, u64)>, cutoff: u64) -> Map<
    Seq<u8>,
    (Seq<char>, u64),
> {
    Map::new(|k: Seq<u8>| m.contains_key(k) && m[k].1 >= cutoff, |k: Seq<u8>| m[k])
}

/// The oldest storing time that has not expired at `now`.
pub open spec fn cutoff_at(now: u64) -> u64 {
    if now >= KEY_EXPIRATION {
        (now - KEY_EXPIRATION) as u64
    } else {
        0
    }
}

/// A session descriptor and the time, in seconds, it was stored.
#[derive(Clone, Debug)]
pub struct SdpString(pub String, pub u64);

/// Session descriptors by address; each expires `KEY_EXPIRATION` seconds
/// after it was stored.
#[derive(Debug)]
pub struct Storage {
    items: SdpMap,
}

impl Storage {
    /// The stored entries.
    pub closed spec fn entries(&self) -> Map<Seq<u8>, (Seq<char>, u64)> {
        stored_entries(self.items)
    }

    /// An empty store.
    pub fn new() -> (r: Storage)
        ensures
            r.entries() == Map::<Seq<u8>, (Seq<char>, u64)>::empty(),
    {
        Storage { items: entries_new() }
    }

    /// Drops the entries that have expired at `now`.
    fn remove_expired(&mut self, now: u64)
        ensures
            final(self).entries() == fresh_entries(old(self).entries(), cutoff_at(now)),
    {
        let cutoff: u64 = if now >= KEY_EXPIRATION { now - KEY_EXPIRATION } else { 0 };
        let keys = entries_keys(&self.items);
        let ghost start = self.entries();
        let mut i: usize = 0;
        while i < keys.len()
            invariant
                0 <= i <= keys@.len(),
                cutoff == cutoff_at(now),
                start == old(self).entries(),
                forall|k: Seq<u8>|
                    start.contains_key(k) ==> exists|j: int|
                        0 <= j < keys@.len() && (#[trigger] keys@[j])@ == k,
                forall|k: Seq<u8>|
                    #[trigger] self.entries().contains_key(k) <==> (start.contains_key(k) && !(
                    start[k].1 < cutoff && exists|j: int| 0 <= j < i && (#[trigger] keys@[j])@ == k)),
                forall|k: Seq<u8>| #[trigger]
                    self.entries().contains_key(k) ==> self.entries()[k] == start[k],
            decreases keys@.len() - i,
        {
            let key = keys[i];
            let ghost before = self.entries();
            let found = entries_get(&self.items, &key);
            let mut removed = false;
            match found {
                Some(v) => {
                    if v.1 < cutoff {
                        entries_remove(&mut self.items, &key);
                        removed = true;
                    }
                },
                None => {},
            }
            proof {
                let after = self.entries();
                if removed {
                    assert(after == before.remove(key@));
                } else {
                    assert(after == before);
                }
                assert forall|k: Seq<u8>| #[trigger]
                    after.contains_key(k) implies after[k] == start[k] by {
                    assert(before.contains_key(k));
                }
                assert forall|k: Seq<u8>|
                    #[trigger] after.contains_key(k) <==> (start.contains_key(k) && !(start[k].1
                        < cutoff && exists|j: int| 0 <= j < i + 1 && (#[trigger] keys@[j])@ == k)) by {
                    if k == key@ {
                        assert(keys@[i as int]@ == k);
                        if before.contains_key(k) {
                            assert(before[k] == start[k]);
                        }
                    } else {
                        if exists|j: int| 0 <= j < i + 1 && (#[trigger] keys@[j])@ == k {
                            let j = choose|j: int| 0 <= j < i + 1 && (#[trigger] keys@[j])@ == k;
                            assert(j != i);
                            assert(exists|j2: int| 0 <= j2 < i && (#[trigger] keys@[j2])@ == k);
                        }
                        if exists|j: int| 0 <= j < i && (#[trigger] keys@[j])@ == k {
                            let j = choose|j: int| 0 <= j < i && (#[trigger] keys@[j])@ == k;
                            assert(0 <= j < i + 1 && keys@[j]@ == k);
                        }
                    }
                }
            }
            i = i + 1;
        }
        proof {
            assert(self.entries() =~= fresh_entries(start, cutoff));
        }
    }

    /// Stores `value` for `address` at `now`, after dropping what has expired.
    pub fn insert(&mut self, address: Address, value: String, now: u64)
        ensures
            final(self).entries() == fresh_entries(old(self).entries(), cutoff_at(now)).insert(
                address.0@,
                (value@, now),
            ),
    {
        self.remove_expired(now);
        entries_insert(&mut self.items, address.0, SdpString(value, now));
    }

    /// The descriptor stored for `address`, if it has not expired at `now`;
    /// what has expired is dropped.
    pub fn get(&mut self, address: &Address, now: u64) -> (r: Option<String>)
        ensures
            final(self).entries() == fresh_entries(old(self).entries(), cutoff_at(now)),
            r.is_some() == final(self).entries().contains_key(address.0@),
            r matches Some(s) ==> s@ == final(self).entries()[address.0@].0,
    {
        self.remove_expired(now);
        match entries_get(&self.items, &address.0) {
            Some(v) => Some(v.0),
            None => None,
        }
    }
}

} // verus!
