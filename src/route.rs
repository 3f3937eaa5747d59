//! The routing table of the node service: the same bucket scheme as
//! `kademlia`, over 20-byte keys, with an owner that is learned after the
//! table is made.
use vstd::prelude::*;

use std::sync::Arc;

use vstd::std_specs::bits::{axiom_u8_leading_zeros, u8_leading_zeros};

use crate::did::{be_value, Did};
use crate::error::Error;

verus! {

broadcast use vstd::array::group_array_axioms;

/// Most contacts a bucket holds.
pub const REPLICATION_PARAM: usize = 20;

/// Most buckets a table holds.
pub const ROUTING_TABLE_SIZE: usize = 20;

/// Seconds after its last update at which a bucket is stale.
pub const BUCKET_REFRESH_INTERVAL: u64 = 3600;

/// A 20-byte node key.
#[derive(Debug, Ord, PartialOrd, Eq, Clone, Copy, Hash, Default)]
pub struct Key(pub [u8; 20]);

impl PartialEq for Key {
    fn eq(&self, other: &Key) -> (r: bool) {
        let mut i: usize = 0;
        while i < 20
            invariant
                0 <= i <= 20,
                forall|k: int| 0 <= k < i ==> self.0@[k] == other.0@[k],
            decreases 20 - i,
        {
            if self.0[i] != other.0[i] {
                return false;
            }
            i = i + 1;
        }
        proof {
            assert(self.0 =~= other.0);
        }
        true
    }
}

impl vstd::std_specs::cmp::PartialEqSpecImpl for Key {
    open spec fn obeys_eq_spec() -> bool {
        true
    }

    open spec fn eq_spec(&self, other: &Key) -> bool {
        *self == *other
    }
}

/// Bytewise XOR of two byte sequences of the same length.
pub open spec fn xor_bytes(a: Seq<u8>, b: Seq<u8>) -> Seq<u8> {
    Seq::new(a.len(), |i: int| a[i] ^ b[i])
}

/// The number of leading zero bits of a big-endian byte sequence.
pub open spec fn leading_zero_bits(s: Seq<u8>) -> nat
    decreases s.len(),
{
    if s.len() == 0 {
        0
    } else if s[0] == 0 {
        8 + leading_zero_bits(s.drop_first())
    } else {
        u8_leading_zeros(s[0]) as nat
    }
}

/// The distance class of `id` seen from `owner`: the leading zero bits of their XOR.
pub open spec fn class_of(owner: Key, id: Key) -> nat {
    leading_zero_bits(xor_bytes(owner.0@, id.0@))
}

/// The XOR distance between two addresses, as a number.
pub open spec fn xor_distance(a: Key, b: Key) -> nat {
    be_value(xor_bytes(a.0@, b.0@))
}

impl Key {
    pub fn new(data: [u8; 20]) -> (r: Key)
        ensures
            r.0 == data,
    {
        Key(data)
    }

    /// Bytewise XOR with `address`.
    pub fn xor(&self, address: &Key) -> (r: Key)
        ensures
            r.0@ == xor_bytes(self.0@, address.0@),
    {
        let mut ret = [0u8; 20];
        let mut i: usize = 0;
        while i < 20
            invariant
                0 <= i <= 20,
                ret@.len() == 20,
                forall|k: int| 0 <= k < i ==> ret@[k] == #[trigger] self.0@[k] ^ address.0@[k],
            decreases 20 - i,
        {
            ret[i] = self.0[i] ^ address.0[i];
            i = i + 1;
        }
        assert(ret@ =~= xor_bytes(self.0@, address.0@));
        Key(ret)
    }

    /// The number of leading zero bits.
    pub fn leading_zeros(&self) -> (r: usize)
        ensures
            r == leading_zero_bits(self.0@),
    {
        let s = Ghost(self.0@);
        let mut i: usize = 0;
        proof {
            assert(s@.subrange(0, 20) =~= s@);
        }
        while i < 20
            invariant
                0 <= i <= 20,
                s@ == self.0@,
                leading_zero_bits(s@) == 8 * i + leading_zero_bits(s@.subrange(i as int, 20)),
            decreases 20 - i,
        {
            proof {
                assert(s@.subrange(i as int, 20)[0] == s@[i as int]);
                assert(s@.subrange(i as int, 20).drop_first() == s@.subrange(i + 1, 20));
            }
            if self.0[i] != 0 {
                let z = self.0[i].leading_zeros();
                proof {
                    axiom_u8_leading_zeros(self.0[i as int]);
                }
                return 8 * i + z as usize;
            }
            i = i + 1;
        }
        proof {
            assert(s@.subrange(20, 20).len() == 0);
        }
        8 * i
    }
}

/// A contact: a node's key and the session descriptor to reach it.
/// Contacts are equal when their keys are.
#[derive(Debug, Eq)]
pub struct Candidate {
    /// The session description of the candidate.
    pub sdp: String,
    /// The public key of the candidate.
    pub key: Key,
}

impl Clone for Candidate {
    fn clone(&self) -> (r: Candidate)
        ensures
            r == *self,
    {
        Candidate { sdp: self.sdp.clone(), key: self.key }
    }
}

impl PartialEq for Candidate {
    fn eq(&self, other: &Candidate) -> (r: bool) {
        self.key == other.key
    }
}

impl vstd::std_specs::cmp::PartialEqSpecImpl for Candidate {
    open spec fn obeys_eq_spec() -> bool {
        true
    }

    open spec fn eq_spec(&self, other: &Candidate) -> bool {
        self.key == other.key
    }
}

/// A contact with its distance to some key; the nearer one orders greater.
#[derive(Debug, Eq)]
pub struct CandidateDistance(pub Candidate, pub Key);

impl PartialEq for CandidateDistance {
    fn eq(&self, other: &CandidateDistance) -> (r: bool) {
        self.0.key == other.0.key
    }
}

impl vstd::std_specs::cmp::PartialEqSpecImpl for CandidateDistance {
    open spec fn obeys_eq_spec() -> bool {
        true
    }

    open spec fn eq_spec(&self, other: &CandidateDistance) -> bool {
        self.0.key == other.0.key
    }
}

impl PartialOrd for CandidateDistance {
    fn partial_cmp(&self, other: &CandidateDistance) -> (r: Option<core::cmp::Ordering>) {
        Did::from_bytes((other.1).0).partial_cmp(&Did::from_bytes((self.1).0))
    }
}

impl vstd::std_specs::cmp::PartialOrdSpecImpl for CandidateDistance {
    open spec fn obeys_partial_cmp_spec() -> bool {
        true
    }

    open spec fn partial_cmp_spec(&self, other: &CandidateDistance) -> Option<core::cmp::Ordering> {
        let mine = be_value((self.1).0@);
        let theirs = be_value((other.1).0@);
        if theirs < mine {
            Some(core::cmp::Ordering::Less)
        } else if theirs > mine {
            Some(core::cmp::Ordering::Greater)
        } else {
            Some(core::cmp::Ordering::Equal)
        }
    }
}

/// The first position of a contact with address `id`, or -1.
pub open spec fn index_of_id(s: Seq<Candidate>, id: Key) -> int
    decreases s.len(),
{
    if s.len() == 0 {
        -1
    } else {
        let i = index_of_id(s.drop_last(), id);
        if i >= 0 {
            i
        } else if s.last().key == id {
            s.len() - 1
        } else {
            -1
        }
    }
}

/// `s` without its first contact with address `id`, if it has one.
pub open spec fn without_id(s: Seq<Candidate>, id: Key) -> Seq<Candidate> {
    if index_of_id(s, id) >= 0 {
        s.remove(index_of_id(s, id))
    } else {
        s
    }
}

/// The contacts of a bucket after `c` was seen: moved (or added) to the tail,
/// dropping the head when the bucket overflows.
pub open spec fn bucket_updated(s: Seq<Candidate>, c: Candidate) -> Seq<Candidate> {
    let t = without_id(s, c.key).push(c);
    if t.len() > REPLICATION_PARAM {
        t.drop_first()
    } else {
        t
    }
}

/// The contacts of `s` whose class seen from `owner` is (`same`) or is not
/// (`!same`) `index`, in their order.
pub open spec fn class_part(s: Seq<Candidate>, owner: Key, index: nat, same: bool) -> Seq<
    Candidate,
>
    decreases s.len(),
{
    if s.len() == 0 {
        s
    } else {
        let rest = class_part(s.drop_last(), owner, index, same);
        if (class_of(owner, s.last().key) == index) == same {
            rest.push(s.last())
        } else {
            rest
        }
    }
}

proof fn lemma_index_of_id(s: Seq<Candidate>, id: Key, i: int)
    requires
        0 <= i <= s.len(),
        forall|k: int| 0 <= k < i ==> (#[trigger] s[k]).key != id,
        i < s.len() ==> s[i].key == id,
    ensures
        index_of_id(s, id) == if i == s.len() {
            -1
        } else {
            i
        },
    decreases s.len(),
{
    if s.len() > 0 {
        let t = s.drop_last();
        if i < s.len() - 1 {
            lemma_index_of_id(t, id, i);
        } else {
            lemma_index_of_id(t, id, t.len() as int);
        }
    }
}

proof fn lemma_class_part(s: Seq<Candidate>, owner: Key, index: nat, same: bool, m: nat)
    requires
        forall|k: int| 0 <= k < s.len() ==> class_of(owner, (#[trigger] s[k]).key) >= m,
    ensures
        class_part(s, owner, index, same).len() <= s.len(),
        forall|k: int|
            0 <= k < class_part(s, owner, index, same).len() ==> {
                &&& class_of(owner, (#[trigger] class_part(s, owner, index, same)[k]).key) >= m
                &&& (class_of(owner, class_part(s, owner, index, same)[k].key) == index) == same
            },
    decreases s.len(),
{
    if s.len() > 0 {
        lemma_class_part(s.drop_last(), owner, index, same, m);
    }
}

/// A bucket of contacts, least recently seen first.
#[derive(Debug)]
pub struct RouteBucket {
    pub candidates: Vec<Candidate>,
    /// Seconds since the epoch of the last update.
    pub updated_at: u64,
}

/// The contents of a bucket and the time of its last update.
pub type BucketView = (Seq<Candidate>, u64);

impl View for RouteBucket {
    type V = BucketView;

    open spec fn view(&self) -> BucketView {
        (self.candidates@, self.updated_at)
    }
}

/// Whether a bucket updated at `updated_at` is stale at `now`.
pub open spec fn stale_at(updated_at: u64, now: u64) -> bool {
    now > updated_at + BUCKET_REFRESH_INTERVAL
}

impl RouteBucket {
    /// An empty bucket, updated at `now`.
    pub fn new(now: u64) -> (r: RouteBucket)
        ensures
            r@ == (Seq::<Candidate>::empty(), now),
    {
        RouteBucket { candidates: Vec::new(), updated_at: now }
    }

    fn position_of(&self, id: &Key) -> (r: Option<usize>)
        ensures
            match r {
                Option::Some(i) => i == index_of_id(self.candidates@, *id) && i
                    < self.candidates@.len() && self.candidates@[i as int].key == *id,
                Option::None => index_of_id(self.candidates@, *id) == -1,
            },
    {
        let mut i: usize = 0;
        while i < self.candidates.len()
            invariant
                0 <= i <= self.candidates@.len(),
                forall|k: int| 0 <= k < i ==> (#[trigger] self.candidates@[k]).key != *id,
            decreases self.candidates@.len() - i,
        {
            if self.candidates[i].key == *id {
                proof {
                    lemma_index_of_id(self.candidates@, *id, i as int);
                }
                return Some(i);
            }
            i = i + 1;
        }
        proof {
            lemma_index_of_id(self.candidates@, *id, i as int);
        }
        None
    }

    /// Records that `candidate` was seen at `now`: it moves to the tail, and
    /// the head is dropped when the bucket overflows.
    pub fn update_candidate(&mut self, candidate: Candidate, now: u64)
        ensures
            final(self)@ == (bucket_updated(old(self).candidates@, candidate), now),
    {
        self.updated_at = now;
        if let Some(index) = self.position_of(&candidate.key) {
            self.candidates.remove(index);
        }
        self.candidates.push(candidate);
        if self.candidates.len() > REPLICATION_PARAM {
            self.candidates.remove(0);
        }
    }

    /// Whether a contact with the same address is in the bucket.
    pub fn contains(&self, candidate: &Candidate) -> (r: bool)
        ensures
            r == (index_of_id(self.candidates@, candidate.key) >= 0),
    {
        self.position_of(&candidate.key).is_some()
    }

    /// Moves out the contacts whose class seen from `address` is not `index`,
    /// into a new bucket with the same update time.
    pub fn split(&mut self, address: &Key, index: usize) -> (r: RouteBucket)
        ensures
            final(self)@ == (class_part(old(self).candidates@, *address, index as nat, true), old(
                self,
            ).updated_at),
            r@ == (class_part(old(self).candidates@, *address, index as nat, false), old(
                self,
            ).updated_at),
    {
        let mut bucket0: Vec<Candidate> = Vec::new();
        let mut bucket1: Vec<Candidate> = Vec::new();
        let mut i: usize = 0;
        while i < self.candidates.len()
            invariant
                0 <= i <= self.candidates@.len(),
                self.candidates@ == old(self).candidates@,
                self.updated_at == old(self).updated_at,
                bucket0@ == class_part(self.candidates@.subrange(0, i as int), *address, index as nat, true),
                bucket1@ == class_part(self.candidates@.subrange(0, i as int), *address, index as nat, false),
            decreases self.candidates@.len() - i,
        {
            let c = self.candidates[i].clone();
            proof {
                assert(self.candidates@.subrange(0, i + 1).drop_last() == self.candidates@.subrange(0, i as int));
            }
            if c.key.xor(address).leading_zeros() == index {
                bucket0.push(c);
            } else {
                bucket1.push(c);
            }
            proof {
                let sub = self.candidates@.subrange(0, i + 1);
                assert(sub.last() == c);
                assert(xor_bytes(c.key.0@, address.0@) =~= xor_bytes(address.0@, c.key.0@)) by {
                    assert forall|k: int| 0 <= k < 20 implies #[trigger] (c.key.0@[k] ^ address.0@[k])
                        == address.0@[k] ^ c.key.0@[k] by {
                        let x = c.key.0@[k];
                        let y = address.0@[k];
                        assert(x ^ y == y ^ x) by (bit_vector);
                    }
                }
            }
            i = i + 1;
        }
        proof {
            assert(self.candidates@.subrange(0, self.candidates@.len() as int) == self.candidates@);
        }
        self.candidates = bucket0;
        RouteBucket { candidates: bucket1, updated_at: self.updated_at }
    }

    /// The contacts, least recently seen first.
    pub fn get_candidates(&self) -> (r: &[Candidate])
        ensures
            r@ == self.candidates@,
    {
        self.candidates.as_slice()
    }

    /// Takes out the least recently seen contact.
    pub fn remove_lrs(&mut self) -> (r: Option<Candidate>)
        ensures
            old(self).candidates@.len() == 0 ==> r == Option::<Candidate>::None && final(self)@
                == old(self)@,
            old(self).candidates@.len() > 0 ==> r == Some(old(self).candidates@[0])
                && final(self)@ == (old(self).candidates@.drop_first(), old(self).updated_at),
    {
        if self.candidates.len() == 0 {
            None
        } else {
            Some(self.candidates.remove(0))
        }
    }

    /// Removes `candidate` from the bucket.
    pub fn remove_candidate(&mut self, candidate: &Candidate) -> (r: Option<Candidate>)
        ensures
            final(self)@ == (without_id(old(self).candidates@, candidate.key), old(self).updated_at),
            r == if index_of_id(old(self).candidates@, candidate.key) >= 0 {
                Some(old(self).candidates@[index_of_id(old(self).candidates@, candidate.key)])
            } else {
                Option::<Candidate>::None
            },
    {
        if let Some(index) = self.position_of(&candidate.key) {
            Some(self.candidates.remove(index))
        } else {
            None
        }
    }

    /// Whether the bucket has gone unrefreshed for longer than the refresh interval at `now`.
    pub fn is_stale(&self, now: u64) -> (r: bool)
        ensures
            r == stale_at(self.updated_at, now),
    {
        now > self.updated_at && now - self.updated_at > BUCKET_REFRESH_INTERVAL
    }
}

/// Whether contact `c` may sit in bucket `b` of a table of `n` buckets owned
/// by `owner`: every bucket holds one distance class, the last one all the
/// classes from its index on.
pub open spec fn fits_bucket(owner: Key, n: nat, b: int, c: Candidate) -> bool {
    if b < n - 1 {
        class_of(owner, c.key) == b
    } else {
        class_of(owner, c.key) >= b
    }
}

/// The table invariant: one to `ROUTING_TABLE_SIZE` buckets, none over
/// `REPLICATION_PARAM` contacts, every contact in the bucket of its class.
pub open spec fn table_wf(t: Seq<BucketView>, owner: Key) -> bool {
    &&& 1 <= t.len() <= ROUTING_TABLE_SIZE
    &&& forall|b: int| 0 <= b < t.len() ==> (#[trigger] t[b]).0.len() <= REPLICATION_PARAM
    &&& forall|b: int, i: int|
        0 <= b < t.len() && 0 <= i < t[b].0.len() ==> fits_bucket(
            owner,
            t.len(),
            b,
            #[trigger] t[b].0[i],
        )
}

/// The bucket that class `d` goes to in a table of `n` buckets.
pub open spec fn bucket_for(d: nat, n: nat) -> int {
    if d < n - 1 {
        d as int
    } else {
        n - 1
    }
}

/// The table after its last bucket was split: the contacts of the last
/// bucket's own class stay, the others move to a new last bucket.
pub open spec fn split_last(t: Seq<BucketView>, owner: Key) -> Seq<BucketView> {
    let i = t.len() - 1;
    t.update(i, (class_part(t[i].0, owner, i as nat, true), t[i].1)).push(
        (class_part(t[i].0, owner, i as nat, false), t[i].1),
    )
}

/// The table after splitting for a contact of class `d`, for as long as its
/// bucket is the last one, full, and the table may still grow.
pub open spec fn settled(t: Seq<BucketView>, owner: Key, d: nat) -> Seq<BucketView>
    decreases ROUTING_TABLE_SIZE - t.len(),
{
    if t.len() == 0 || t.len() >= ROUTING_TABLE_SIZE {
        t
    } else {
        let target = bucket_for(d, t.len());
        if t[target].0.len() < REPLICATION_PARAM || target != t.len() - 1 {
            t
        } else {
            settled(split_last(t, owner), owner, d)
        }
    }
}

/// The table after contact `c` was seen at `now`, and whether it was taken in.
/// A contact already present is refreshed; a new one enters its bucket if
/// there is room after splitting; otherwise it is refused.
pub open spec fn table_updated(t: Seq<BucketView>, owner: Key, c: Candidate, now: u64) -> (
    Seq<BucketView>,
    bool,
) {
    let d = class_of(owner, c.key);
    let target = bucket_for(d, t.len());
    if index_of_id(t[target].0, c.key) >= 0 {
        (t.update(target, (bucket_updated(t[target].0, c), now)), true)
    } else {
        let s = settled(t, owner, d);
        let tg = bucket_for(d, s.len());
        if s[tg].0.len() < REPLICATION_PARAM {
            (s.update(tg, (bucket_updated(s[tg].0, c), now)), true)
        } else {
            (s, false)
        }
    }
}

/// The contacts of buckets `lo..hi`, in bucket order.
pub open spec fn concat_range(t: Seq<BucketView>, lo: int, hi: int) -> Seq<Candidate>
    decreases hi - lo,
{
    if lo >= hi {
        Seq::empty()
    } else {
        concat_range(t, lo, hi - 1) + t[hi - 1].0
    }
}

/// `acc` followed by buckets `j - 1`, `j - 2`, ..., until it holds `count` contacts.
pub open spec fn widen_down(acc: Seq<Candidate>, t: Seq<BucketView>, j: int, count: nat) -> Seq<
    Candidate,
>
    decreases j,
{
    if j <= 0 || acc.len() >= count {
        acc
    } else {
        widen_down(acc + t[j - 1].0, t, j - 1, count)
    }
}

/// The contacts looked at for a query on bucket `index`: that bucket, then,
/// while fewer than `count`, all the higher buckets, then lower buckets one
/// by one.
pub open spec fn gathered(t: Seq<BucketView>, index: int, count: nat) -> Seq<Candidate> {
    let a0 = t[index].0;
    let a1 = if a0.len() < count {
        a0 + concat_range(t, index + 1, t.len() as int)
    } else {
        a0
    };
    widen_down(a1, t, index, count)
}

/// Whether contacts are in non-decreasing XOR distance to `key`.
pub open spec fn sorted_by_distance(s: Seq<Candidate>, key: Key) -> bool {
    forall|i: int, j: int|
        0 <= i < j < s.len() ==> xor_distance((#[trigger] s[i]).key, key) <= xor_distance(
            (#[trigger] s[j]).key,
            key,
        )
}

/// The indexes below `n` of the buckets that are stale at `now`, ascending.
pub open spec fn stale_indexes(t: Seq<BucketView>, now: u64, n: int) -> Seq<usize>
    decreases n,
{
    if n <= 0 {
        Seq::empty()
    } else if stale_at(t[n - 1].1, now) {
        stale_indexes(t, now, n - 1).push((n - 1) as usize)
    } else {
        stale_indexes(t, now, n - 1)
    }
}

proof fn lemma_bucket_updated_keeps(s: Seq<Candidate>, c: Candidate, p: spec_fn(Candidate) -> bool)
    requires
        forall|k: int| 0 <= k < s.len() ==> p(#[trigger] s[k]),
        p(c),
        s.len() <= REPLICATION_PARAM,
    ensures
        bucket_updated(s, c).len() <= REPLICATION_PARAM,
        forall|k: int| 0 <= k < bucket_updated(s, c).len() ==> p(#[trigger] bucket_updated(s, c)[k]),
{
    let w = without_id(s, c.key);
    if index_of_id(s, c.key) >= 0 {
        lemma_index_of_id_bound(s, c.key);
        let i = index_of_id(s, c.key);
        assert forall|k: int| 0 <= k < w.len() implies p(#[trigger] w[k]) by {
            if k < i {
                assert(w[k] == s[k]);
            } else {
                assert(w[k] == s[k + 1]);
            }
        }
    }
    let t = w.push(c);
    assert forall|k: int| 0 <= k < t.len() implies p(#[trigger] t[k]) by {
        if k < w.len() {
            assert(t[k] == w[k]);
        }
    }
    if t.len() > REPLICATION_PARAM {
        assert forall|k: int| 0 <= k < t.drop_first().len() implies p(#[trigger] t.drop_first()[k]) by {
            assert(t.drop_first()[k] == t[k + 1]);
        }
    }
}

proof fn lemma_index_of_id_bound(s: Seq<Candidate>, id: Key)
    ensures
        index_of_id(s, id) < s.len(),
        index_of_id(s, id) >= 0 ==> s[index_of_id(s, id)].key == id,
        index_of_id(s, id) >= -1,
    decreases s.len(),
{
    if s.len() > 0 {
        lemma_index_of_id_bound(s.drop_last(), id);
    }
}

proof fn lemma_bucket_update_wf(t: Seq<BucketView>, owner: Key, b: int, c: Candidate, now: u64)
    requires
        table_wf(t, owner),
        0 <= b < t.len(),
        fits_bucket(owner, t.len(), b, c),
    ensures
        table_wf(t.update(b, (bucket_updated(t[b].0, c), now)), owner),
{
    let p = |x: Candidate| fits_bucket(owner, t.len(), b, x);
    assert forall|k: int| 0 <= k < t[b].0.len() implies p(#[trigger] t[b].0[k]) by {}
    lemma_bucket_updated_keeps(t[b].0, c, p);
    let u = t.update(b, (bucket_updated(t[b].0, c), now));
    assert forall|x: int, i: int| 0 <= x < u.len() && 0 <= i < u[x].0.len() implies fits_bucket(
        owner,
        u.len(),
        x,
        #[trigger] u[x].0[i],
    ) by {
        if x == b {
            assert(p(bucket_updated(t[b].0, c)[i]));
        }
    }
}

proof fn lemma_split_last_wf(t: Seq<BucketView>, owner: Key)
    requires
        table_wf(t, owner),
        t.len() < ROUTING_TABLE_SIZE,
    ensures
        table_wf(split_last(t, owner), owner),
        split_last(t, owner).len() == t.len() + 1,
{
    let i = t.len() - 1;
    let last = t[i].0;
    assert forall|k: int| 0 <= k < last.len() implies class_of(owner, (#[trigger] last[k]).key) >= i by {
        assert(fits_bucket(owner, t.len(), i, last[k]));
    }
    lemma_class_part(last, owner, i as nat, true, i as nat);
    lemma_class_part(last, owner, i as nat, false, i as nat);
    let u = split_last(t, owner);
    assert forall|x: int, j: int| 0 <= x < u.len() && 0 <= j < u[x].0.len() implies fits_bucket(
        owner,
        u.len(),
        x,
        #[trigger] u[x].0[j],
    ) by {
        if x < i {
            assert(u[x] == t[x]);
            assert(fits_bucket(owner, t.len(), x, t[x].0[j]));
        }
    }
}

/// Contacts of a well-formed table sit in the bucket of their distance class.
pub proof fn lemma_bucket_class(t: Seq<BucketView>, owner: Key, b: int, i: int)
    requires
        table_wf(t, owner),
        0 <= b < t.len(),
        0 <= i < t[b].0.len(),
    ensures
        b < t.len() - 1 ==> class_of(owner, t[b].0[i].key) == b,
        b == t.len() - 1 ==> class_of(owner, t[b].0[i].key) >= b,
{
    assert(fits_bucket(owner, t.len(), b, t[b].0[i]));
}

fn extend_with(ret: &mut Vec<Candidate>, s: &Vec<Candidate>)
    ensures
        final(ret)@ == old(ret)@ + s@,
{
    let mut i: usize = 0;
    while i < s.len()
        invariant
            0 <= i <= s@.len(),
            ret@ == old(ret)@ + s@.subrange(0, i as int),
        decreases s@.len() - i,
    {
        ret.push(s[i].clone());
        proof {
            assert(s@.subrange(0, i + 1) == s@.subrange(0, i as int).push(s@[i as int]));
        }
        i = i + 1;
    }
    proof {
        assert(s@.subrange(0, s@.len() as int) == s@);
    }
}

proof fn lemma_insert_keeps_distance_sorted(s: Seq<Candidate>, j: int, x: Candidate, key: Key)
    requires
        sorted_by_distance(s, key),
        0 <= j <= s.len(),
        forall|k: int|
            0 <= k < j ==> xor_distance((#[trigger] s[k]).key, key) <= xor_distance(x.key, key),
        j < s.len() ==> xor_distance(s[j].key, key) > xor_distance(x.key, key),
    ensures
        sorted_by_distance(s.insert(j, x), key),
{
    let t = s.insert(j, x);
    assert forall|a: int, b: int| 0 <= a < b < t.len() implies xor_distance(
        (#[trigger] t[a]).key,
        key,
    ) <= xor_distance((#[trigger] t[b]).key, key) by {
        if b > j && a <= j {
            if b - 1 > j {
                assert(xor_distance(s[j].key, key) <= xor_distance(s[b - 1].key, key));
            }
        }
    }
}

/// Sorts contacts by XOR distance to `key`, nearest first.
fn sort_by_distance(v: Vec<Candidate>, key: &Key) -> (r: Vec<Candidate>)
    ensures
        r@.to_multiset() == v@.to_multiset(),
        sorted_by_distance(r@, *key),
{
    let mut out: Vec<Candidate> = Vec::new();
    let mut i: usize = 0;
    proof {
        assert(v@.subrange(0, 0) =~= out@);
    }
    while i < v.len()
        invariant
            0 <= i <= v@.len(),
            out@.to_multiset() == v@.subrange(0, i as int).to_multiset(),
            sorted_by_distance(out@, *key),
        decreases v@.len() - i,
    {
        let x = v[i].clone();
        let dx = Did::from_bytes(x.key.xor(key).0);
        let mut j: usize = 0;
        while j < out.len() && Did::from_bytes(out[j].key.xor(key).0).less_eq(&dx)
            invariant
                0 <= j <= out@.len(),
                dx@ == xor_distance(x.key, *key),
                forall|k: int|
                    0 <= k < j ==> xor_distance((#[trigger] out@[k]).key, *key) <= dx@,
            decreases out@.len() - j,
        {
            j = j + 1;
        }
        let ghost before = out@;
        proof {
            lemma_insert_keeps_distance_sorted(out@, j as int, x, *key);
        }
        out.insert(j, x);
        proof {
            assert(v@.subrange(0, i + 1) == v@.subrange(0, i as int).push(x));
            vstd::seq_lib::to_multiset_build(v@.subrange(0, i as int), x);
            vstd::seq_lib::to_multiset_insert(before, j as int, x);
        }
        i = i + 1;
    }
    proof {
        assert(v@.subrange(0, v@.len() as int) == v@);
    }
    out
}

/// The routing table of the node service. Until its owner is known it holds
/// one empty bucket and refuses every contact.
#[derive(Debug)]
pub struct RouteTable {
    buckets: Vec<RouteBucket>,
    candidate: Option<Arc<Candidate>>,
}

impl View for RouteTable {
    type V = Seq<BucketView>;

    closed spec fn view(&self) -> Seq<BucketView> {
        self.buckets@.map_values(|b: RouteBucket| b@)
    }
}

impl RouteTable {
    /// The key of the table's owner, once known.
    pub closed spec fn owner(&self) -> Option<Key> {
        match self.candidate {
            Some(c) => Some(c.key),
            None => None,
        }
    }

    pub open spec fn wf(&self) -> bool {
        match self.owner() {
            Option::Some(o) => table_wf(self@, o),
            Option::None => {
                &&& 1 <= self@.len() <= ROUTING_TABLE_SIZE
                &&& forall|b: int| 0 <= b < self@.len() ==> (#[trigger] self@[b]).0.len() == 0
            },
        }
    }

    /// A table without an owner, its one bucket updated at `now`.
    pub fn new(now: u64) -> (r: RouteTable)
        ensures
            r.wf(),
            r.owner() == Option::<Key>::None,
            r@ == seq![(Seq::<Candidate>::empty(), now)],
    {
        let mut buckets = Vec::new();
        buckets.push(RouteBucket::new(now));
        let r = RouteTable { buckets, candidate: None };
        assert(r@ =~= seq![(Seq::<Candidate>::empty(), now)]);
        r
    }

    /// Sets the owner of a table that has none yet.
    pub fn set_candidate(&mut self, candidate: Arc<Candidate>)
        requires
            old(self).wf(),
            old(self).owner() == Option::<Key>::None,
        ensures
            final(self).wf(),
            final(self).owner() == Some(candidate.key),
            final(self)@ == old(self)@,
    {
        self.candidate = Some(candidate);
    }

    fn owner_key(&self) -> (r: Option<Key>)
        ensures
            r == self.owner(),
    {
        match &self.candidate {
            Some(c) => Some(c.key),
            None => None,
        }
    }

    fn bucket_index(&self, owner: &Key, key: &Key) -> (r: usize)
        requires
            self.wf(),
            self.owner() == Some(*owner),
        ensures
            r == bucket_for(class_of(*owner, *key), self@.len()),
            r < self@.len(),
    {
        let distance = owner.xor(key).leading_zeros();
        if distance < self.buckets.len() - 1 {
            distance
        } else {
            self.buckets.len() - 1
        }
    }

    fn update_bucket(&mut self, b: usize, candidate: Candidate, now: u64, owner: Ghost<Key>)
        requires
            old(self).wf(),
            old(self).owner() == Some(owner@),
            b < old(self)@.len(),
            fits_bucket(owner@, old(self)@.len(), b as int, candidate),
        ensures
            final(self).wf(),
            final(self).owner() == old(self).owner(),
            final(self)@ == old(self)@.update(
                b as int,
                (bucket_updated(old(self)@[b as int].0, candidate), now),
            ),
    {
        let mut bucket = self.buckets.remove(b);
        bucket.update_candidate(candidate, now);
        self.buckets.insert(b, bucket);
        proof {
            lemma_bucket_update_wf(old(self)@, owner@, b as int, candidate, now);
            assert(self@ =~= old(self)@.update(
                b as int,
                (bucket_updated(old(self)@[b as int].0, candidate), now),
            ));
        }
    }

    /// Records that `other` was seen at `now`, as the kademlia table does;
    /// a table without an owner refuses it.
    pub fn update_candidate(&mut self, other: Candidate, now: u64) -> (r: bool)
        requires
            old(self).wf(),
        ensures
            final(self).wf(),
            final(self).owner() == old(self).owner(),
            match old(self).owner() {
                Option::Some(o) => (final(self)@, r) == table_updated(old(self)@, o, other, now),
                Option::None => !r && final(self)@ == old(self)@,
            },
    {
        let owner_id = match self.owner_key() {
            Some(k) => k,
            None => return false,
        };
        let owner = Ghost(owner_id);
        let d = Ghost(class_of(owner_id, other.key));
        let mut target = self.bucket_index(&owner_id, &other.key);
        proof {
            assert(fits_bucket(owner@, self@.len(), target as int, other));
        }
        if self.buckets[target].contains(&other) {
            self.update_bucket(target, other, now, owner);
            return true;
        }
        loop
            invariant
                self.wf(),
                self.owner() == Some(owner@),
                old(self).owner() == Some(owner@),
                owner_id == owner@,
                d@ == class_of(owner@, other.key),
                target == bucket_for(d@, self@.len()),
                settled(self@, owner@, d@) == settled(old(self)@, owner@, d@),
                index_of_id(old(self)@[bucket_for(d@, old(self)@.len()) as int].0, other.key) < 0,
            decreases ROUTING_TABLE_SIZE - self@.len(),
        {
            proof {
                assert(fits_bucket(owner@, self@.len(), target as int, other));
                assert(self@[target as int].0 == self.buckets@[target as int].candidates@);
            }
            if self.buckets[target].candidates.len() < REPLICATION_PARAM {
                self.update_bucket(target, other, now, owner);
                return true;
            }
            let bucket_length = self.buckets.len();
            if target != bucket_length - 1 || bucket_length == ROUTING_TABLE_SIZE {
                return false;
            }
            let ghost before = self@;
            let mut last = self.buckets.remove(target);
            let moved = last.split(&owner_id, target);
            self.buckets.push(last);
            self.buckets.push(moved);
            proof {
                assert(self@ =~= split_last(before, owner@));
                lemma_split_last_wf(before, owner@);
            }
            target = self.bucket_index(&owner_id, &other.key);
        }
    }

    /// The `count` contacts nearest to `key`, chosen as the kademlia table
    /// does; none while the owner is unknown.
    pub fn get_closest_candidate(&self, key: &Key, count: usize) -> (r: Vec<Candidate>)
        requires
            self.wf(),
        ensures
            match self.owner() {
                Option::Some(o) => exists|full: Seq<Candidate>|
                    #[trigger] sorted_by_distance(full, *key) && full.to_multiset() == gathered(
                        self@,
                        bucket_for(class_of(o, *key), self@.len()),
                        count as nat,
                    ).to_multiset() && r@ == (if count < full.len() {
                        full.take(count as int)
                    } else {
                        full
                    }),
                Option::None => r@.len() == 0,
            },
    {
        let owner_id = match self.owner_key() {
            Some(k) => k,
            None => return Vec::new(),
        };
        let index = self.bucket_index(&owner_id, key);
        let ghost t = self@;
        let mut ret: Vec<Candidate> = Vec::new();
        extend_with(&mut ret, &self.buckets[index].candidates);
        proof {
            assert(ret@ =~= t[index as int].0);
        }
        if ret.len() < count {
            let mut i: usize = index + 1;
            proof {
                assert(concat_range(t, index + 1, index + 1) =~= Seq::<Candidate>::empty());
                assert(ret@ =~= t[index as int].0 + concat_range(t, index + 1, index + 1));
            }
            while i < self.buckets.len()
                invariant
                    index < i <= self.buckets@.len(),
                    t == self@,
                    ret@ == t[index as int].0 + concat_range(t, index + 1, i as int),
                decreases self.buckets@.len() - i,
            {
                extend_with(&mut ret, &self.buckets[i].candidates);
                proof {
                    assert(t[i as int].0 == self.buckets@[i as int].candidates@);
                    assert(ret@ =~= t[index as int].0 + concat_range(t, index + 1, i + 1));
                }
                i = i + 1;
            }
        }
        let ghost a1 = ret@;
        if ret.len() < count {
            let mut j: usize = index;
            while j > 0 && ret.len() < count
                invariant
                    0 <= j <= index,
                    t == self@,
                    index < t.len(),
                    widen_down(ret@, t, j as int, count as nat) == widen_down(a1, t, index as int, count as nat),
                decreases j,
            {
                proof {
                    assert(t[j - 1].0 == self.buckets@[j - 1].candidates@);
                }
                extend_with(&mut ret, &self.buckets[j - 1].candidates);
                j = j - 1;
            }
        }
        let mut sorted = sort_by_distance(ret, key);
        sorted.truncate(count);
        sorted
    }

    /// Takes out the least recently seen contact of the bucket for `key`;
    /// nothing while the owner is unknown.
    pub fn remove_lrs(&mut self, key: &Key) -> (r: Option<Candidate>)
        requires
            old(self).wf(),
        ensures
            final(self).wf(),
            final(self).owner() == old(self).owner(),
            match old(self).owner() {
                Option::Some(o) => {
                    let b = bucket_for(class_of(o, *key), old(self)@.len());
                    let bucket = old(self)@[b];
                    if bucket.0.len() == 0 {
                        r == Option::<Candidate>::None && final(self)@ == old(self)@
                    } else {
                        r == Some(bucket.0[0]) && final(self)@ == old(self)@.update(
                            b,
                            (bucket.0.drop_first(), bucket.1),
                        )
                    }
                },
                Option::None => r == Option::<Candidate>::None && final(self)@ == old(self)@,
            },
    {
        let owner_id = match self.owner_key() {
            Some(k) => k,
            None => return None,
        };
        let index = self.bucket_index(&owner_id, key);
        let mut bucket = self.buckets.remove(index);
        let r = bucket.remove_lrs();
        self.buckets.insert(index, bucket);
        proof {
            let t = old(self)@;
            if t[index as int].0.len() > 0 {
                assert(self@ =~= t.update(index as int, (t[index as int].0.drop_first(), t[index as int].1)));
                assert forall|x: int, i: int| 0 <= x < self@.len() && 0 <= i < self@[x].0.len() implies fits_bucket(
                    owner_id,
                    self@.len(),
                    x,
                    #[trigger] self@[x].0[i],
                ) by {
                    if x == index {
                        assert(self@[x].0[i] == t[x].0[i + 1]);
                    }
                }
            } else {
                assert(self@ =~= t);
            }
        }
        r
    }

    /// Removes `other` from the bucket of its key; fails while the owner is unknown.
    pub fn remove_candidate(&mut self, other: &Candidate) -> (r: Result<(), Error>)
        requires
            old(self).wf(),
        ensures
            final(self).wf(),
            final(self).owner() == old(self).owner(),
            match old(self).owner() {
                Option::Some(o) => {
                    let b = bucket_for(class_of(o, other.key), old(self)@.len());
                    r == Ok::<(), Error>(()) && final(self)@ == old(self)@.update(
                        b,
                        (without_id(old(self)@[b].0, other.key), old(self)@[b].1),
                    )
                },
                Option::None => r == Err::<(), Error>(Error::NoCandidate) && final(self)@ == old(
                    self,
                )@,
            },
    {
        let owner_id = match self.owner_key() {
            Some(k) => k,
            None => return Err(Error::NoCandidate),
        };
        let index = self.bucket_index(&owner_id, &other.key);
        let mut bucket = self.buckets.remove(index);
        bucket.remove_candidate(other);
        self.buckets.insert(index, bucket);
        proof {
            let t = old(self)@;
            let s = t[index as int].0;
            assert(self@ =~= t.update(index as int, (without_id(s, other.key), t[index as int].1)));
            lemma_index_of_id_bound(s, other.key);
            let k = index_of_id(s, other.key);
            assert forall|x: int, i: int| 0 <= x < self@.len() && 0 <= i < self@[x].0.len() implies fits_bucket(
                owner_id,
                self@.len(),
                x,
                #[trigger] self@[x].0[i],
            ) by {
                if x == index && k >= 0 {
                    if i < k {
                        assert(self@[x].0[i] == s[i]);
                    } else {
                        assert(self@[x].0[i] == s[i + 1]);
                    }
                }
            }
        }
        Ok(())
    }

    /// The indexes of the buckets that are stale at `now`, ascending.
    pub fn get_stale_indexes(&self, now: u64) -> (r: Vec<usize>)
        ensures
            r@ == stale_indexes(self@, now, self@.len() as int),
    {
        let mut ret: Vec<usize> = Vec::new();
        let mut i: usize = 0;
        while i < self.buckets.len()
            invariant
                0 <= i <= self.buckets@.len(),
                ret@ == stale_indexes(self@, now, i as int),
            decreases self.buckets@.len() - i,
        {
            if self.buckets[i].is_stale(now) {
                ret.push(i);
            }
            i = i + 1;
        }
        ret
    }
}

} // verus!
