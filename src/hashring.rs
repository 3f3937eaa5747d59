//! Nodes kept in the order of their keys.
use vstd::prelude::*;

use crate::did::{be_value, Did};
use crate::kademlia::Address;

verus! {

/// A node on the ring: its key and the message it carries.
#[derive(Debug)]
pub struct BNSNode {
    pub key: Address,
    pub msg: (String, Vec<u8>),
}

/// The position of a key on the ring.
pub open spec fn key_value(k: Address) -> nat {
    be_value(k.0@)
}

/// Whether nodes are in non-decreasing key order.
pub open spec fn sorted_by_key(s: Seq<BNSNode>) -> bool {
    forall|i: int, j: int|
        0 <= i < j < s.len() ==> key_value((#[trigger] s[i]).key) <= key_value((#[trigger] s[j]).key)
}

/// Nodes ordered by key.
#[derive(Debug)]
pub struct HashRing {
    nodes: Vec<BNSNode>,
}

impl View for HashRing {
    type V = Seq<BNSNode>;

    closed spec fn view(&self) -> Seq<BNSNode> {
        self.nodes@
    }
}

impl HashRing {
    pub open spec fn wf(&self) -> bool {
        sorted_by_key(self@)
    }

    pub fn new() -> (r: HashRing)
        ensures
            r.wf(),
            r@ == Seq::<BNSNode>::empty(),
    {
        HashRing { nodes: Vec::new() }
    }

    /// The nodes, in key order.
    pub fn nodes(&self) -> (r: &[BNSNode])
        ensures
            r@ == self@,
    {
        self.nodes.as_slice()
    }

    /// Adds a node after every node whose key is not greater.
    pub fn insert(&mut self, key: Address, msg: (String, Vec<u8>))
        requires
            old(self).wf(),
        ensures
            final(self).wf(),
            exists|j: int|
                0 <= j <= old(self)@.len() && final(self)@ == old(self)@.insert(
                    j,
                    BNSNode { key, msg },
                ) && (forall|i: int|
                    0 <= i < j ==> key_value((#[trigger] old(self)@[i]).key) <= key_value(key))
                    && (forall|i: int|
                    j <= i < old(self)@.len() ==> key_value((#[trigger] old(self)@[i]).key)
                        > key_value(key)),
    {
        let k = Did::from_bytes(key.0);
        let mut j: usize = 0;
        while j < self.nodes.len() && Did::from_bytes(self.nodes[j].key.0).less_eq(&k)
            invariant
                0 <= j <= self.nodes@.len(),
                self.nodes@ == old(self).nodes@,
                k@ == key_value(key),
                forall|i: int| 0 <= i < j ==> key_value((#[trigger] self.nodes@[i]).key) <= k@,
            decreases self.nodes@.len() - j,
        {
            j = j + 1;
        }
        let node = BNSNode { key, msg };
        let ghost before = self.nodes@;
        proof {
            assert forall|i: int| j <= i < before.len() implies key_value(
                (#[trigger] before[i]).key,
            ) > key_value(key) by {
                if i > j {
                    assert(key_value(before[j as int].key) <= key_value(before[i].key));
                }
            }
        }
        self.nodes.insert(j, node);
        proof {
            let t = self.nodes@;
            assert forall|a: int, b: int| 0 <= a < b < t.len() implies key_value(
                (#[trigger] t[a]).key,
            ) <= key_value((#[trigger] t[b]).key) by {
                if b > j && a <= j {
                    if b - 1 > j {
                        assert(key_value(before[j as int].key) <= key_value(before[b - 1].key));
                    }
                }
            }
            assert(t == before.insert(j as int, BNSNode { key, msg }));
        }
    }
}

} // verus!
