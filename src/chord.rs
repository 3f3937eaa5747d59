//! Chord routing state and its pure decisions.
use vstd::prelude::*;

use crate::did::{
    in_half_open_arc, in_open_arc, lemma_ring_sub_value, pow2, ring_add, ring_neg, ring_sub, Did,
};
use crate::error::Error;

verus! {

/// Size of the finger table: one entry per bit of an identifier.
pub const RING_BITS: usize = 160;

/// A request that this node asks another node to carry out.
#[derive(Clone, Copy, Debug, Eq)]
pub enum RemoteAction {
    /// Ask the first node to find the successor of the second.
    FindSuccessor((Did, Did)),
    /// Ask the first node to take the second as its predecessor.
    Notify((Did, Did)),
    /// Like `FindSuccessor`, for the finger slot given first.
    FindSuccessorAndAddToFinger((u8, Did, Did)),
    /// Check that the predecessor is alive.
    CheckPredecessor(Did),
}

/// The outcome of a routing decision.
#[derive(Clone, Copy, Debug, Eq)]
pub enum ChordAction {
    /// Nothing to do.
    Nothing,
    /// The answer is known locally.
    Resolved(Did),
    /// Another node has to be asked.
    RemoteAction(RemoteAction),
}

impl PartialEq for RemoteAction {
    fn eq(&self, other: &RemoteAction) -> (r: bool) {
        match (self, other) {
            (RemoteAction::FindSuccessor(a), RemoteAction::FindSuccessor(b)) => a.0 == b.0 && a.1
                == b.1,
            (RemoteAction::Notify(a), RemoteAction::Notify(b)) => a.0 == b.0 && a.1 == b.1,
            (
                RemoteAction::FindSuccessorAndAddToFinger(a),
                RemoteAction::FindSuccessorAndAddToFinger(b),
            ) => a.0 == b.0 && a.1 == b.1 && a.2 == b.2,
            (RemoteAction::CheckPredecessor(a), RemoteAction::CheckPredecessor(b)) => a == b,
            _ => false,
        }
    }
}

impl vstd::std_specs::cmp::PartialEqSpecImpl for RemoteAction {
    open spec fn obeys_eq_spec() -> bool {
        true
    }

    open spec fn eq_spec(&self, other: &RemoteAction) -> bool {
        *self == *other
    }
}

impl PartialEq for ChordAction {
    fn eq(&self, other: &ChordAction) -> (r: bool) {
        match (self, other) {
            (ChordAction::Nothing, ChordAction::Nothing) => true,
            (ChordAction::Resolved(a), ChordAction::Resolved(b)) => a == b,
            (ChordAction::RemoteAction(a), ChordAction::RemoteAction(b)) => a == b,
            _ => false,
        }
    }
}

impl vstd::std_specs::cmp::PartialEqSpecImpl for ChordAction {
    open spec fn obeys_eq_spec() -> bool {
        true
    }

    open spec fn eq_spec(&self, other: &ChordAction) -> bool {
        *self == *other
    }
}

/// The finger entry for slot `k` after a join of `id` on a node at `self_id`.
pub open spec fn joined_finger(cur: Option<Did>, self_id: nat, id: Did, k: nat) -> Option<Did> {
    let pos = ring_add(self_id, pow2(k));
    if pos <= id@ || pos >= ring_neg(id@) {
        match cur {
            Option::Some(v) => if id@ < v@ || id@ > ring_neg(v@) {
                Option::Some(id)
            } else {
                cur
            },
            Option::None => Option::Some(id),
        }
    } else {
        cur
    }
}

/// Among the finger slots below `k`, the highest filled one whose id lies in
/// the open arc `(self_id, q)`.
pub open spec fn preceding_below(f: Seq<Option<Did>>, self_id: nat, q: nat, k: int) -> Option<Did>
    decreases k,
{
    if k <= 0 {
        Option::None
    } else {
        match f[k - 1] {
            Option::Some(v) => if in_open_arc(v@, self_id, q) {
                Option::Some(v)
            } else {
                preceding_below(f, self_id, q, k - 1)
            },
            Option::None => preceding_below(f, self_id, q, k - 1),
        }
    }
}

/// The predecessor after `cand` has announced itself to a node at `self_id`.
pub open spec fn notified(pred: Option<Did>, self_id: nat, cand: Did) -> Option<Did> {
    match pred {
        Option::Some(p) => if in_open_arc(cand@, p@, self_id) {
            Option::Some(cand)
        } else {
            Option::Some(p)
        },
        Option::None => Option::Some(cand),
    }
}

/// What `fix_fingers` does to the finger table, and what it returns, once the
/// cursor has moved to slot `after.fix_finger_index`.
pub open spec fn fingers_fixed(before: Chord, after: Chord, r: Result<ChordAction, Error>) -> bool {
    let k = after.fix_finger_index;
    let q = ring_add(before.id@, pow2(k as nat));
    if in_half_open_arc(q, before.id@, before.successor@) {
        &&& r == Ok::<ChordAction, Error>(ChordAction::Nothing)
        &&& after.finger@.len() == RING_BITS
        &&& forall|j: int|
            0 <= j < RING_BITS && j != k ==> #[trigger] after.finger@[j] == before.finger@[j]
        &&& after.finger@[k as int] matches Option::Some(v) && v@ == q
    } else {
        &&& after.finger@ == before.finger@
        &&& match before.closest_preceding(q) {
            Option::Some(n) => r matches Ok(
                ChordAction::RemoteAction(RemoteAction::FindSuccessorAndAddToFinger((k2, n2, q2))),
            ) && k2 == k && n2 == n && q2@ == q,
            Option::None => r == Err::<ChordAction, Error>(Error::RoutingExhausted),
        }
    }
}

/// Per-node Chord state.
#[derive(Clone, Debug)]
pub struct Chord {
    /// `finger[k]` is the best known successor of `id + 2^k`.
    pub finger: Vec<Option<Did>>,
    /// The next node on the ring.
    pub successor: Did,
    /// The previous node on the ring, once known.
    pub predecessor: Option<Did>,
    /// This node's own id.
    pub id: Did,
    /// The finger slot that the next `fix_fingers` refreshes.
    pub fix_finger_index: u8,
}

impl Chord {
    /// The table has one slot per bit and the cursor points into it.
    pub open spec fn wf(&self) -> bool {
        &&& self.finger@.len() == RING_BITS
        &&& self.fix_finger_index < RING_BITS
    }

    /// The highest finger that precedes `q`, seen from this node.
    pub open spec fn closest_preceding(&self, q: nat) -> Option<Did> {
        preceding_below(self.finger@, self.id@, q, RING_BITS as int)
    }

    /// What `find_successor(q)` answers.
    pub open spec fn successor_answer(&self, q: Did) -> Result<ChordAction, Error> {
        if in_half_open_arc(q@, self.id@, self.successor@) {
            Ok(ChordAction::Resolved(q))
        } else {
            match self.closest_preceding(q@) {
                Option::Some(n) => Ok(ChordAction::RemoteAction(RemoteAction::FindSuccessor((n, q)))),
                Option::None => Err(Error::RoutingExhausted),
            }
        }
    }

    /// A node alone on a new ring.
    pub fn new(id: Did) -> (r: Chord)
        ensures
            r.wf(),
            r.id == id,
            r.successor == id,
            r.predecessor == Option::<Did>::None,
            r.fix_finger_index == 0,
            forall|k: int| 0 <= k < RING_BITS ==> r.finger@[k] == Option::<Did>::None,
    {
        let mut finger: Vec<Option<Did>> = Vec::new();
        while finger.len() < RING_BITS
            invariant
                finger@.len() <= RING_BITS,
                forall|k: int| 0 <= k < finger@.len() ==> finger@[k] == Option::<Did>::None,
            decreases RING_BITS - finger@.len(),
        {
            finger.push(None);
        }
        Chord { successor: id, predecessor: None, finger, id, fix_finger_index: 0 }
    }

    /// Learns of node `id`: fills the finger slots it may serve and takes it
    /// as successor when it is nearer than the current one, then asks the
    /// successor for this node's successor.
    pub fn join(&mut self, id: Did) -> (r: ChordAction)
        requires
            old(self).wf(),
        ensures
            final(self).wf(),
            final(self).id == old(self).id,
            final(self).predecessor == old(self).predecessor,
            final(self).fix_finger_index == old(self).fix_finger_index,
            id == old(self).id ==> r == ChordAction::Nothing && final(self).finger@ == old(
                self,
            ).finger@ && final(self).successor == old(self).successor,
            id != old(self).id ==> {
                &&& forall|k: int|
                    0 <= k < RING_BITS ==> #[trigger] final(self).finger@[k] == joined_finger(
                        old(self).finger@[k],
                        old(self).id@,
                        id,
                        k as nat,
                    )
                &&& final(self).successor == if ring_sub(id@, old(self).id@) < ring_sub(
                    old(self).successor@,
                    old(self).id@,
                ) || old(self).id == old(self).successor {
                    id
                } else {
                    old(self).successor
                }
                &&& r == ChordAction::RemoteAction(
                    RemoteAction::FindSuccessor((final(self).successor, old(self).id)),
                )
            },
    {
        if id == self.id {
            return ChordAction::Nothing;
        }
        let neg_id = id.ring_neg();
        let mut k: usize = 0;
        while k < RING_BITS
            invariant
                0 <= k <= RING_BITS,
                self.finger@.len() == RING_BITS,
                self.id == old(self).id,
                self.successor == old(self).successor,
                self.predecessor == old(self).predecessor,
                self.fix_finger_index == old(self).fix_finger_index,
                neg_id@ == ring_neg(id@),
                forall|j: int|
                    0 <= j < k ==> #[trigger] self.finger@[j] == joined_finger(
                        old(self).finger@[j],
                        old(self).id@,
                        id,
                        j as nat,
                    ),
                forall|j: int| k <= j < RING_BITS ==> #[trigger] self.finger@[j] == old(self).finger@[j],
            decreases RING_BITS - k,
        {
            let pos = self.id.ring_add(Did::pow2(k as u32));
            if pos.less_eq(&id) || neg_id.less_eq(&pos) {
                match self.finger[k] {
                    Some(v) => {
                        if id.less_than(&v) || v.ring_neg().less_than(&id) {
                            self.finger.set(k, Some(id));
                        }
                    },
                    None => {
                        self.finger.set(k, Some(id));
                    },
                }
            }
            k = k + 1;
        }
        if id.ring_sub(self.id).less_than(&self.successor.ring_sub(self.id))
            || self.id == self.successor {
            self.successor = id;
        }
        ChordAction::RemoteAction(RemoteAction::FindSuccessor((self.successor, self.id)))
    }

    /// Periodic check of the successor: a known predecessor that lies between
    /// this node and its successor becomes the successor, and is told of this node.
    pub fn stablilize(&mut self) -> (r: ChordAction)
        ensures
            final(self).finger@ == old(self).finger@,
            final(self).id == old(self).id,
            final(self).predecessor == old(self).predecessor,
            final(self).fix_finger_index == old(self).fix_finger_index,
            match old(self).predecessor {
                Option::Some(x) => if in_open_arc(x@, old(self).id@, old(self).successor@) {
                    final(self).successor == x && r == ChordAction::RemoteAction(
                        RemoteAction::Notify((x, old(self).id)),
                    )
                } else {
                    final(self).successor == old(self).successor && r == ChordAction::Nothing
                },
                Option::None => final(self).successor == old(self).successor && r
                    == ChordAction::Nothing,
            },
    {
        if let Some(x) = self.predecessor {
            if x.in_range(&self.id, &self.id, &self.successor) {
                proof {
                    self.id.lemma_bounds();
                    lemma_ring_sub_value(self.id@, self.id@);
                }
                self.successor = x;
                return ChordAction::RemoteAction(RemoteAction::Notify((x, self.id)));
            }
            proof {
                self.id.lemma_bounds();
                lemma_ring_sub_value(self.id@, self.id@);
            }
        }
        ChordAction::Nothing
    }

    /// Node `id` thinks it might be this node's predecessor.
    pub fn notify(&mut self, id: Did)
        ensures
            final(self).finger@ == old(self).finger@,
            final(self).id == old(self).id,
            final(self).successor == old(self).successor,
            final(self).fix_finger_index == old(self).fix_finger_index,
            final(self).predecessor == notified(old(self).predecessor, old(self).id@, id),
    {
        match self.predecessor {
            Some(pre) => {
                proof {
                    pre.lemma_bounds();
                    lemma_ring_sub_value(pre@, pre@);
                }
                if id.in_range(&pre, &pre, &self.id) {
                    self.predecessor = Some(id);
                }
            },
            None => self.predecessor = Some(id),
        }
    }

    /// Asks for the predecessor to be checked, when there is one.
    pub fn check_predecessor(&self) -> (r: ChordAction)
        ensures
            r == match self.predecessor {
                Option::Some(p) => ChordAction::RemoteAction(RemoteAction::CheckPredecessor(p)),
                Option::None => ChordAction::Nothing,
            },
    {
        match self.predecessor {
            Some(p) => ChordAction::RemoteAction(RemoteAction::CheckPredecessor(p)),
            None => ChordAction::Nothing,
        }
    }

    /// The highest finger whose id lies strictly between this node and `id`.
    pub fn closest_preceding_node(&self, id: Did) -> (r: Result<Did, Error>)
        requires
            self.wf(),
        ensures
            r == match self.closest_preceding(id@) {
                Option::Some(v) => Ok::<Did, Error>(v),
                Option::None => Err(Error::RoutingExhausted),
            },
    {
        proof {
            self.id.lemma_bounds();
            lemma_ring_sub_value(self.id@, self.id@);
        }
        let mut i: usize = RING_BITS;
        while i > 0
            invariant
                0 <= i <= RING_BITS,
                self.wf(),
                ring_sub(self.id@, self.id@) == 0,
                self.closest_preceding(id@) == preceding_below(self.finger@, self.id@, id@, i as int),
            decreases i,
        {
            i = i - 1;
            if let Some(v) = self.finger[i] {
                if v.in_range(&self.id, &self.id, &id) {
                    return Ok(v);
                }
            }
        }
        Err(Error::RoutingExhausted)
    }

    /// Finds the node responsible for `id`: answered here when `id` lies in
    /// `(self, successor]`, else asked of the closest preceding finger.
    pub fn find_successor(&self, id: Did) -> (r: Result<ChordAction, Error>)
        requires
            self.wf(),
        ensures
            r == self.successor_answer(id),
    {
        let dist = id.ring_sub(self.id);
        proof {
            self.id.lemma_bounds();
            lemma_ring_sub_value(self.id@, self.id@);
        }
        if Did::zero().less_than(&dist) && dist.less_eq(&self.successor.ring_sub(self.id)) {
            Ok(ChordAction::Resolved(id))
        } else {
            match self.closest_preceding_node(id) {
                Ok(n) => Ok(ChordAction::RemoteAction(RemoteAction::FindSuccessor((n, id)))),
                Err(e) => Err(e),
            }
        }
    }

    /// Moves the cursor to the next finger slot and refreshes it: set here
    /// when the answer is local, else a request to another node.
    pub fn fix_fingers(&mut self) -> (r: Result<ChordAction, Error>)
        requires
            old(self).wf(),
        ensures
            final(self).wf(),
            final(self).id == old(self).id,
            final(self).successor == old(self).successor,
            final(self).predecessor == old(self).predecessor,
            final(self).fix_finger_index == (old(self).fix_finger_index + 1) % (RING_BITS as int),
            fingers_fixed(*old(self), *final(self), r),
    {
        self.fix_finger_index = self.fix_finger_index + 1;
        if self.fix_finger_index as usize >= RING_BITS {
            self.fix_finger_index = 0;
        }
        let q = self.id.ring_add(Did::pow2(self.fix_finger_index as u32));
        match self.find_successor(q) {
            Ok(ChordAction::Resolved(v)) => {
                self.finger.set(self.fix_finger_index as usize, Some(v));
                Ok(ChordAction::Nothing)
            },
            Ok(ChordAction::RemoteAction(RemoteAction::FindSuccessor((a, b)))) => {
                Ok(
                    ChordAction::RemoteAction(
                        RemoteAction::FindSuccessorAndAddToFinger((self.fix_finger_index, a, b)),
                    ),
                )
            },
            Ok(_) => Err(Error::InvariantViolation),
            Err(e) => Err(e),
        }
    }
}

} // verus!
