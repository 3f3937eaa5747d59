//! Relay envelopes: a payload with its forward and return paths.
use vstd::prelude::*;

use std::collections::VecDeque;

use crate::did::Did;
use crate::message::Message;

verus! {

/// The direction of a relay.
#[derive(Debug, Clone, Copy, PartialEq, Eq, Structural)]
pub enum MessageRelayMethod {
    /// On its way from the originator to the node that answers.
    SEND,
    /// On its way back to the originator.
    REPORT,
}

/// A payload with its paths. Under `SEND`, `to_path` ends with the node the
/// relay is addressed to and `from_path` holds the nodes it came through; under
/// `REPORT`, `to_path` is the way back that is left to go.
#[derive(Debug)]
pub struct MessageRelay {
    pub tx_id: String,
    pub message_id: String,
    pub method: MessageRelayMethod,
    pub to_path: VecDeque<Did>,
    pub from_path: VecDeque<Did>,
    /// Milliseconds since the epoch after which the relay is dropped.
    pub ttl_deadline: u64,
    pub data: Message,
}

/// A sequence without its last element; an empty one stays empty.
pub open spec fn pop_tail(s: Seq<Did>) -> Seq<Did> {
    if s.len() == 0 {
        s
    } else {
        s.drop_last()
    }
}

/// The node this relay most recently came from.
pub open spec fn prev_of(method: MessageRelayMethod, to: Seq<Did>, from: Seq<Did>) -> Option<Did> {
    let p = match method {
        MessageRelayMethod::SEND => from,
        MessageRelayMethod::REPORT => to,
    };
    if p.len() == 0 {
        Option::None
    } else {
        Option::Some(p.last())
    }
}

/// The paths `(to_path, from_path)` of a `SEND` as node `path[i]` receives it,
/// when the originator `path[0]` addressed it to `path[1]` and each node
/// `path[j]`, `0 < j < i`, forwarded it to `path[j + 1]` with `next_hop`.
pub open spec fn sent_along(path: Seq<Did>, i: int) -> (Seq<Did>, Seq<Did>)
    decreases i,
{
    if i <= 1 {
        (seq![path[1]], seq![path[0]])
    } else {
        let prior = sent_along(path, i - 1);
        (prior.0.push(path[i]), prior.1.push(path[i - 1]))
    }
}

/// The paths `(to_path, from_path)` of the answer to a `SEND` along `path`,
/// after `j` nodes on the way back have each taken one tail off both paths.
/// The answer starts at the last node with the two paths swapped.
pub open spec fn reported_back(path: Seq<Did>, j: int) -> (Seq<Did>, Seq<Did>)
    decreases j,
{
    if j <= 0 {
        let arrived = sent_along(path, path.len() - 1);
        (arrived.1, arrived.0)
    } else {
        let prior = reported_back(path, j - 1);
        (pop_tail(prior.0), pop_tail(prior.1))
    }
}

pub proof fn lemma_sent_along(path: Seq<Did>, i: int)
    requires
        1 <= i < path.len(),
    ensures
        sent_along(path, i) == (path.subrange(1, i + 1), path.subrange(0, i)),
    decreases i,
{
    if i > 1 {
        lemma_sent_along(path, i - 1);
        assert(path.subrange(1, i).push(path[i]) =~= path.subrange(1, i + 1));
        assert(path.subrange(0, i - 1).push(path[i - 1]) =~= path.subrange(0, i));
    } else {
        assert(path.subrange(1, 2) =~= seq![path[1]]);
        assert(path.subrange(0, 1) =~= seq![path[0]]);
    }
}

pub proof fn lemma_reported_back(path: Seq<Did>, j: int)
    requires
        path.len() >= 2,
        0 <= j < path.len(),
    ensures
        reported_back(path, j) == (
            path.subrange(0, path.len() - 1 - j),
            path.subrange(1, path.len() - j),
        ),
    decreases j,
{
    let n = path.len() as int;
    if j == 0 {
        lemma_sent_along(path, n - 1);
    } else {
        lemma_reported_back(path, j - 1);
        assert(path.subrange(0, n - j).drop_last() =~= path.subrange(0, n - 1 - j));
        assert(path.subrange(1, n - j + 1).drop_last() =~= path.subrange(1, n - j));
    }
}

/// Relay path symmetry. A `SEND` along `[a, b, ..., y, z]` reaches `z` with
/// `to_path = [b, ..., z]` and `from_path = [a, ..., y]`. Its answer then
/// visits `y, ..., b, a` in turn: before the hop that node `path[n - 2 - j]`
/// handles, `to_path` ends with that node, and each hop takes exactly one tail
/// off both paths, so that both are empty once `a` has handled it.
pub proof fn lemma_relay_path_symmetry(path: Seq<Did>)
    requires
        path.len() >= 2,
    ensures
        sent_along(path, path.len() - 1) == (
            path.subrange(1, path.len() as int),
            path.subrange(0, path.len() - 1),
        ),
        forall|j: int|
            0 <= j < path.len() - 1 ==> {
                &&& #[trigger] reported_back(path, j).0.len() == path.len() - 1 - j
                &&& reported_back(path, j).1.len() == path.len() - 1 - j
                &&& reported_back(path, j).0.last() == path[path.len() - 2 - j]
            },
        reported_back(path, path.len() - 1).0.len() == 0,
        reported_back(path, path.len() - 1).1.len() == 0,
{
    let n = path.len() as int;
    lemma_sent_along(path, n - 1);
    assert forall|j: int| 0 <= j < n - 1 implies {
        &&& #[trigger] reported_back(path, j).0.len() == n - 1 - j
        &&& reported_back(path, j).1.len() == n - 1 - j
        &&& reported_back(path, j).0.last() == path[n - 2 - j]
    } by {
        lemma_reported_back(path, j);
    }
    lemma_reported_back(path, n - 1);
}

impl MessageRelay {
    /// A relay with the given paths.
    pub fn new_with_path(
        tx_id: String,
        message_id: String,
        to_path: VecDeque<Did>,
        from_path: VecDeque<Did>,
        method: MessageRelayMethod,
        ttl_deadline: u64,
        data: Message,
    ) -> (r: MessageRelay)
        ensures
            r.tx_id == tx_id,
            r.message_id == message_id,
            r.to_path@ == to_path@,
            r.from_path@ == from_path@,
            r.method == method,
            r.ttl_deadline == ttl_deadline,
            r.data == data,
    {
        MessageRelay { tx_id, message_id, method, to_path, from_path, ttl_deadline, data }
    }

    /// A relay for one hop from `current` to `next`.
    pub fn new_with_node(
        tx_id: String,
        message_id: String,
        next: Did,
        current: Did,
        method: MessageRelayMethod,
        ttl_deadline: u64,
        data: Message,
    ) -> (r: MessageRelay)
        ensures
            r.tx_id == tx_id,
            r.message_id == message_id,
            r.to_path@ == seq![next],
            r.from_path@ == seq![current],
            r.method == method,
            r.ttl_deadline == ttl_deadline,
            r.data == data,
    {
        let mut to_path: VecDeque<Did> = VecDeque::new();
        to_path.push_back(next);
        let mut from_path: VecDeque<Did> = VecDeque::new();
        from_path.push_back(current);
        proof {
            assert(to_path@ =~= seq![next]);
            assert(from_path@ =~= seq![current]);
        }
        MessageRelay { tx_id, message_id, method, to_path, from_path, ttl_deadline, data }
    }

    /// The answer to this relay: a `REPORT` whose way back is the way this
    /// relay came, carrying `data`, with the same correlation ids.
    pub fn into_report(self, data: Message) -> (r: MessageRelay)
        ensures
            r.method == MessageRelayMethod::REPORT,
            r.to_path@ == self.from_path@,
            r.from_path@ == self.to_path@,
            r.tx_id == self.tx_id,
            r.message_id == self.message_id,
            r.ttl_deadline == self.ttl_deadline,
            r.data == data,
    {
        MessageRelay {
            tx_id: self.tx_id,
            message_id: self.message_id,
            method: MessageRelayMethod::REPORT,
            to_path: self.from_path,
            from_path: self.to_path,
            ttl_deadline: self.ttl_deadline,
            data,
        }
    }

    /// The same relay carrying `data` instead.
    pub fn with_data(self, data: Message) -> (r: MessageRelay)
        ensures
            r.method == self.method,
            r.to_path@ == self.to_path@,
            r.from_path@ == self.from_path@,
            r.tx_id == self.tx_id,
            r.message_id == self.message_id,
            r.ttl_deadline == self.ttl_deadline,
            r.data == data,
    {
        MessageRelay { data, ..self }
    }
}

/// Path manipulation on a relay as it moves from node to node.
pub trait MessageSessionRelayProtocol {
    /// The node this relay most recently came from.
    fn find_prev(&self) -> Option<Did>;

    /// Records the arrival from `prev` at `current`.
    fn push_prev(&mut self, current: Did, prev: Did);

    /// Forwards a `SEND` from `current` to `next`.
    fn next_hop(&mut self, current: Did, next: Did);

    fn add_to_path(&mut self, node: Did);

    fn add_from_path(&mut self, node: Did);

    fn remove_to_path(&mut self) -> Option<Did>;

    fn remove_from_path(&mut self) -> Option<Did>;
}

impl MessageSessionRelayProtocol for MessageRelay {
    fn find_prev(&self) -> (r: Option<Did>)
        ensures
            r == prev_of(self.method, self.to_path@, self.from_path@),
    {
        match self.method {
            MessageRelayMethod::SEND => {
                if self.from_path.len() > 0 {
                    Some(self.from_path[self.from_path.len() - 1])
                } else {
                    None
                }
            },
            MessageRelayMethod::REPORT => {
                if self.to_path.len() > 0 {
                    Some(self.to_path[self.to_path.len() - 1])
                } else {
                    None
                }
            },
        }
    }

    fn push_prev(&mut self, current: Did, prev: Did)
        ensures
            final(self).to_path@ == if old(self).method == MessageRelayMethod::REPORT && old(
                self,
            ).to_path@.len() > 0 && old(self).to_path@.last() == current {
                old(self).to_path@.drop_last()
            } else {
                old(self).to_path@
            },
            final(self).from_path@ == old(self).from_path@.push(prev),
            final(self).method == old(self).method,
            final(self).tx_id == old(self).tx_id,
            final(self).message_id == old(self).message_id,
            final(self).ttl_deadline == old(self).ttl_deadline,
            final(self).data == old(self).data,
    {
        match self.method {
            MessageRelayMethod::SEND => {
                self.from_path.push_back(prev);
            },
            MessageRelayMethod::REPORT => {
                if self.to_path.len() > 0 && self.to_path[self.to_path.len() - 1] == current {
                    self.to_path.pop_back();
                }
                self.from_path.push_back(prev);
            },
        }
    }

    fn next_hop(&mut self, current: Did, next: Did)
        ensures
            final(self).to_path@ == old(self).to_path@.push(next),
            final(self).from_path@ == old(self).from_path@.push(current),
            final(self).method == old(self).method,
            final(self).tx_id == old(self).tx_id,
            final(self).message_id == old(self).message_id,
            final(self).ttl_deadline == old(self).ttl_deadline,
            final(self).data == old(self).data,
    {
        self.to_path.push_back(next);
        self.from_path.push_back(current);
    }

    fn add_to_path(&mut self, node: Did)
        ensures
            final(self).to_path@ == old(self).to_path@.push(node),
            final(self).from_path@ == old(self).from_path@,
            final(self).method == old(self).method,
            final(self).tx_id == old(self).tx_id,
            final(self).message_id == old(self).message_id,
            final(self).ttl_deadline == old(self).ttl_deadline,
            final(self).data == old(self).data,
    {
        self.to_path.push_back(node);
    }

    fn add_from_path(&mut self, node: Did)
        ensures
            final(self).from_path@ == old(self).from_path@.push(node),
            final(self).to_path@ == old(self).to_path@,
            final(self).method == old(self).method,
            final(self).tx_id == old(self).tx_id,
            final(self).message_id == old(self).message_id,
            final(self).ttl_deadline == old(self).ttl_deadline,
            final(self).data == old(self).data,
    {
        self.from_path.push_back(node);
    }

    fn remove_to_path(&mut self) -> (r: Option<Did>)
        ensures
            final(self).to_path@ == pop_tail(old(self).to_path@),
            r == (if old(self).to_path@.len() == 0 {
                Option::<Did>::None
            } else {
                Option::Some(old(self).to_path@.last())
            }),
            final(self).from_path@ == old(self).from_path@,
            final(self).method == old(self).method,
            final(self).tx_id == old(self).tx_id,
            final(self).message_id == old(self).message_id,
            final(self).ttl_deadline == old(self).ttl_deadline,
            final(self).data == old(self).data,
    {
        self.to_path.pop_back()
    }

    fn remove_from_path(&mut self) -> (r: Option<Did>)
        ensures
            final(self).from_path@ == pop_tail(old(self).from_path@),
            r == (if old(self).from_path@.len() == 0 {
                Option::<Did>::None
            } else {
                Option::Some(old(self).from_path@.last())
            }),
            final(self).to_path@ == old(self).to_path@,
            final(self).method == old(self).method,
            final(self).tx_id == old(self).tx_id,
            final(self).message_id == old(self).message_id,
            final(self).ttl_deadline == old(self).ttl_deadline,
            final(self).data == old(self).data,
    {
        self.from_path.pop_back()
    }
}

} // verus!
