//! The relay state machine: how a node answers or forwards what it receives,
//! and what it sends on each stabilization tick. Every decision here is pure;
//! the caller performs the sends.
use vstd::prelude::*;

use std::collections::VecDeque;

use crate::chord::{fingers_fixed, notified, Chord, ChordAction, RemoteAction};
use crate::did::Did;
use crate::error::Error;
use crate::message::{
    FindSuccessor, FoundSuccessor, Message, NotifiedPredecessor, NotifyPredecessor,
};
use crate::relay::{
    lemma_reported_back, lemma_sent_along, pop_tail, reported_back, sent_along, MessageRelay,
    MessageRelayMethod, MessageSessionRelayProtocol,
};

verus! {

/// A relay to hand to the transport, and the node to send it to.
#[derive(Debug)]
pub struct Outgoing {
    pub target: Did,
    pub relay: MessageRelay,
}

/// The two chord states agree on every field.
pub open spec fn same_chord(a: Chord, b: Chord) -> bool {
    &&& a.finger@ == b.finger@
    &&& a.successor == b.successor
    &&& a.predecessor == b.predecessor
    &&& a.id == b.id
    &&& a.fix_finger_index == b.fix_finger_index
}

/// `o` is the answer to `relay`: a `REPORT` back along the way it came, with
/// the same correlation ids and deadline, carrying `data`, sent to `target`.
pub open spec fn is_report_of(o: Outgoing, relay: MessageRelay, target: Did, data: Message) -> bool {
    &&& o.target == target
    &&& o.relay.method == MessageRelayMethod::REPORT
    &&& o.relay.to_path@ == relay.from_path@
    &&& o.relay.from_path@ == relay.to_path@
    &&& o.relay.tx_id == relay.tx_id
    &&& o.relay.message_id == relay.message_id
    &&& o.relay.ttl_deadline == relay.ttl_deadline
    &&& o.relay.data == data
}

/// Whether a node at `current` accepts `relay` at time `now` (milliseconds):
/// the deadline has not passed and the relay's path ends at this node.
pub open spec fn accepts(relay: MessageRelay, current: Did, now: u64) -> bool {
    &&& now <= relay.ttl_deadline
    &&& relay.to_path@.len() > 0
    &&& relay.to_path@.last() == current
}

/// Checks an incoming relay before it is handled.
pub fn check_envelope(relay: &MessageRelay, current: Did, now: u64) -> (r: Result<(), Error>)
    ensures
        r == if accepts(*relay, current, now) {
            Ok::<(), Error>(())
        } else {
            Err(Error::BadEnvelope)
        },
{
    if now <= relay.ttl_deadline && relay.to_path.len() > 0 && relay.to_path[relay.to_path.len()
        - 1] == current {
        Ok(())
    } else {
        Err(Error::BadEnvelope)
    }
}

/// What handling `FindSuccessor` yields at `chord`, for a `SEND` that came from `prev`.
pub open spec fn find_successor_handled(
    chord: Chord,
    relay: MessageRelay,
    prev: Did,
    msg: FindSuccessor,
    r: Result<Option<Outgoing>, Error>,
) -> bool {
    if relay.method != MessageRelayMethod::SEND {
        r == Err::<Option<Outgoing>, Error>(Error::BadEnvelope)
    } else {
        match chord.successor_answer(msg.id) {
            Ok(ChordAction::Resolved(id)) => r matches Ok(Some(o)) && is_report_of(
                o,
                relay,
                prev,
                Message::FoundSuccessor(FoundSuccessor { successor: id, for_fix: msg.for_fix }),
            ),
            Ok(ChordAction::RemoteAction(RemoteAction::FindSuccessor((next, q)))) => r matches Ok(
                Some(o),
            ) && {
                &&& o.target == next
                &&& o.relay.method == MessageRelayMethod::SEND
                &&& o.relay.to_path@ == relay.to_path@.push(next)
                &&& o.relay.from_path@ == relay.from_path@.push(chord.id)
                &&& o.relay.tx_id == relay.tx_id
                &&& o.relay.message_id == relay.message_id
                &&& o.relay.ttl_deadline == relay.ttl_deadline
                &&& o.relay.data == Message::FindSuccessor(
                    FindSuccessor { id: q, for_fix: msg.for_fix },
                )
            },
            Ok(_) => r == Err::<Option<Outgoing>, Error>(Error::InvariantViolation),
            Err(e) => r == Err::<Option<Outgoing>, Error>(e),
        }
    }
}

/// A `SEND` asking for the successor of `msg.id`: answered back to `prev`
/// when this node knows it, else forwarded one hop to the closest preceding finger.
pub fn handle_find_successor(chord: &Chord, relay: MessageRelay, prev: Did, msg: FindSuccessor) -> (r:
    Result<Option<Outgoing>, Error>)
    requires
        chord.wf(),
    ensures
        find_successor_handled(*chord, relay, prev, msg, r),
{
    if relay.method != MessageRelayMethod::SEND {
        return Err(Error::BadEnvelope);
    }
    match chord.find_successor(msg.id) {
        Ok(ChordAction::Resolved(id)) => {
            let data = Message::FoundSuccessor(FoundSuccessor { successor: id, for_fix: msg.for_fix });
            Ok(Some(Outgoing { target: prev, relay: relay.into_report(data) }))
        },
        Ok(ChordAction::RemoteAction(RemoteAction::FindSuccessor((next, q)))) => {
            let mut send = relay.with_data(
                Message::FindSuccessor(FindSuccessor { id: q, for_fix: msg.for_fix }),
            );
            send.next_hop(chord.id, next);
            Ok(Some(Outgoing { target: next, relay: send }))
        },
        Ok(_) => Err(Error::InvariantViolation),
        Err(e) => Err(e),
    }
}

/// What handling `FoundSuccessor` yields, and does to the chord state.
pub open spec fn found_successor_handled(
    before: Chord,
    after: Chord,
    relay: MessageRelay,
    msg: FoundSuccessor,
    r: Result<Option<Outgoing>, Error>,
) -> bool {
    if !(relay.method == MessageRelayMethod::REPORT && relay.to_path@.len() > 0
        && relay.to_path@.last() == before.id) {
        r == Err::<Option<Outgoing>, Error>(Error::BadEnvelope) && same_chord(before, after)
    } else {
        let to = relay.to_path@.drop_last();
        let from = pop_tail(relay.from_path@);
        if to.len() > 0 {
            &&& same_chord(before, after)
            &&& r matches Ok(Some(o)) && {
                &&& o.target == to.last()
                &&& o.relay.method == MessageRelayMethod::REPORT
                &&& o.relay.to_path@ == to
                &&& o.relay.from_path@ == from
                &&& o.relay.tx_id == relay.tx_id
                &&& o.relay.message_id == relay.message_id
                &&& o.relay.ttl_deadline == relay.ttl_deadline
                &&& o.relay.data == Message::FoundSuccessor(msg)
            }
        } else {
            &&& r == Ok::<Option<Outgoing>, Error>(None)
            &&& after.id == before.id
            &&& after.predecessor == before.predecessor
            &&& after.fix_finger_index == before.fix_finger_index
            &&& if msg.for_fix {
                &&& after.finger@ == before.finger@.update(
                    before.fix_finger_index as int,
                    Some(msg.successor),
                )
                &&& after.successor == before.successor
            } else {
                &&& after.finger@ == before.finger@
                &&& after.successor == msg.successor
            }
        }
    }
}

/// A `REPORT` answering a successor query: passed on along the way back, or,
/// at the node that asked, stored as its successor or in the finger slot
/// under the cursor.
pub fn handle_found_successor(chord: &mut Chord, relay: MessageRelay, msg: FoundSuccessor) -> (r:
    Result<Option<Outgoing>, Error>)
    requires
        old(chord).wf(),
    ensures
        final(chord).wf(),
        found_successor_handled(*old(chord), *final(chord), relay, msg, r),
{
    if !(relay.method == MessageRelayMethod::REPORT && relay.to_path.len() > 0
        && relay.to_path[relay.to_path.len() - 1] == chord.id) {
        return Err(Error::BadEnvelope);
    }
    let mut back = relay;
    back.remove_to_path();
    back.remove_from_path();
    if back.to_path.len() > 0 {
        let target = back.to_path[back.to_path.len() - 1];
        Ok(Some(Outgoing { target, relay: back.with_data(Message::FoundSuccessor(msg)) }))
    } else {
        if msg.for_fix {
            chord.finger.set(chord.fix_finger_index as usize, Some(msg.successor));
        } else {
            chord.successor = msg.successor;
        }
        Ok(None)
    }
}

/// What handling `NotifyPredecessor` yields, and does to the chord state.
pub open spec fn notify_predecessor_handled(
    before: Chord,
    after: Chord,
    relay: MessageRelay,
    prev: Did,
    msg: NotifyPredecessor,
    r: Result<Option<Outgoing>, Error>,
) -> bool {
    if relay.method != MessageRelayMethod::SEND {
        r == Err::<Option<Outgoing>, Error>(Error::BadEnvelope) && same_chord(before, after)
    } else {
        &&& after.predecessor == notified(before.predecessor, before.id@, msg.predecessor)
        &&& after.finger@ == before.finger@
        &&& after.successor == before.successor
        &&& after.id == before.id
        &&& after.fix_finger_index == before.fix_finger_index
        &&& r matches Ok(Some(o)) && after.predecessor matches Some(p) && is_report_of(
            o,
            relay,
            prev,
            Message::NotifiedPredecessor(NotifiedPredecessor { predecessor: p }),
        )
    }
}

/// What handling `NotifiedPredecessor` yields, and does to the chord state.
pub open spec fn notified_predecessor_handled(
    before: Chord,
    after: Chord,
    relay: MessageRelay,
    msg: NotifiedPredecessor,
    r: Result<Option<Outgoing>, Error>,
) -> bool {
    if relay.method != MessageRelayMethod::REPORT {
        r == Err::<Option<Outgoing>, Error>(Error::BadEnvelope) && same_chord(before, after)
    } else {
        &&& r == Ok::<Option<Outgoing>, Error>(None)
        &&& after.successor == msg.predecessor
        &&& after.finger@ == before.finger@
        &&& after.predecessor == before.predecessor
        &&& after.id == before.id
        &&& after.fix_finger_index == before.fix_finger_index
    }
}

/// A `SEND` from `prev` announcing a possible predecessor: the chord state
/// takes note, and the predecessor it then has is reported back to `prev`.
pub fn handle_notify_predecessor(
    chord: &mut Chord,
    relay: MessageRelay,
    prev: Did,
    msg: NotifyPredecessor,
) -> (r: Result<Option<Outgoing>, Error>)
    ensures
        notify_predecessor_handled(*old(chord), *final(chord), relay, prev, msg, r),
{
    if relay.method != MessageRelayMethod::SEND {
        return Err(Error::BadEnvelope);
    }
    chord.notify(msg.predecessor);
    match chord.predecessor {
        Some(p) => {
            let data = Message::NotifiedPredecessor(NotifiedPredecessor { predecessor: p });
            Ok(Some(Outgoing { target: prev, relay: relay.into_report(data) }))
        },
        None => Err(Error::InvariantViolation),
    }
}

/// A `REPORT` carrying the successor's predecessor, which becomes this node's successor.
pub fn handle_notified_predecessor(chord: &mut Chord, relay: &MessageRelay, msg: NotifiedPredecessor) -> (r:
    Result<Option<Outgoing>, Error>)
    ensures
        notified_predecessor_handled(*old(chord), *final(chord), *relay, msg, r),
{
    if relay.method != MessageRelayMethod::REPORT {
        return Err(Error::BadEnvelope);
    }
    chord.successor = msg.predecessor;
    Ok(None)
}

/// Handles one accepted relay that arrived from `prev`, by its payload. Link
/// establishment payloads are acknowledged without a change.
pub fn handle_message_relay(chord: &mut Chord, relay: MessageRelay, prev: Did) -> (r: Result<
    Option<Outgoing>,
    Error,
>)
    requires
        old(chord).wf(),
    ensures
        final(chord).wf(),
        match relay.data {
            Message::FindSuccessor(m) => find_successor_handled(*old(chord), relay, prev, m, r)
                && same_chord(*old(chord), *final(chord)),
            Message::FoundSuccessor(m) => found_successor_handled(
                *old(chord),
                *final(chord),
                relay,
                m,
                r,
            ),
            Message::NotifyPredecessor(m) => notify_predecessor_handled(
                *old(chord),
                *final(chord),
                relay,
                prev,
                m,
                r,
            ),
            Message::NotifiedPredecessor(m) => notified_predecessor_handled(
                *old(chord),
                *final(chord),
                relay,
                m,
                r,
            ),
            Message::Empty => r == Err::<Option<Outgoing>, Error>(Error::InvariantViolation)
                && same_chord(*old(chord), *final(chord)),
            _ => r == Ok::<Option<Outgoing>, Error>(None) && same_chord(*old(chord), *final(chord)),
        },
{
    match relay.data {
        Message::FindSuccessor(m) => handle_find_successor(chord, relay, prev, m),
        Message::FoundSuccessor(m) => handle_found_successor(chord, relay, m),
        Message::NotifyPredecessor(m) => handle_notify_predecessor(chord, relay, prev, m),
        Message::NotifiedPredecessor(m) => handle_notified_predecessor(chord, &relay, m),
        Message::Empty => Err(Error::InvariantViolation),
        Message::ConnectNode(_) => Ok(None),
        Message::AlreadyConnected(_) => Ok(None),
        Message::ConnectedNode(_) => Ok(None),
    }
}

/// The request that goes out for a `fix_fingers` outcome `fr` of a node at `self_id`.
pub open spec fn fix_request(fr: Result<ChordAction, Error>, self_id: Did, o: Result<
    Option<Outgoing>,
    Error,
>) -> bool {
    match fr {
        Ok(ChordAction::Nothing) => o == Ok::<Option<Outgoing>, Error>(None),
        Ok(ChordAction::RemoteAction(RemoteAction::FindSuccessorAndAddToFinger((k, next, q)))) => o
            matches Ok(Some(out)) && {
            &&& out.target == next
            &&& out.relay.method == MessageRelayMethod::SEND
            &&& out.relay.to_path@ == seq![next]
            &&& out.relay.from_path@ == seq![self_id]
            &&& out.relay.data == Message::FindSuccessor(FindSuccessor { id: q, for_fix: true })
        },
        Ok(_) => o == Err::<Option<Outgoing>, Error>(Error::InvariantViolation),
        Err(e) => o == Err::<Option<Outgoing>, Error>(e),
    }
}

/// One tick of the periodic task: tell the successor about this node, and
/// refresh the next finger slot, asking another node where that is needed.
/// Both relays expire at `ttl_deadline`.
pub fn stabilize_step(chord: &mut Chord, ttl_deadline: u64) -> (r: (Outgoing, Result<
    Option<Outgoing>,
    Error,
>))
    requires
        old(chord).wf(),
    ensures
        final(chord).wf(),
        r.0.target == old(chord).successor,
        r.0.relay.method == MessageRelayMethod::SEND,
        r.0.relay.to_path@ == seq![old(chord).successor],
        r.0.relay.from_path@ == seq![old(chord).id],
        r.0.relay.ttl_deadline == ttl_deadline,
        r.0.relay.data == Message::NotifyPredecessor(NotifyPredecessor { predecessor: old(chord).id }),
        final(chord).id == old(chord).id,
        final(chord).successor == old(chord).successor,
        final(chord).predecessor == old(chord).predecessor,
        final(chord).fix_finger_index == (old(chord).fix_finger_index + 1) % 160,
        exists|fr: Result<ChordAction, Error>|
            #[trigger] fingers_fixed(*old(chord), *final(chord), fr) && fix_request(
                fr,
                old(chord).id,
                r.1,
            ),
{
    let current = chord.id;
    let successor = chord.successor;
    let notify = Outgoing {
        target: successor,
        relay: MessageRelay::new_with_node(
            String::new(),
            String::new(),
            successor,
            current,
            MessageRelayMethod::SEND,
            ttl_deadline,
            Message::NotifyPredecessor(NotifyPredecessor { predecessor: current }),
        ),
    };
    let fr = chord.fix_fingers();
    let fix = match fr {
        Ok(ChordAction::Nothing) => Ok(None),
        Ok(ChordAction::RemoteAction(RemoteAction::FindSuccessorAndAddToFinger((_k, next, q)))) => {
            let relay = MessageRelay::new_with_node(
                String::new(),
                String::new(),
                next,
                current,
                MessageRelayMethod::SEND,
                ttl_deadline,
                Message::FindSuccessor(FindSuccessor { id: q, for_fix: true }),
            );
            Ok(Some(Outgoing { target: next, relay }))
        },
        Ok(_) => Err(Error::InvariantViolation),
        Err(e) => Err(e),
    };
    assert(fingers_fixed(*old(chord), *chord, fr) && fix_request(fr, current, fix));
    (notify, fix)
}

/// A successor query forwarded by node `path[i]` toward `path[i + 1]` arrives
/// there with the paths of a `SEND` along `path`.
pub proof fn lemma_forward_hop(
    path: Seq<Did>,
    i: int,
    chord: Chord,
    relay: MessageRelay,
    prev: Did,
    msg: FindSuccessor,
    r: Result<Option<Outgoing>, Error>,
    q: Did,
)
    requires
        1 <= i < path.len() - 1,
        chord.id == path[i],
        relay.method == MessageRelayMethod::SEND,
        relay.to_path@ == sent_along(path, i).0,
        relay.from_path@ == sent_along(path, i).1,
        chord.successor_answer(msg.id) == Ok::<ChordAction, Error>(
            ChordAction::RemoteAction(RemoteAction::FindSuccessor((path[i + 1], q))),
        ),
        find_successor_handled(chord, relay, prev, msg, r),
    ensures
        r matches Ok(Some(o)) && o.target == path[i + 1] && o.relay.method
            == MessageRelayMethod::SEND && o.relay.to_path@ == sent_along(path, i + 1).0
            && o.relay.from_path@ == sent_along(path, i + 1).1,
{
}

/// The node at the end of `path` that knows the answer sends it back with
/// the paths that the way back starts from.
pub proof fn lemma_answer_hop(
    path: Seq<Did>,
    chord: Chord,
    relay: MessageRelay,
    prev: Did,
    msg: FindSuccessor,
    r: Result<Option<Outgoing>, Error>,
    found: Did,
)
    requires
        path.len() >= 2,
        relay.method == MessageRelayMethod::SEND,
        relay.to_path@ == sent_along(path, path.len() - 1).0,
        relay.from_path@ == sent_along(path, path.len() - 1).1,
        chord.successor_answer(msg.id) == Ok::<ChordAction, Error>(ChordAction::Resolved(found)),
        find_successor_handled(chord, relay, prev, msg, r),
    ensures
        r matches Ok(Some(o)) && o.target == prev && o.relay.method == MessageRelayMethod::REPORT
            && o.relay.to_path@ == reported_back(path, 0).0 && o.relay.from_path@ == reported_back(
            path,
            0,
        ).1,
{
}

/// On the way back, node `path[n - 2 - j]` takes one tail off both paths and
/// passes the answer to `path[n - 3 - j]`; the originator `path[0]` keeps it.
pub proof fn lemma_report_hop(
    path: Seq<Did>,
    j: int,
    before: Chord,
    after: Chord,
    relay: MessageRelay,
    msg: FoundSuccessor,
    r: Result<Option<Outgoing>, Error>,
)
    requires
        path.len() >= 2,
        0 <= j < path.len() - 1,
        before.id == path[path.len() - 2 - j],
        relay.method == MessageRelayMethod::REPORT,
        relay.to_path@ == reported_back(path, j).0,
        relay.from_path@ == reported_back(path, j).1,
        found_successor_handled(before, after, relay, msg, r),
    ensures
        j < path.len() - 2 ==> (r matches Ok(Some(o)) && o.target == path[path.len() - 3 - j]
            && o.relay.method == MessageRelayMethod::REPORT && o.relay.to_path@ == reported_back(
            path,
            j + 1,
        ).0 && o.relay.from_path@ == reported_back(path, j + 1).1),
        j == path.len() - 2 ==> r == Ok::<Option<Outgoing>, Error>(None),
{
    let n = path.len() as int;
    lemma_reported_back(path, j);
    lemma_reported_back(path, j + 1);
    assert(relay.to_path@.last() == path[n - 2 - j]);
    if j < n - 2 {
        assert(relay.to_path@.drop_last().last() == path[n - 3 - j]);
    }
}

} // verus!
