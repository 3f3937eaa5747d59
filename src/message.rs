//! Payloads that relays carry between nodes.
use vstd::prelude::*;

use crate::did::Did;

verus! {

/// Asks a node to open a link with `id`.
#[derive(Debug, Clone)]
pub struct ConnectNode {
    pub id: Did,
    pub handshake_info: String,
}

/// The link already exists.
#[derive(Debug, Clone, Copy, PartialEq, Eq, Structural)]
pub struct AlreadyConnected;

/// Answer to `ConnectNode`.
#[derive(Debug, Clone)]
pub struct ConnectedNode {
    pub already_connected: bool,
    pub handshake_info: Option<String>,
}

/// Asks for the successor of `id`; `for_fix` marks a finger refresh.
#[derive(Debug, Clone, Copy, PartialEq, Eq, Structural)]
pub struct FindSuccessor {
    pub id: Did,
    pub for_fix: bool,
}

/// Answer to `FindSuccessor`.
#[derive(Debug, Clone, Copy, PartialEq, Eq, Structural)]
pub struct FoundSuccessor {
    pub successor: Did,
    pub for_fix: bool,
}

/// Tells a node that `predecessor` may be its predecessor.
#[derive(Debug, Clone, Copy, PartialEq, Eq, Structural)]
pub struct NotifyPredecessor {
    pub predecessor: Did,
}

/// Answer to `NotifyPredecessor`: the predecessor that the node now has.
#[derive(Debug, Clone, Copy, PartialEq, Eq, Structural)]
pub struct NotifiedPredecessor {
    pub predecessor: Did,
}

/// Every payload a relay can carry.
#[derive(Debug, Clone)]
pub enum Message {
    Empty,
    ConnectNode(ConnectNode),
    AlreadyConnected(AlreadyConnected),
    ConnectedNode(ConnectedNode),
    FindSuccessor(FindSuccessor),
    FoundSuccessor(FoundSuccessor),
    NotifyPredecessor(NotifyPredecessor),
    NotifiedPredecessor(NotifiedPredecessor),
}

} // verus!
