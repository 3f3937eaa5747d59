//! Errors of the overlay core.
use vstd::prelude::*;

verus! {

/// What can go wrong in the overlay core. None of these travels over the wire.
#[derive(Clone, Copy, Debug, PartialEq, Eq, Structural)]
pub enum Error {
    /// A string is not a hexadecimal 20-byte identifier.
    BadHex,
    /// An envelope that is expired, or whose active path does not end at this node.
    BadEnvelope,
    /// The finger table holds no entry that precedes the target.
    RoutingExhausted,
    /// A decision came back in a shape that its caller does not handle.
    InvariantViolation,
    /// A routing table is used before its owner is known.
    NoCandidate,
}

impl Error {
    /// A short description of the error.
    pub fn message(&self) -> (r: &'static str) {
        match self {
            Error::BadHex => "not a hexadecimal 20-byte identifier",
            Error::BadEnvelope => "envelope expired or not addressed to this node",
            Error::RoutingExhausted => "cannot find closest preceding node",
            Error::InvariantViolation => "invalid chord action",
            Error::NoCandidate => "None Candidate",
        }
    }
}

} // verus!
