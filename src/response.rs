//! Values that the JSON-RPC surface returns.
use vstd::prelude::*;

verus! {

/// The standard base64 encoding (with padding) of a byte sequence.
pub uninterp spec fn base64_of(b: Seq<u8>) -> Seq<char>;

/// Relies on base64's `encode`: the standard alphabet with `=` padding, four
/// characters for every started group of three bytes. It panics when that
/// length overflows `usize`.
#[verifier::external_body]
fn encode_base64(bytes: &[u8]) -> (r: String)
    requires
        4 * ((bytes@.len() + 2) / 3) <= usize::MAX,
    ensures
        r@ == base64_of(bytes@),
        r@.len() == 4 * ((bytes@.len() + 2) / 3),
{
    base64::encode(bytes)
}

/// The base64 text of an encoded value, as the RPC surface returns it.
pub fn base64_encode_json(json: &[u8]) -> (r: String)
    requires
        4 * ((json@.len() + 2) / 3) <= usize::MAX,
    ensures
        r@ == base64_of(json@),
        r@.len() == 4 * ((json@.len() + 2) / 3),
{
    encode_base64(json)
}

/// A connected peer: its address and the id of the transport that reaches it.
#[derive(Clone, Debug)]
pub struct Peer {
    pub address: String,
    pub transport_id: String,
}

/// A transport and the handshake information that goes with it.
#[derive(Clone, Debug)]
pub struct TransportAndIce {
    pub transport_id: String,
    pub ice: String,
}

impl TransportAndIce {
    pub fn new(transport_id: &str, ice: &str) -> (r: TransportAndIce)
        ensures
            r.transport_id@ == transport_id@,
            r.ice@ == ice@,
    {
        TransportAndIce { transport_id: transport_id.to_owned(), ice: ice.to_owned() }
    }
}

} // verus!
