//! The hello exchange that opens a peer connection: who is accepted, and
//! what an answer means to the side that asked.
use vstd::prelude::*;

use crate::pieces::verify::hashes_equal;

verus! {

broadcast use vstd::string::group_string_axioms;

/// The answer to a hello.
#[derive(Debug, Clone)]
pub struct HelloAck {
    /// The answering peer.
    pub peer_id: [u8; 32],
    pub accepted: bool,
    /// Why the hello was refused.
    pub reason: Option<String>,
}

/// Why a session could not be set up.
#[derive(Debug, Clone, PartialEq, Eq)]
pub enum PeerError {
    /// The other side refused our hello, for this reason.
    HelloRejected(String),
    /// The other side asked for another flow.
    InfoHashMismatch,
    /// A message other than the one the exchange expects.
    UnexpectedMessage,
    /// The connection closed.
    Disconnected,
    /// The other side did not answer in time.
    Timeout,
}

/// The answer of a session for flow `our_info_hash` to a hello for flow
/// `their_info_hash`: accepted when the flows match, else refused with
/// "info hash mismatch", which also ends the session with an error.
pub fn answer_hello(our_peer_id: [u8; 32], our_info_hash: &[u8; 32], their_info_hash: &[u8; 32]) -> (res: (
    HelloAck,
    Result<(), PeerError>,
))
    ensures
        res.0.peer_id == our_peer_id,
        res.0.accepted == (our_info_hash@ == their_info_hash@),
        res.0.accepted ==> res.0.reason is None && res.1 is Ok,
        !res.0.accepted ==> (res.0.reason matches Some(r) && r@ == "info hash mismatch"@) && res.1 == Err::<(), PeerError>(
            PeerError::InfoHashMismatch,
        ),
{
    if hashes_equal(our_info_hash, their_info_hash) {
        (HelloAck { peer_id: our_peer_id, accepted: true, reason: None }, Ok(()))
    } else {
        (
            HelloAck { peer_id: our_peer_id, accepted: false, reason: Some("info hash mismatch".to_string()) },
            Err(PeerError::InfoHashMismatch),
        )
    }
}

/// What an answer to our hello means: the answering peer when accepted,
/// else the refusal with its reason ("no reason" when none is given).
pub fn check_hello_ack(ack: HelloAck) -> (res: Result<[u8; 32], PeerError>)
    ensures
        ack.accepted ==> res == Ok::<[u8; 32], PeerError>(ack.peer_id),
        !ack.accepted ==> (res matches Err(PeerError::HelloRejected(r)) && r@ == match ack.reason {
            Some(t) => t@,
            None => "no reason"@,
        }),
{
    if ack.accepted {
        Ok(ack.peer_id)
    } else {
        match ack.reason {
            Some(t) => Err(PeerError::HelloRejected(t)),
            None => Err(PeerError::HelloRejected("no reason".to_string())),
        }
    }
}

/// The daemon's answer to an incoming hello for flow `info_hash`, among the
/// active flows `flows`: accepted for the first flow with that hash, whose
/// position comes back too; refused with "flow not found" when none has it.
pub fn answer_inbound(our_peer_id: [u8; 32], flows: &[[u8; 32]], info_hash: &[u8; 32]) -> (res: (HelloAck, Option<usize>))
    ensures
        res.0.peer_id == our_peer_id,
        match res.1 {
            Some(k) => {
                &&& k < flows@.len()
                &&& flows@[k as int]@ == info_hash@
                &&& forall|j: int| 0 <= j < k ==> (#[trigger] flows@[j])@ != info_hash@
                &&& res.0.accepted
                &&& res.0.reason is None
            },
            None => {
                &&& forall|j: int| 0 <= j < flows@.len() ==> (#[trigger] flows@[j])@ != info_hash@
                &&& !res.0.accepted
                &&& res.0.reason matches Some(r) && r@ == "flow not found"@
            },
        },
{
    let mut i: usize = 0;
    while i < flows.len()
        invariant
            i <= flows@.len(),
            forall|j: int| 0 <= j < i ==> (#[trigger] flows@[j])@ != info_hash@,
        decreases flows@.len() - i,
    {
        if hashes_equal(&flows[i], info_hash) {
            return (HelloAck { peer_id: our_peer_id, accepted: true, reason: None }, Some(i));
        }
        i = i + 1;
    }
    (HelloAck { peer_id: our_peer_id, accepted: false, reason: Some("flow not found".to_string()) }, None)
}

} // verus!
