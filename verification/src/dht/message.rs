//! The messages DHT nodes exchange.
use vstd::prelude::*;

use super::node_id::NodeId;
use super::table::NodeInfo;

verus! {

/// A DHT message; each names the node that sent it.
#[derive(Debug, Clone)]
pub enum DhtMessage {
    /// Liveness check.
    Ping { sender: NodeId },
    /// Answer to `Ping`.
    Pong { sender: NodeId },
    /// Asks for the nodes closest to `target`.
    FindNode { sender: NodeId, target: NodeId },
    /// Nodes, as an answer to `FindNode` or to pass on.
    Nodes { sender: NodeId, nodes: Vec<NodeInfo> },
    /// Asks for the peers of a flow, and for a write token.
    GetPeers { sender: NodeId, info_hash: [u8; 32] },
    /// Answer to `GetPeers`: a token, the peers known, or else the closest
    /// nodes.
    GotPeers { sender: NodeId, token: [u8; 8], peers: Vec<String>, nodes: Vec<NodeInfo> },
    /// Announces the sender as a peer of a flow, with the token it was given.
    AnnouncePeer { sender: NodeId, info_hash: [u8; 32], token: [u8; 8], addr: String },
    /// Answer to an accepted `AnnouncePeer`.
    AnnounceAck { sender: NodeId },
    /// Stores a value under a key, with the token the sender was given.
    Store { sender: NodeId, key: [u8; 32], value: Vec<u8>, token: [u8; 8] },
    /// Answer to an accepted `Store`.
    StoreAck { sender: NodeId },
}

impl DhtMessage {
    /// The node that sent the message.
    pub open spec fn sender_spec(&self) -> NodeId {
        match self {
            DhtMessage::Ping { sender } => *sender,
            DhtMessage::Pong { sender } => *sender,
            DhtMessage::FindNode { sender, .. } => *sender,
            DhtMessage::Nodes { sender, .. } => *sender,
            DhtMessage::GetPeers { sender, .. } => *sender,
            DhtMessage::GotPeers { sender, .. } => *sender,
            DhtMessage::AnnouncePeer { sender, .. } => *sender,
            DhtMessage::AnnounceAck { sender } => *sender,
            DhtMessage::Store { sender, .. } => *sender,
            DhtMessage::StoreAck { sender } => *sender,
        }
    }

    /// The node that sent the message.
    pub fn sender(&self) -> (res: &NodeId)
        ensures
            *res == self.sender_spec(),
    {
        match self {
            DhtMessage::Ping { sender } => sender,
            DhtMessage::Pong { sender } => sender,
            DhtMessage::FindNode { sender, .. } => sender,
            DhtMessage::Nodes { sender, .. } => sender,
            DhtMessage::GetPeers { sender, .. } => sender,
            DhtMessage::GotPeers { sender, .. } => sender,
            DhtMessage::AnnouncePeer { sender, .. } => sender,
            DhtMessage::AnnounceAck { sender } => sender,
            DhtMessage::Store { sender, .. } => sender,
            DhtMessage::StoreAck { sender } => sender,
        }
    }
}

} // verus!
