//! Messages between clients and the tracker, and the tracker's peer records.
use vstd::prelude::*;

use crate::hexstr::{hex_encode, hex_encode_spec};

verus! {

/// A client's message to the tracker.
#[derive(Debug, Clone)]
pub enum TrackerMessage {
    Announce { auth_token: Option<String>, req: AnnounceRequest },
    Scrape { auth_token: Option<String>, info_hash: String },
}

/// The tracker's answer.
#[derive(Debug, Clone)]
pub enum TrackerResponse {
    Announce(AnnounceResponse),
    Scrape(ScrapeResponse),
    Error { message: String },
}

/// Announce event.
#[derive(Debug, Clone, Copy, PartialEq, Eq, Structural)]
pub enum AnnounceEvent {
    Started,
    Stopped,
    Completed,
    Update,
}

impl Default for AnnounceEvent {
    fn default() -> (res: Self)
        ensures
            res == AnnounceEvent::Update,
    {
        AnnounceEvent::Update
    }
}

/// A client's announce.
#[derive(Debug, Clone)]
pub struct AnnounceRequest {
    /// SHA-256 info hash, 64 hex digits.
    pub info_hash: String,
    /// Peer id, 64 hex digits.
    pub peer_id: String,
    /// Public address, `ip:port`.
    pub addr: String,
    /// Lifecycle event.
    pub event: AnnounceEvent,
    /// Bytes uploaded since the last announce.
    pub uploaded: u64,
    /// Bytes downloaded since the last announce.
    pub downloaded: u64,
    /// Bytes left to complete.
    pub left: u64,
    /// Most peers wanted in the answer.
    pub num_want: u32,
}

/// Peers asked for by default: 50.
pub fn default_num_want() -> (res: u32)
    ensures
        res == 50,
{
    50
}

impl AnnounceRequest {
    /// An announce for binary hashes, written as hex, asking for 50 peers.
    pub fn new(
        info_hash: &[u8; 32],
        peer_id: &[u8; 32],
        addr: String,
        event: AnnounceEvent,
        uploaded: u64,
        downloaded: u64,
        left: u64,
    ) -> (res: Self)
        ensures
            res.info_hash@ == hex_encode_spec(info_hash@),
            res.peer_id@ == hex_encode_spec(peer_id@),
            res.addr == addr,
            res.event == event,
            res.uploaded == uploaded,
            res.downloaded == downloaded,
            res.left == left,
            res.num_want == 50,
    {
        AnnounceRequest {
            info_hash: hex_encode(info_hash),
            peer_id: hex_encode(peer_id),
            addr,
            event,
            uploaded,
            downloaded,
            left,
            num_want: default_num_want(),
        }
    }

    /// The same announce asking for `num_want` peers.
    pub fn with_num_want(self, num_want: u32) -> (res: Self)
        ensures
            res.info_hash == self.info_hash,
            res.peer_id == self.peer_id,
            res.addr == self.addr,
            res.event == self.event,
            res.uploaded == self.uploaded,
            res.downloaded == self.downloaded,
            res.left == self.left,
            res.num_want == num_want,
    {
        let mut s = self;
        s.num_want = num_want;
        s
    }
}

/// A peer as the tracker returns it.
#[derive(Debug, Clone, PartialEq, Eq)]
pub struct PeerInfo {
    pub peer_id: String,
    pub addr: String,
}

/// The answer to an announce.
#[derive(Debug, Clone)]
pub struct AnnounceResponse {
    /// Seconds until the next announce is due.
    pub interval: u32,
    /// Least seconds between announces.
    pub min_interval: Option<u32>,
    /// Peers of the flow.
    pub peers: Vec<PeerInfo>,
    /// Fillers: peers with the whole flow.
    pub complete: u32,
    /// Drainers: peers still downloading.
    pub incomplete: u32,
}

/// The answer to a scrape.
#[derive(Debug, Clone)]
pub struct ScrapeResponse {
    pub complete: u32,
    pub incomplete: u32,
    pub downloaded: u32,
}

/// A peer as the tracker records it.
#[derive(Debug, Clone)]
pub struct PeerRecord {
    pub info_hash: [u8; 32],
    pub peer_id: [u8; 32],
    pub addr: String,
    pub uploaded: u64,
    pub downloaded: u64,
    pub left: u64,
    /// Unix time of the last announce, in seconds.
    pub last_seen: i64,
    pub completed: bool,
}

impl PeerRecord {
    /// The peer has the whole flow: nothing left, or it completed.
    pub open spec fn filler(&self) -> bool {
        self.left == 0 || self.completed
    }

    /// The peer has the whole flow.
    pub fn is_filler(&self) -> (res: bool)
        ensures
            res == self.filler(),
    {
        self.left == 0 || self.completed
    }

    /// A copy of the record.
    pub fn duplicate(&self) -> (res: PeerRecord)
        ensures
            res == *self,
    {
        PeerRecord {
            info_hash: self.info_hash,
            peer_id: self.peer_id,
            addr: self.addr.clone(),
            uploaded: self.uploaded,
            downloaded: self.downloaded,
            left: self.left,
            last_seen: self.last_seen,
            completed: self.completed,
        }
    }
}

} // verus!
