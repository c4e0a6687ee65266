//! BitTurbulence: peer-to-peer file transfer building blocks.
//!
//! The crate holds the verified core of the protocol: metainfo arithmetic,
//! Merkle verification, rarest-first piece and block scheduling, peer
//! availability tracking, the DHT identifier space and value store, the
//! tracker's peer table and the client's bookkeeping.
pub mod client;
pub mod clock;
pub mod crypto;
pub mod dht;
pub mod hexstr;
pub mod math;
pub mod peer;
pub mod pieces;
pub mod protocol;
pub mod tracker;
