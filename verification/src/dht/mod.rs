//! The DHT's identifier space, its token bookkeeping and its value store.
pub mod error;
pub mod message;
pub mod node;
pub mod node_id;
pub mod store;
pub mod table;
