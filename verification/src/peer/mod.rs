//! Per-peer session bookkeeping and the hello exchange.
pub mod handshake;
pub mod state;
pub mod step;
