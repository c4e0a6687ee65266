//! The client's verified core: what a peer has, the MSB-first bitmap
//! encoding, block selection across the files of a flow, the download
//! link's mode decisions, the flow table and the IPC request handling.
pub mod avail;
pub mod sched;
pub mod state;
pub mod cli;
pub mod ipc;
pub mod flow;
pub mod create;
pub mod link;
pub mod announce;
pub mod worker;
pub mod serve;
