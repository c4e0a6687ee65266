//! The tracker: its wire types, its table of peers and how it answers.
pub mod server;
pub mod table;
pub mod types;
