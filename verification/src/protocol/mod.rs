pub mod auth;
pub mod bitmap;
pub mod bytes;
pub mod codec;
pub mod error;
pub mod info_hash;
pub mod priority;
pub mod metainfo;
