//! The 32-byte SHA-256 info hash that names a flow.
use vstd::prelude::*;

use crate::crypto::{sha256, sha256_digest};
use crate::hexstr::{hex_encode, hex_encode_spec};
use super::bytes::copy_array32;
use super::error::ProtocolError;

verus! {

/// A SHA-256 info hash.
#[derive(Clone, Copy, PartialEq, Eq, Hash, Debug)]
pub struct InfoHash(pub [u8; 32]);

impl InfoHash {
    /// An info hash from exactly 32 bytes; any other length is an error.
    pub fn from_bytes(bytes: &[u8]) -> (res: Result<InfoHash, ProtocolError>)
        ensures
            bytes@.len() == 32 ==> (res matches Ok(h) && h.0@ == bytes@),
            bytes@.len() != 32 ==> res == Err::<InfoHash, ProtocolError>(
                ProtocolError::InvalidInfoHashLength(bytes@.len() as usize),
            ),
    {
        if bytes.len() != 32 {
            return Err(ProtocolError::InvalidInfoHashLength(bytes.len()));
        }
        let arr = copy_array32(bytes, 0);
        assert(bytes@.subrange(0, 32) =~= bytes@);
        Ok(InfoHash(arr))
    }

    /// The info hash of serialized metadata: its SHA-256.
    pub fn from_info_bytes(info_bytes: &[u8]) -> (res: InfoHash)
        ensures
            res.0@ == sha256_digest(info_bytes@),
    {
        InfoHash(sha256(info_bytes))
    }

    /// The hash's bytes.
    pub fn as_bytes(&self) -> (res: &[u8; 32])
        ensures
            *res == self.0,
    {
        &self.0
    }

    /// An info hash holding `arr`.
    pub fn from_array(arr: [u8; 32]) -> (res: InfoHash)
        ensures
            res.0 == arr,
    {
        InfoHash(arr)
    }

    /// The hash as 64 lowercase hex digits.
    pub fn to_string(&self) -> (res: String)
        ensures
            res@ == hex_encode_spec(self.0@),
            res@.len() == 64,
    {
        hex_encode(&self.0)
    }
}

} // verus!
