use vstd::prelude::*;

verus! {

/// Errors of piece storage.
#[derive(Debug, Clone, Copy, PartialEq, Eq, Structural)]
pub enum PiecesError {
    /// The piece's hash does not match.
    HashMismatch(u32),
    /// A piece index past the last piece.
    OutOfRange { index: u32, total: u32 },
    /// A block reaching past the end of its piece.
    BlockOutOfBounds { piece: u32, begin: u32, length: u32, piece_len: u64 },
}

} // verus!
