//! Block states, block tasks and the length arithmetic of pieces and blocks.
use vstd::prelude::*;

use crate::protocol::metainfo::BLOCK_SIZE;

verus! {

/// Usual number of streams per block under normal load.
pub const TYPICAL_STREAMS_PER_BLOCK: u8 = 2;

/// Largest number of streams that may fetch one block at once.
pub const MAX_STREAMS_PER_BLOCK: u8 = 4;

/// State of one 16 KiB block.
#[derive(Clone, Copy, PartialEq, Eq, Debug, Structural)]
pub enum BlockState {
    /// Not requested yet.
    Pending,
    /// Being fetched by `n` streams at once.
    InFlight(u8),
    /// Received and written.
    Done,
}

/// A block to download.
#[derive(Debug, Clone, Copy, PartialEq, Eq, Structural)]
pub struct BlockTask {
    /// File index in the flow.
    pub fi: usize,
    /// Piece index.
    pub pi: u32,
    /// Block index within the piece (`bi * BLOCK_SIZE == begin`).
    pub bi: u32,
    /// Byte offset within the piece.
    pub begin: u32,
    /// Block length (`BLOCK_SIZE`, except possibly the last block).
    pub length: u32,
}

/// Which blocks a scheduling pass accepts.
#[derive(Clone, Copy, PartialEq, Eq, Debug, Structural)]
pub enum BlockFilter {
    /// Blocks not requested yet.
    Pending,
    /// Blocks in flight on fewer than the given number of streams.
    InFlightBelow(u8),
}

/// A block state passes a filter.
pub open spec fn filter_accepts(f: BlockFilter, s: BlockState) -> bool {
    match f {
        BlockFilter::Pending => s == BlockState::Pending,
        BlockFilter::InFlightBelow(k) => match s {
            BlockState::InFlight(n) => n < k,
            _ => false,
        },
    }
}

/// Exec form of [`filter_accepts`].
pub fn accepts(f: BlockFilter, s: BlockState) -> (res: bool)
    ensures
        res == filter_accepts(f, s),
{
    match f {
        BlockFilter::Pending => match s {
            BlockState::Pending => true,
            _ => false,
        },
        BlockFilter::InFlightBelow(k) => match s {
            BlockState::InFlight(n) => n < k,
            _ => false,
        },
    }
}

/// Length of piece `pi`: the last piece may be shorter.
pub open spec fn piece_len_spec(pi: int, num_pieces: int, piece_length: u32, last_piece_len: u32) -> u32 {
    if pi + 1 == num_pieces {
        last_piece_len
    } else {
        piece_length
    }
}

/// Number of blocks of a piece of `len` bytes.
pub open spec fn blocks_for(len: u32) -> nat {
    if len % BLOCK_SIZE == 0 {
        (len / BLOCK_SIZE) as nat
    } else {
        (len / BLOCK_SIZE + 1) as nat
    }
}

/// Length of block `bi` of piece `pi`.
pub open spec fn block_length_spec(
    pi: int,
    bi: int,
    num_pieces: int,
    piece_length: u32,
    last_piece_len: u32,
) -> int {
    let pl = piece_len_spec(pi, num_pieces, piece_length, last_piece_len);
    let rest = pl - bi * BLOCK_SIZE;
    if rest < BLOCK_SIZE { rest } else { BLOCK_SIZE as int }
}

/// Length of piece `pi`: the last piece may be shorter.
pub fn piece_len(pi: usize, num_pieces: usize, piece_length: u32, last_piece_len: u32) -> (res: u32)
    requires
        pi < num_pieces,
    ensures
        res == piece_len_spec(pi as int, num_pieces as int, piece_length, last_piece_len),
{
    if pi + 1 == num_pieces {
        last_piece_len
    } else {
        piece_length
    }
}

/// Length of block `bi` of piece `pi`.
pub fn block_length(pi: usize, bi: usize, num_pieces: usize, piece_length: u32, last_piece_len: u32) -> (res: u32)
    requires
        pi < num_pieces,
        bi * BLOCK_SIZE <= piece_len_spec(pi as int, num_pieces as int, piece_length, last_piece_len),
    ensures
        res == block_length_spec(pi as int, bi as int, num_pieces as int, piece_length, last_piece_len),
{
    let pl = piece_len(pi, num_pieces, piece_length, last_piece_len);
    let begin = bi as u32 * BLOCK_SIZE;
    let rest = pl - begin;
    if rest < BLOCK_SIZE {
        rest
    } else {
        BLOCK_SIZE
    }
}

} // verus!
