//! Decisions of the data streams: checking a filler's block hashes against
//! the piece's Merkle root, checking each block against them, and how a
//! filler answers requests.
use vstd::prelude::*;

use crate::pieces::verify::{hash_views, hashes_equal, merkle_root_spec, piece_root_from_block_hashes};
use crate::protocol::metainfo::BLOCK_SIZE;

verus! {

/// Seconds a stream waits for a block before the filler counts as snubbing.
pub const SNUB_TIMEOUT_SECS: u64 = 30;

/// What a data stream reports to its link.
#[derive(Debug, Clone, Copy, PartialEq, Eq)]
pub enum StreamResult {
    /// Block fetched and written; `hash` is its SHA-256.
    BlockOk { stream_id: usize, fi: usize, pi: u32, bi: u32, hash: [u8; 32] },
    /// The filler rejected the block, or it could not be used.
    BlockFail { stream_id: usize, fi: usize, pi: u32, bi: u32 },
    /// The filler did not answer in time.
    BlockTimeout { stream_id: usize, fi: usize, pi: u32, bi: u32 },
    /// The stream is gone.
    StreamDead { stream_id: usize },
}

/// The block hashes a downloader keeps from a filler's answer: an empty
/// answer (the filler lacks the piece) is kept as it is; a non-empty one is
/// kept only when the piece exists and the Merkle root of the hashes is its
/// hash, else nothing is kept.
pub open spec fn kept_hashes(answer: Seq<[u8; 32]>, expected: Option<Seq<u8>>) -> Seq<[u8; 32]> {
    if answer.len() == 0 {
        answer
    } else {
        match expected {
            Some(e) => if merkle_root_spec(hash_views(answer)) == e {
                answer
            } else {
                Seq::empty()
            },
            None => Seq::empty(),
        }
    }
}

/// The hash of a piece, by value.
pub open spec fn hash_opt(e: Option<&[u8; 32]>) -> Option<Seq<u8>> {
    match e {
        Some(h) => Some(h@),
        None => None,
    }
}

/// The block hashes kept from a filler's answer; see [`kept_hashes`].
pub fn check_hash_response(block_hashes: Vec<[u8; 32]>, expected: Option<&[u8; 32]>) -> (res: Vec<[u8; 32]>)
    requires
        block_hashes@.len() <= usize::MAX / 2,
    ensures
        res@ == kept_hashes(block_hashes@, hash_opt(expected)),
{
    if block_hashes.len() == 0 {
        return block_hashes;
    }
    let computed = piece_root_from_block_hashes(block_hashes.as_slice());
    match expected {
        None => Vec::new(),
        Some(e) => {
            if hashes_equal(&computed, e) {
                block_hashes
            } else {
                Vec::new()
            }
        },
    }
}

/// The block hashes a data stream holds for the piece it is downloading.
pub struct HashCache {
    /// The piece `(fi, pi)` the hashes belong to; `None` before the first.
    pub piece: Option<(usize, u32)>,
    pub hashes: Vec<[u8; 32]>,
}

impl HashCache {
    /// No piece yet.
    pub fn new() -> (res: Self)
        ensures
            res.piece is None,
            res.hashes@.len() == 0,
    {
        HashCache { piece: None, hashes: Vec::new() }
    }

    /// The stream must ask for the hashes of piece `(fi, pi)`: it holds
    /// those of another piece, or none.
    pub fn needs_hashes(&self, fi: usize, pi: u32) -> (res: bool)
        ensures
            res == (self.piece != Some((fi, pi))),
    {
        match self.piece {
            Some((f, p)) => !(f == fi && p == pi),
            None => true,
        }
    }

    /// Keeps the filler's answer for piece `(fi, pi)`, checked against the
    /// piece's hash `expected`; see [`kept_hashes`].
    pub fn store(&mut self, fi: usize, pi: u32, answer: Vec<[u8; 32]>, expected: Option<&[u8; 32]>)
        requires
            answer@.len() <= usize::MAX / 2,
        ensures
            final(self).piece == Some((fi, pi)),
            final(self).hashes@ == kept_hashes(answer@, hash_opt(expected)),
    {
        self.hashes = check_hash_response(answer, expected);
        self.piece = Some((fi, pi));
    }

    /// Block `bi` with hash `block_hash` may be written; see
    /// [`block_acceptable`].
    pub fn accepts(&self, bi: u32, block_hash: &[u8; 32]) -> (res: bool)
        ensures
            res == ((bi as int) < self.hashes@.len() ==> block_hash@ == self.hashes@[bi as int]@),
    {
        block_acceptable(block_hash, &self.hashes, bi)
    }
}

/// What a stream reports for block `(pi, bi)` of file `fi` once its data
/// was checked: a block that could not be written failed; a written one is
/// done, with its hash.
pub fn written_result(stream_id: usize, fi: usize, pi: u32, bi: u32, block_hash: [u8; 32], written: bool) -> (res: StreamResult)
    ensures
        written ==> res == (StreamResult::BlockOk { stream_id, fi, pi, bi, hash: block_hash }),
        !written ==> res == (StreamResult::BlockFail { stream_id, fi, pi, bi }),
{
    if written {
        StreamResult::BlockOk { stream_id, fi, pi, bi, hash: block_hash }
    } else {
        StreamResult::BlockFail { stream_id, fi, pi, bi }
    }
}

/// A received block may be written: its hash is the one announced for it,
/// or no hash was announced for it.
pub fn block_acceptable(block_hash: &[u8; 32], announced: &Vec<[u8; 32]>, bi: u32) -> (res: bool)
    ensures
        res == ((bi as int) < announced@.len() ==> block_hash@ == announced@[bi as int]@),
{
    let i = bi as usize;
    if i < announced.len() {
        hashes_equal(block_hash, &announced[i])
    } else {
        true
    }
}

/// Entry `pi` of a bitfield, `false` past its end.
pub fn has_piece_bit(have: &[bool], pi: u32) -> (res: bool)
    ensures
        res == ((pi as int) < have@.len() && have@[pi as int]),
{
    let i = pi as usize;
    i < have.len() && have[i]
}

/// How a filler handles a block request.
#[derive(Debug, Clone, Copy, PartialEq, Eq, Structural)]
pub enum ServeAction {
    /// Answer with a rejection.
    Reject,
    /// Read the block and send it.
    ReadBlock,
}

/// A cancelled request, or one for a piece we lack, is rejected; otherwise
/// the block is read.
pub fn serve_decision(cancelled: bool, have: bool) -> (res: ServeAction)
    ensures
        res == if cancelled || !have { ServeAction::Reject } else { ServeAction::ReadBlock },
{
    if cancelled || !have {
        ServeAction::Reject
    } else {
        ServeAction::ReadBlock
    }
}

/// What a filler sends once it tried to read a requested block.
#[derive(Debug, Clone, Copy, PartialEq, Eq, Structural)]
pub enum ServeReply {
    /// The block's data.
    Piece,
    /// A rejection.
    Reject,
}

/// A block that could not be read, or whose request was cancelled while it
/// was read, is rejected; otherwise it is sent.
pub fn reply_after_read(read_ok: bool, cancelled_meanwhile: bool) -> (res: ServeReply)
    ensures
        res == if read_ok && !cancelled_meanwhile { ServeReply::Piece } else { ServeReply::Reject },
{
    if read_ok && !cancelled_meanwhile {
        ServeReply::Piece
    } else {
        ServeReply::Reject
    }
}

/// A filler's answer to a request for a piece's block hashes: the hashes of
/// every block when it has the piece and could read each block, else
/// nothing.
pub fn hash_answer(have: bool, read_hashes: Vec<[u8; 32]>, all_read: bool) -> (res: Vec<[u8; 32]>)
    ensures
        have && all_read ==> res@ == read_hashes@,
        !(have && all_read) ==> res@.len() == 0,
{
    if have && all_read {
        read_hashes
    } else {
        Vec::new()
    }
}

/// The `(begin, length)` of each block of a piece of `piece_len` bytes:
/// 16 KiB blocks, the last possibly shorter.
pub open spec fn block_range(piece_len: nat, bi: int) -> (nat, nat) {
    let begin = (bi * BLOCK_SIZE) as nat;
    let rest = (piece_len - begin) as nat;
    (begin, if rest < BLOCK_SIZE { rest } else { BLOCK_SIZE as nat })
}

/// Number of blocks of a piece of `len` bytes.
pub open spec fn block_count(len: nat) -> nat {
    if len % (BLOCK_SIZE as nat) == 0 {
        len / (BLOCK_SIZE as nat)
    } else {
        len / (BLOCK_SIZE as nat) + 1
    }
}

/// The blocks a filler reads to answer a request for a piece's hashes.
pub fn block_ranges(piece_len: u32) -> (res: Vec<(u32, u32)>)
    ensures
        res@.len() == block_count(piece_len as nat),
        forall|bi: int| 0 <= bi < res@.len() ==> ((#[trigger] res@[bi]).0 as nat, res@[bi].1 as nat) == block_range(piece_len as nat, bi),
{
    let n: u32 = piece_len / BLOCK_SIZE + if piece_len % BLOCK_SIZE != 0 { 1 } else { 0 };
    let mut out: Vec<(u32, u32)> = Vec::new();
    let mut bi: u32 = 0;
    while bi < n
        invariant
            n == block_count(piece_len as nat),
            n <= 262144,
            bi <= n,
            out@.len() == bi,
            forall|k: int| 0 <= k < bi ==> ((#[trigger] out@[k]).0 as nat, out@[k].1 as nat) == block_range(piece_len as nat, k),
        decreases n - bi,
    {
        proof {
            assert(bi * BLOCK_SIZE < piece_len) by (nonlinear_arith)
                requires
                    bi < n,
                    n == block_count(piece_len as nat),
            ;
        }
        let begin = bi * BLOCK_SIZE;
        let rest = piece_len - begin;
        let len = if rest < BLOCK_SIZE { rest } else { BLOCK_SIZE };
        out.push((begin, len));
        bi = bi + 1;
    }
    out
}

} // verus!
