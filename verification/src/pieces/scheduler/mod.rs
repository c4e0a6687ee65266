//! Block scheduling for one file: rarest-first selection of 16 KiB blocks,
//! with several streams allowed on one block near the end of a download.
use vstd::prelude::*;

use crate::protocol::metainfo::BLOCK_SIZE;
use crate::protocol::priority::Priority;

pub mod blocks;
pub mod pick;
pub mod types;

pub use types::{
    block_length, piece_len, BlockFilter, BlockState, BlockTask, MAX_STREAMS_PER_BLOCK,
    TYPICAL_STREAMS_PER_BLOCK,
};
use types::{blocks_for, piece_len_spec};

verus! {

/// Per-file block scheduler.
pub struct BlockScheduler {
    /// File index in the flow.
    pub fi: usize,
    pub num_pieces: usize,
    pub piece_length: u32,
    pub last_piece_len: u32,
    /// `block_state[pi][bi]`.
    pub block_state: Vec<Vec<BlockState>>,
    /// SHA-256 of each completed block, `block_hashes[pi][bi]`.
    pub block_hashes: Vec<Vec<Option<[u8; 32]>>>,
    /// Pieces verified and complete.
    pub piece_done: Vec<bool>,
    /// Pieces whose blocks are all done and whose Merkle check is pending.
    pub piece_verifying: Vec<bool>,
    /// How many peers have each piece.
    pub availability: Vec<u32>,
    /// Download priority of the file.
    pub priority: Priority,
}

/// A block state respects the stream limit.
pub open spec fn in_flight_bounded(s: BlockState) -> bool {
    match s {
        BlockState::InFlight(n) => 1 <= n <= MAX_STREAMS_PER_BLOCK,
        _ => true,
    }
}

/// Block `bi` of a piece of `len` bytes starts inside the piece.
pub proof fn lemma_block_in_piece(len: u32, bi: int)
    requires
        0 <= bi < blocks_for(len),
    ensures
        bi * BLOCK_SIZE < len,
        bi * BLOCK_SIZE <= u32::MAX,
{
    assert(len == BLOCK_SIZE * (len / BLOCK_SIZE) + len % BLOCK_SIZE);
}

impl BlockScheduler {
    /// The state of every block, piece by piece.
    pub open spec fn states(&self) -> Seq<Seq<BlockState>> {
        self.block_state@.map_values(|r: Vec<BlockState>| r@)
    }

    /// The stored hash of every block, piece by piece.
    pub open spec fn hashes(&self) -> Seq<Seq<Option<[u8; 32]>>> {
        self.block_hashes@.map_values(|r: Vec<Option<[u8; 32]>>| r@)
    }

    /// Length in bytes of piece `pi`.
    pub open spec fn piece_bytes(&self, pi: int) -> u32 {
        piece_len_spec(pi, self.num_pieces as int, self.piece_length, self.last_piece_len)
    }

    /// Number of blocks of piece `pi`.
    pub open spec fn blocks_in(&self, pi: int) -> nat {
        blocks_for(self.piece_bytes(pi))
    }

    /// Well-formedness: one entry per piece in every table, one state and one
    /// hash slot per block, and no block in flight on more than
    /// `MAX_STREAMS_PER_BLOCK` streams.
    pub open spec fn wf(&self) -> bool {
        &&& self.num_pieces <= 0x1_0000_0000
        &&& self.block_state@.len() == self.num_pieces
        &&& self.block_hashes@.len() == self.num_pieces
        &&& self.piece_done@.len() == self.num_pieces
        &&& self.piece_verifying@.len() == self.num_pieces
        &&& self.availability@.len() == self.num_pieces
        &&& forall|pi: int|
            0 <= pi < self.num_pieces ==> {
                &&& (#[trigger] self.states()[pi]).len() == self.blocks_in(pi)
                &&& self.hashes()[pi].len() == self.blocks_in(pi)
            }
        &&& forall|pi: int, bi: int|
            0 <= pi < self.num_pieces && 0 <= bi < self.states()[pi].len()
                ==> in_flight_bounded(#[trigger] self.states()[pi][bi])
    }

    /// Well-formedness depends only on the shape of the tables.
    pub proof fn lemma_wf_congruent(&self, other: &Self)
        requires
            self.wf(),
            other.same_shape(self),
            other.states() == self.states(),
            other.hashes() == self.hashes(),
            other.block_state@.len() == self.block_state@.len(),
            other.block_hashes@.len() == self.block_hashes@.len(),
            other.piece_done@.len() == self.piece_done@.len(),
            other.piece_verifying@.len() == self.piece_verifying@.len(),
            other.availability@.len() == self.availability@.len(),
        ensures
            other.wf(),
    {
        assert forall|pi: int| 0 <= pi < other.num_pieces implies {
            &&& (#[trigger] other.states()[pi]).len() == other.blocks_in(pi)
            &&& other.hashes()[pi].len() == other.blocks_in(pi)
        } by {
            assert(self.states()[pi].len() == self.blocks_in(pi));
        }
        assert forall|pi: int, bi: int|
            0 <= pi < other.num_pieces && 0 <= bi < other.states()[pi].len()
                implies in_flight_bounded(#[trigger] other.states()[pi][bi]) by {
            assert(in_flight_bounded(self.states()[pi][bi]));
        }
    }

    /// The file's size parameters are the same in both.
    pub open spec fn same_shape(&self, other: &Self) -> bool {
        &&& self.fi == other.fi
        &&& self.num_pieces == other.num_pieces
        &&& self.piece_length == other.piece_length
        &&& self.last_piece_len == other.last_piece_len
    }

    /// Replacing the states and hashes of one piece by rows of the same
    /// lengths, whose blocks respect the stream limit, keeps well-formedness.
    pub proof fn lemma_wf_update_row(
        &self,
        other: &Self,
        p: int,
        row: Seq<BlockState>,
        hrow: Seq<Option<[u8; 32]>>,
    )
        requires
            self.wf(),
            0 <= p < self.num_pieces,
            other.same_shape(self),
            row.len() == self.states()[p].len(),
            hrow.len() == self.hashes()[p].len(),
            forall|b: int| 0 <= b < row.len() ==> in_flight_bounded(#[trigger] row[b]),
            other.states() == self.states().update(p, row),
            other.hashes() == self.hashes().update(p, hrow),
            other.block_state@.len() == self.block_state@.len(),
            other.block_hashes@.len() == self.block_hashes@.len(),
            other.piece_done@.len() == self.piece_done@.len(),
            other.piece_verifying@.len() == self.piece_verifying@.len(),
            other.availability@.len() == self.availability@.len(),
        ensures
            other.wf(),
    {
        assert forall|pi: int| 0 <= pi < other.num_pieces implies {
            &&& (#[trigger] other.states()[pi]).len() == other.blocks_in(pi)
            &&& other.hashes()[pi].len() == other.blocks_in(pi)
        } by {
            assert(self.states()[pi].len() == self.blocks_in(pi));
        }
        assert forall|pi: int, bi: int|
            0 <= pi < other.num_pieces && 0 <= bi < other.states()[pi].len()
                implies in_flight_bounded(#[trigger] other.states()[pi][bi]) by {
            if pi != p {
                assert(in_flight_bounded(self.states()[pi][bi]));
            } else {
                assert(in_flight_bounded(row[bi]));
            }
        }
    }

    /// The file's fixed parameters are the same in both.
    pub open spec fn same_params(&self, other: &Self) -> bool {
        &&& self.fi == other.fi
        &&& self.num_pieces == other.num_pieces
        &&& self.piece_length == other.piece_length
        &&& self.last_piece_len == other.last_piece_len
        &&& self.priority == other.priority
    }

    /// Only the availability counts may differ.
    pub open spec fn same_except_availability(&self, other: &Self) -> bool {
        &&& self.same_params(other)
        &&& self.states() == other.states()
        &&& self.hashes() == other.hashes()
        &&& self.piece_done@ == other.piece_done@
        &&& self.piece_verifying@ == other.piece_verifying@
    }

    /// A new scheduler for a file of `num_pieces` pieces: every block pending,
    /// no availability, `Normal` priority.
    pub fn new(fi: usize, num_pieces: usize, piece_length: u32, last_piece_len: u32) -> (res: Self)
        requires
            num_pieces <= 0x1_0000_0000,
        ensures
            res.wf(),
            res.fi == fi,
            res.num_pieces == num_pieces,
            res.piece_length == piece_length,
            res.last_piece_len == last_piece_len,
            res.priority == Priority::Normal,
            forall|pi: int, bi: int|
                0 <= pi < num_pieces && 0 <= bi < res.blocks_in(pi) ==> #[trigger] res.states()[pi][bi]
                    == BlockState::Pending && res.hashes()[pi][bi] is None,
            forall|pi: int|
                0 <= pi < num_pieces ==> !(#[trigger] res.piece_done@[pi]) && !res.piece_verifying@[pi]
                    && res.availability@[pi] == 0,
    {
        let mut block_state: Vec<Vec<BlockState>> = Vec::new();
        let mut block_hashes: Vec<Vec<Option<[u8; 32]>>> = Vec::new();
        let mut piece_done: Vec<bool> = Vec::new();
        let mut piece_verifying: Vec<bool> = Vec::new();
        let mut availability: Vec<u32> = Vec::new();
        let mut pi: usize = 0;
        while pi < num_pieces
            invariant
                pi <= num_pieces,
                block_state@.len() == pi,
                block_hashes@.len() == pi,
                piece_done@.len() == pi,
                piece_verifying@.len() == pi,
                availability@.len() == pi,
                forall|q: int|
                    0 <= q < pi ==> {
                        &&& (#[trigger] block_state@[q])@.len() == blocks_for(
                            piece_len_spec(q, num_pieces as int, piece_length, last_piece_len),
                        )
                        &&& block_hashes@[q]@.len() == block_state@[q]@.len()
                        &&& forall|b: int|
                            0 <= b < block_state@[q]@.len() ==> #[trigger] block_state@[q]@[b]
                                == BlockState::Pending && block_hashes@[q]@[b] is None
                    },
                forall|q: int|
                    0 <= q < pi ==> !(#[trigger] piece_done@[q]) && !piece_verifying@[q]
                        && availability@[q] == 0,
            decreases num_pieces - pi,
        {
            let pl = piece_len(pi, num_pieces, piece_length, last_piece_len);
            let nb: u32 = if pl % BLOCK_SIZE == 0 { pl / BLOCK_SIZE } else { pl / BLOCK_SIZE + 1 };
            let mut row: Vec<BlockState> = Vec::new();
            let mut hrow: Vec<Option<[u8; 32]>> = Vec::new();
            let mut b: u32 = 0;
            while b < nb
                invariant
                    b <= nb,
                    row@.len() == b,
                    hrow@.len() == b,
                    forall|k: int| 0 <= k < b ==> #[trigger] row@[k] == BlockState::Pending && hrow@[k] is None,
                decreases nb - b,
            {
                row.push(BlockState::Pending);
                hrow.push(None);
                b = b + 1;
            }
            block_state.push(row);
            block_hashes.push(hrow);
            piece_done.push(false);
            piece_verifying.push(false);
            availability.push(0);
            pi = pi + 1;
        }
        let res = BlockScheduler {
            fi,
            num_pieces,
            piece_length,
            last_piece_len,
            block_state,
            block_hashes,
            piece_done,
            piece_verifying,
            availability,
            priority: Priority::Normal,
        };
        assert forall|q: int| 0 <= q < num_pieces implies {
            &&& (#[trigger] res.states()[q]).len() == res.blocks_in(q)
            &&& res.hashes()[q].len() == res.blocks_in(q)
        } by {
            assert(res.states()[q] == res.block_state@[q]@);
            assert(res.hashes()[q] == res.block_hashes@[q]@);
        }
        assert forall|q: int, b: int| 0 <= q < num_pieces && 0 <= b < res.states()[q].len()
            implies in_flight_bounded(#[trigger] res.states()[q][b]) by {
            assert(res.states()[q] == res.block_state@[q]@);
            assert(res.block_state@[q]@[b] == BlockState::Pending);
        }
        assert forall|q: int, b: int| 0 <= q < num_pieces && 0 <= b < res.blocks_in(q)
            implies #[trigger] res.states()[q][b] == BlockState::Pending && res.hashes()[q][b] is None by {
            assert(res.states()[q] == res.block_state@[q]@);
            assert(res.hashes()[q] == res.block_hashes@[q]@);
            assert(res.block_state@[q]@[b] == BlockState::Pending);
        }
        res
    }

    /// The file's download priority.
    pub fn priority(&self) -> (res: Priority)
        ensures
            res == self.priority,
    {
        self.priority
    }

    /// Changes the file's download priority.
    pub fn set_priority(&mut self, priority: Priority)
        ensures
            final(self).priority == priority,
            final(self).fi == old(self).fi,
            final(self).num_pieces == old(self).num_pieces,
            final(self).piece_length == old(self).piece_length,
            final(self).last_piece_len == old(self).last_piece_len,
            final(self).states() == old(self).states(),
            final(self).hashes() == old(self).hashes(),
            final(self).piece_done@ == old(self).piece_done@,
            final(self).piece_verifying@ == old(self).piece_verifying@,
            final(self).availability@ == old(self).availability@,
            old(self).wf() ==> final(self).wf(),
    {
        self.priority = priority;
        proof {
            if old(self).wf() {
                old(self).lemma_wf_congruent(self);
            }
        }
    }

    /// No piece of `bits` is already counted `u32::MAX` times.
    pub open spec fn can_add_bitfield(&self, bits: Seq<bool>) -> bool {
        forall|i: int|
            0 <= i < bits.len() && i < self.num_pieces && bits[i] ==> #[trigger] self.availability@[i] < u32::MAX
    }

    /// Piece `index`, if it exists, is counted fewer than `u32::MAX` times.
    pub open spec fn can_add_have(&self, index: usize) -> bool {
        index < self.num_pieces ==> self.availability@[index as int] < u32::MAX
    }

    /// `new` is `self` after a peer with bitfield `bits` joined.
    pub open spec fn bitfield_added(&self, new: &Self, bits: Seq<bool>) -> bool {
        &&& new.same_except_availability(self)
        &&& new.availability@ == Seq::new(
            self.num_pieces as nat,
            |i: int|
                if i < bits.len() && bits[i] {
                    (self.availability@[i] + 1) as u32
                } else {
                    self.availability@[i]
                },
        )
    }

    /// Counts a new peer's pieces: each piece it has gains one availability.
    pub fn add_peer_bitfield(&mut self, bitfield: &[bool])
        requires
            old(self).wf(),
            old(self).can_add_bitfield(bitfield@),
        ensures
            final(self).wf(),
            old(self).bitfield_added(final(self), bitfield@),
    {
        let n = bitfield.len();
        let mut i: usize = 0;
        while i < n
            invariant
                n == bitfield@.len(),
                i <= n,
                self.wf(),
                self.same_except_availability(old(self)),
                self.availability@.len() == old(self).num_pieces,
                forall|k: int|
                    0 <= k < old(self).num_pieces ==> #[trigger] self.availability@[k] == if k < i
                        && bitfield@[k] {
                        (old(self).availability@[k] + 1) as u32
                    } else {
                        old(self).availability@[k]
                    },
                forall|k: int|
                    0 <= k < bitfield@.len() && k < old(self).num_pieces && bitfield@[k]
                        ==> #[trigger] old(self).availability@[k] < u32::MAX,
            decreases n - i,
        {
            if i < self.num_pieces && bitfield[i] {
                let ghost before = *self;
                self.availability[i] = self.availability[i] + 1;
                proof {
                    before.lemma_wf_congruent(self);
                }
            }
            i = i + 1;
        }
        assert(self.availability@ =~= Seq::new(
            old(self).num_pieces as nat,
            |i: int|
                if i < bitfield@.len() && bitfield@[i] {
                    (old(self).availability@[i] + 1) as u32
                } else {
                    old(self).availability@[i]
                },
        ));
    }

    /// `new` is `self` after a peer announced piece `index`.
    pub open spec fn have_added(&self, new: &Self, index: usize) -> bool {
        &&& new.same_except_availability(self)
        &&& new.availability@ == if index < self.num_pieces {
            self.availability@.update(index as int, (self.availability@[index as int] + 1) as u32)
        } else {
            self.availability@
        }
    }

    /// A peer announces piece `index`.
    pub fn add_peer_have(&mut self, index: usize)
        requires
            old(self).wf(),
            old(self).can_add_have(index),
        ensures
            final(self).wf(),
            old(self).have_added(final(self), index),
    {
        if index < self.num_pieces {
            self.availability[index] = self.availability[index] + 1;
        }
        proof {
            old(self).lemma_wf_congruent(self);
        }
    }

    /// `new` is `self` after a peer with bitfield `bits` left.
    pub open spec fn bitfield_removed(&self, new: &Self, bits: Seq<bool>) -> bool {
        &&& new.same_except_availability(self)
        &&& new.availability@ == Seq::new(
            self.num_pieces as nat,
            |i: int|
                if i < bits.len() && bits[i] && self.availability@[i] > 0 {
                    (self.availability@[i] - 1) as u32
                } else {
                    self.availability@[i]
                },
        )
    }

    /// A peer leaves: each piece it had loses one availability (never below 0).
    pub fn remove_peer_bitfield(&mut self, bitfield: &[bool])
        requires
            old(self).wf(),
        ensures
            final(self).wf(),
            old(self).bitfield_removed(final(self), bitfield@),
    {
        let n = bitfield.len();
        let mut i: usize = 0;
        while i < n
            invariant
                n == bitfield@.len(),
                i <= n,
                self.wf(),
                self.same_except_availability(old(self)),
                self.availability@.len() == old(self).num_pieces,
                forall|k: int|
                    0 <= k < old(self).num_pieces ==> #[trigger] self.availability@[k] == if k < i
                        && bitfield@[k] && old(self).availability@[k] > 0 {
                        (old(self).availability@[k] - 1) as u32
                    } else {
                        old(self).availability@[k]
                    },
            decreases n - i,
        {
            if i < self.num_pieces && bitfield[i] && self.availability[i] > 0 {
                let ghost before = *self;
                self.availability[i] = self.availability[i] - 1;
                proof {
                    before.lemma_wf_congruent(self);
                }
            }
            i = i + 1;
        }
        assert(self.availability@ =~= Seq::new(
            old(self).num_pieces as nat,
            |i: int|
                if i < bitfield@.len() && bitfield@[i] && old(self).availability@[i] > 0 {
                    (old(self).availability@[i] - 1) as u32
                } else {
                    old(self).availability@[i]
                },
        ));
    }
}

} // verus!
