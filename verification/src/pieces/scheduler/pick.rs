//! Rarest-first block selection within one file.
use vstd::prelude::*;

use crate::protocol::metainfo::BLOCK_SIZE;

use super::blocks::all_done;
use super::types::{
    accepts, block_length, block_length_spec, filter_accepts, BlockFilter, BlockState, BlockTask,
    MAX_STREAMS_PER_BLOCK, TYPICAL_STREAMS_PER_BLOCK,
};
use super::{in_flight_bounded, lemma_block_in_piece, BlockScheduler};

verus! {

/// The peer has piece `pi`.
pub open spec fn peer_has(peer: Seq<bool>, pi: int) -> bool {
    0 <= pi < peer.len() && peer[pi]
}

/// Some block of the row passes the filter.
pub open spec fn row_accepts(row: Seq<BlockState>, f: BlockFilter) -> bool {
    exists|b: int| 0 <= b < row.len() && filter_accepts(f, #[trigger] row[b])
}

/// `b` is the first block of the row that passes the filter.
pub open spec fn first_accepted(row: Seq<BlockState>, f: BlockFilter, b: int) -> bool {
    &&& 0 <= b < row.len()
    &&& filter_accepts(f, row[b])
    &&& forall|c: int| 0 <= c < b ==> !filter_accepts(f, #[trigger] row[c])
}

/// The state of a block after one more stream takes it.
pub open spec fn bumped(s: BlockState) -> BlockState {
    match s {
        BlockState::Pending => BlockState::InFlight(1),
        BlockState::InFlight(n) => BlockState::InFlight((n + 1) as u8),
        BlockState::Done => BlockState::Done,
    }
}

/// A filter never lets a block exceed the stream limit.
pub open spec fn filter_within_limit(f: BlockFilter) -> bool {
    match f {
        BlockFilter::Pending => true,
        BlockFilter::InFlightBelow(k) => k <= MAX_STREAMS_PER_BLOCK,
    }
}

/// Index of the first block of the row that passes the filter.
fn first_accepted_index(row: &Vec<BlockState>, f: BlockFilter) -> (res: Option<usize>)
    ensures
        match res {
            Some(b) => first_accepted(row@, f, b as int),
            None => !row_accepts(row@, f),
        },
{
    let n = row.len();
    let mut b: usize = 0;
    while b < n
        invariant
            n == row@.len(),
            b <= n,
            forall|c: int| 0 <= c < b ==> !filter_accepts(f, #[trigger] row@[c]),
        decreases n - b,
    {
        if accepts(f, row[b]) {
            return Some(b);
        }
        b = b + 1;
    }
    None
}

impl BlockScheduler {
    /// Piece `pi` can serve the filter for this peer: not done, not being
    /// verified, the peer has it, and some block passes the filter.
    pub open spec fn is_candidate(&self, peer: Seq<bool>, f: BlockFilter, pi: int) -> bool {
        &&& 0 <= pi < self.num_pieces
        &&& !self.piece_done@[pi]
        &&& !self.piece_verifying@[pi]
        &&& peer_has(peer, pi)
        &&& row_accepts(self.states()[pi], f)
    }

    /// Some piece can serve the filter for this peer.
    pub open spec fn has_candidate(&self, peer: Seq<bool>, f: BlockFilter) -> bool {
        exists|pi: int| self.is_candidate(peer, f, pi)
    }

    /// `pi` is the rarest candidate: least availability, the first such
    /// piece on a tie.
    pub open spec fn is_rarest(&self, peer: Seq<bool>, f: BlockFilter, pi: int) -> bool {
        &&& self.is_candidate(peer, f, pi)
        &&& forall|q: int| 0 <= q < pi && self.is_candidate(peer, f, q) ==> #[trigger] self.availability@[q] > self.availability@[pi]
        &&& forall|q: int| pi < q < self.num_pieces && self.is_candidate(peer, f, q) ==> #[trigger] self.availability@[q] >= self.availability@[pi]
    }

    /// `new` is `self` after handing out task `t` under filter `f`: the
    /// rarest candidate piece, its first block that passes the filter, now
    /// fetched by one more stream.
    pub open spec fn took_block(&self, new: &Self, peer: Seq<bool>, f: BlockFilter, t: BlockTask) -> bool {
        let p = t.pi as int;
        let b = t.bi as int;
        &&& self.is_rarest(peer, f, p)
        &&& first_accepted(self.states()[p], f, b)
        &&& new.states() == self.states().update(p, self.states()[p].update(b, bumped(self.states()[p][b])))
        &&& new.same_params(self)
        &&& new.hashes() == self.hashes()
        &&& new.piece_done@ == self.piece_done@
        &&& new.piece_verifying@ == self.piece_verifying@
        &&& new.availability@ == self.availability@
        &&& t.fi == self.fi
        &&& t.begin == b * BLOCK_SIZE
        &&& t.length == block_length_spec(p, b, self.num_pieces as int, self.piece_length, self.last_piece_len)
    }

    /// The filter [`BlockScheduler::schedule`] ends up using: pending blocks
    /// first, then blocks below the typical stream count, then blocks below
    /// the maximum.
    pub open spec fn schedule_filter(&self, peer: Seq<bool>) -> Option<BlockFilter> {
        if self.has_candidate(peer, BlockFilter::Pending) {
            Some(BlockFilter::Pending)
        } else if self.has_candidate(peer, BlockFilter::InFlightBelow(TYPICAL_STREAMS_PER_BLOCK)) {
            Some(BlockFilter::InFlightBelow(TYPICAL_STREAMS_PER_BLOCK))
        } else if self.has_candidate(peer, BlockFilter::InFlightBelow(MAX_STREAMS_PER_BLOCK)) {
            Some(BlockFilter::InFlightBelow(MAX_STREAMS_PER_BLOCK))
        } else {
            None
        }
    }

    /// Picks the next block for a stream: 1. a pending block of the rarest
    /// piece, 2. a block in flight on fewer than `TYPICAL_STREAMS_PER_BLOCK`
    /// streams, 3. one in flight on fewer than `MAX_STREAMS_PER_BLOCK`. The
    /// block is marked in flight on one more stream.
    pub fn schedule(&mut self, peer_pieces: &[bool]) -> (res: Option<BlockTask>)
        requires
            old(self).wf(),
        ensures
            final(self).wf(),
            match old(self).schedule_filter(peer_pieces@) {
                None => res is None && final(self).unchanged(old(self)),
                Some(f) => res matches Some(t) && old(self).took_block(final(self), peer_pieces@, f, t),
            },
            res is None ==> *final(self) == *old(self),
    {
        if let Some(t) = self.find_block(peer_pieces, BlockFilter::Pending) {
            return Some(t);
        }
        if let Some(t) = self.find_block(peer_pieces, BlockFilter::InFlightBelow(TYPICAL_STREAMS_PER_BLOCK)) {
            return Some(t);
        }
        self.find_block(peer_pieces, BlockFilter::InFlightBelow(MAX_STREAMS_PER_BLOCK))
    }

    /// Like [`BlockScheduler::schedule`], but only hands out pending blocks.
    pub fn schedule_pending(&mut self, peer_pieces: &[bool]) -> (res: Option<BlockTask>)
        requires
            old(self).wf(),
        ensures
            final(self).wf(),
            old(self).has_candidate(peer_pieces@, BlockFilter::Pending) ==> (res matches Some(t)
                && old(self).took_block(final(self), peer_pieces@, BlockFilter::Pending, t)),
            !old(self).has_candidate(peer_pieces@, BlockFilter::Pending) ==> res is None
                && final(self).unchanged(old(self)),
            res is None ==> *final(self) == *old(self),
    {
        self.find_block(peer_pieces, BlockFilter::Pending)
    }

    /// Finds the rarest piece with a block passing `f`, marks its first such
    /// block in flight on one more stream and returns the task.
    pub fn find_block(&mut self, peer_pieces: &[bool], f: BlockFilter) -> (res: Option<BlockTask>)
        requires
            old(self).wf(),
            filter_within_limit(f),
        ensures
            final(self).wf(),
            old(self).has_candidate(peer_pieces@, f) ==> (res matches Some(t) && old(self).took_block(
                final(self),
                peer_pieces@,
                f,
                t,
            )),
            !old(self).has_candidate(peer_pieces@, f) ==> res is None && final(self).unchanged(old(self)),
            res is None ==> *final(self) == *old(self),
    {
        let mut best: Option<(usize, u32)> = None;
        let mut pi: usize = 0;
        while pi < self.num_pieces
            invariant
                self.wf(),
                *self == *old(self),
                pi <= self.num_pieces,
                match best {
                    None => forall|q: int| 0 <= q < pi ==> !self.is_candidate(peer_pieces@, f, q),
                    Some((b, a)) => {
                        &&& b < pi
                        &&& self.is_candidate(peer_pieces@, f, b as int)
                        &&& a == self.availability@[b as int]
                        &&& forall|q: int| 0 <= q < pi && self.is_candidate(peer_pieces@, f, q) ==> #[trigger] self.availability@[q] >= a
                        &&& forall|q: int| 0 <= q < b && self.is_candidate(peer_pieces@, f, q) ==> #[trigger] self.availability@[q] > a
                    },
                },
            decreases self.num_pieces - pi,
        {
            if !self.piece_done[pi] && !self.piece_verifying[pi] && pi < peer_pieces.len() && peer_pieces[pi] {
                assert(self.states()[pi as int] == self.block_state@[pi as int]@);
                match first_accepted_index(&self.block_state[pi], f) {
                    Some(_) => {
                        let avail = self.availability[pi];
                        match best {
                            None => {
                                best = Some((pi, avail));
                            },
                            Some((_, ba)) => {
                                if avail < ba {
                                    best = Some((pi, avail));
                                }
                            },
                        }
                    },
                    None => {},
                }
            }
            pi = pi + 1;
        }
        let (p, _) = match best {
            None => {
                return None;
            },
            Some(x) => x,
        };
        assert(self.states()[p as int] == self.block_state@[p as int]@);
        assert(self.hashes()[p as int] == self.block_hashes@[p as int]@);
        assert(self.states()[p as int].len() == self.blocks_in(p as int));
        let b = match first_accepted_index(&self.block_state[p], f) {
            Some(b) => b,
            None => {
                return None;
            },
        };
        let cur = self.block_state[p][b];
        assert(in_flight_bounded(self.states()[p as int][b as int]));
        let n: u8 = match cur {
            BlockState::Pending => 1,
            BlockState::InFlight(n) => n + 1,
            BlockState::Done => 1,
        };
        proof {
            lemma_block_in_piece(self.piece_bytes(p as int), b as int);
        }
        self.block_state[p][b] = BlockState::InFlight(n);
        proof {
            let row = old(self).states()[p as int].update(b as int, BlockState::InFlight(n));
            assert forall|c: int| 0 <= c < row.len() implies in_flight_bounded(#[trigger] row[c]) by {
                if c != b {
                    assert(in_flight_bounded(old(self).states()[p as int][c]));
                }
            }
            assert(self.states() =~= old(self).states().update(p as int, row));
            assert(old(self).hashes().update(p as int, old(self).hashes()[p as int]) =~= old(self).hashes());
            old(self).lemma_wf_update_row(self, p as int, row, old(self).hashes()[p as int]);
        }
        let begin = b as u32 * BLOCK_SIZE;
        let length = block_length(p, b, self.num_pieces, self.piece_length, self.last_piece_len);
        Some(BlockTask { fi: self.fi, pi: p as u32, bi: b as u32, begin, length })
    }
}

} // verus!
