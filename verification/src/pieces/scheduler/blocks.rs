//! Block completion, failure and piece verification bookkeeping, and the
//! scheduler's queries.
use vstd::prelude::*;

use super::types::BlockState;
use super::{in_flight_bounded, BlockScheduler};

verus! {

/// Every block of the row is done.
pub open spec fn all_done(row: Seq<BlockState>) -> bool {
    forall|b: int| 0 <= b < row.len() ==> #[trigger] row[b] == BlockState::Done
}

/// Number of pending blocks in a row.
pub open spec fn count_pending(row: Seq<BlockState>) -> nat
    decreases row.len(),
{
    if row.len() == 0 {
        0
    } else {
        count_pending(row.drop_last()) + if row.last() == BlockState::Pending { 1nat } else { 0nat }
    }
}

/// Number of `true` entries.
pub open spec fn count_true(s: Seq<bool>) -> nat
    decreases s.len(),
{
    if s.len() == 0 {
        0
    } else {
        count_true(s.drop_last()) + if s.last() { 1nat } else { 0nat }
    }
}

/// The state a block returns to when one of its streams fails.
pub open spec fn failed_state(s: BlockState) -> BlockState {
    match s {
        BlockState::InFlight(n) => if n <= 1 { BlockState::Pending } else { BlockState::InFlight((n - 1) as u8) },
        other => other,
    }
}

/// The unwrapped hashes of a row whose hashes are all present.
pub open spec fn unwrap_hashes(row: Seq<Option<[u8; 32]>>) -> Seq<[u8; 32]> {
    row.map_values(|h: Option<[u8; 32]>| h->0)
}

impl BlockScheduler {
    /// Nothing changed.
    pub open spec fn unchanged(&self, other: &Self) -> bool {
        &&& self.same_except_availability(other)
        &&& self.availability@ == other.availability@
    }

    /// Pending blocks of the first `n` pieces that are neither done nor being
    /// verified.
    pub open spec fn pending_upto(&self, n: int) -> nat
        decreases n,
    {
        if n <= 0 {
            0
        } else {
            self.pending_upto(n - 1) + if !self.piece_done@[n - 1] && !self.piece_verifying@[n - 1] {
                count_pending(self.states()[n - 1])
            } else {
                0nat
            }
        }
    }

    /// Piece `pi` still has work: not done, not being verified, some block not done.
    pub open spec fn has_work(&self, pi: int) -> bool {
        &&& !self.piece_done@[pi]
        &&& !self.piece_verifying@[pi]
        &&& exists|b: int| 0 <= b < self.states()[pi].len() && #[trigger] self.states()[pi][b] != BlockState::Done
    }

    /// `new` is `self` after [`BlockScheduler::mark_block_done`] returned `res`.
    pub open spec fn block_done_step(&self, new: &Self, pi: u32, bi: u32, block_hash: [u8; 32], res: bool) -> bool {
        &&& new.same_params(self)
        &&& new.availability@ == self.availability@
        &&& new.piece_done@ == self.piece_done@
        &&& ({
            let p = pi as int;
            let b = bi as int;
            if p >= self.num_pieces || self.piece_done@[p] || self.piece_verifying@[p]
                || b >= self.states()[p].len() {
                &&& !res
                &&& new.unchanged(self)
            } else {
                &&& new.states() == self.states().update(
                    p,
                    self.states()[p].update(b, BlockState::Done),
                )
                &&& new.hashes() == self.hashes().update(
                    p,
                    self.hashes()[p].update(b, Some(block_hash)),
                )
                &&& res == all_done(new.states()[p])
                &&& new.piece_verifying@ == if res {
                    self.piece_verifying@.update(p, true)
                } else {
                    self.piece_verifying@
                }
            }
        })
    }

    /// Marks block `(pi, bi)` done and stores its hash. Returns `true` when
    /// this completes every block of the piece, which then awaits
    /// verification; a piece returns `true` at most once until it is reset.
    pub fn mark_block_done(&mut self, pi: u32, bi: u32, block_hash: [u8; 32]) -> (res: bool)
        requires
            old(self).wf(),
        ensures
            final(self).wf(),
            old(self).block_done_step(final(self), pi, bi, block_hash, res),
    {
        let p = pi as usize;
        let b = bi as usize;
        if p >= self.num_pieces {
            return false;
        }
        if self.piece_done[p] || self.piece_verifying[p] {
            return false;
        }
        if b >= self.block_state[p].len() {
            return false;
        }
        assert(self.states()[p as int].len() == self.blocks_in(p as int));
        assert(self.hashes()[p as int].len() == self.blocks_in(p as int));
        assert(self.states()[p as int] == self.block_state@[p as int]@);
        assert(self.hashes()[p as int] == self.block_hashes@[p as int]@);
        self.block_state[p][b] = BlockState::Done;
        self.block_hashes[p][b] = Some(block_hash);
        assert(self.states() =~= old(self).states().update(p as int, old(self).states()[p as int].update(b as int, BlockState::Done)));
        assert(self.hashes() =~= old(self).hashes().update(p as int, old(self).hashes()[p as int].update(b as int, Some(block_hash))));
        proof {
            let row = old(self).states()[p as int].update(b as int, BlockState::Done);
            assert forall|c: int| 0 <= c < row.len() implies in_flight_bounded(#[trigger] row[c]) by {
                if c != b {
                    assert(in_flight_bounded(old(self).states()[p as int][c]));
                }
            }
            old(self).lemma_wf_update_row(self, p as int, row, old(self).hashes()[p as int].update(b as int, Some(block_hash)));
        }
        let ghost mid = *self;
        let n = self.block_state[p].len();
        let mut all = true;
        let mut k: usize = 0;
        while k < n
            invariant
                p < self.num_pieces,
                self.block_state@.len() == self.num_pieces,
                n == self.block_state@[p as int]@.len(),
                k <= n,
                all == (forall|c: int| 0 <= c < k ==> #[trigger] self.block_state@[p as int]@[c] == BlockState::Done),
            decreases n - k,
        {
            if self.block_state[p][k] != BlockState::Done {
                all = false;
            }
            k = k + 1;
        }
        if all {
            self.piece_verifying[p] = true;
            proof {
                mid.lemma_wf_congruent(self);
            }
        }
        all
    }

    /// The hashes of every block of piece `pi`, when all of them are stored.
    pub fn piece_block_hashes(&self, pi: u32) -> (res: Option<Vec<[u8; 32]>>)
        requires
            self.wf(),
        ensures
            pi >= self.num_pieces ==> res is None,
            pi < self.num_pieces ==> {
                if forall|b: int| 0 <= b < self.hashes()[pi as int].len() ==> (#[trigger] self.hashes()[pi as int][b]) is Some {
                    res matches Some(v) && v@ == unwrap_hashes(self.hashes()[pi as int])
                } else {
                    res is None
                }
            },
    {
        let p = pi as usize;
        if p >= self.num_pieces {
            return None;
        }
        let n = self.block_hashes[p].len();
        let mut out: Vec<[u8; 32]> = Vec::new();
        let mut k: usize = 0;
        while k < n
            invariant
                p < self.num_pieces,
                p == pi as usize,
                self.block_hashes@.len() == self.num_pieces,
                n == self.block_hashes@[p as int]@.len(),
                k <= n,
                out@.len() == k,
                forall|c: int| 0 <= c < k ==> (#[trigger] self.block_hashes@[p as int]@[c]) is Some,
                forall|c: int| 0 <= c < k ==> #[trigger] out@[c] == self.block_hashes@[p as int]@[c]->0,
            decreases n - k,
        {
            match self.block_hashes[p][k] {
                Some(h) => {
                    out.push(h);
                },
                None => {
                    assert(self.hashes()[p as int] == self.block_hashes@[p as int]@);
                    assert(self.hashes()[p as int][k as int] is None);
                    assert(self.hashes()[pi as int][k as int] is None);
                    return None;
                },
            }
            k = k + 1;
        }
        assert(out@ =~= unwrap_hashes(self.hashes()[p as int]));
        Some(out)
    }

    /// `new` is `self` after [`BlockScheduler::mark_block_failed`].
    pub open spec fn block_failed_step(&self, new: &Self, pi: u32, bi: u32) -> bool {
        &&& new.same_params(self)
        &&& new.hashes() == self.hashes()
        &&& new.availability@ == self.availability@
        &&& new.piece_done@ == self.piece_done@
        &&& new.piece_verifying@ == self.piece_verifying@
        &&& ({
            let p = pi as int;
            let b = bi as int;
            new.states() == if p < self.num_pieces && b < self.states()[p].len() {
                self.states().update(p, self.states()[p].update(b, failed_state(self.states()[p][b])))
            } else {
                self.states()
            }
        })
    }

    /// One stream fetching block `(pi, bi)` gave up: its in-flight count
    /// drops by one, back to pending at zero. Done blocks stay done.
    pub fn mark_block_failed(&mut self, pi: u32, bi: u32)
        requires
            old(self).wf(),
        ensures
            final(self).wf(),
            old(self).block_failed_step(final(self), pi, bi),
    {
        let p = pi as usize;
        let b = bi as usize;
        if p >= self.num_pieces || b >= self.block_state[p].len() {
            return;
        }
        match self.block_state[p][b] {
            BlockState::InFlight(n) => {
                let next = if n <= 1 { BlockState::Pending } else { BlockState::InFlight(n - 1) };
                assert(self.states()[p as int] == self.block_state@[p as int]@);
                assert(in_flight_bounded(self.states()[p as int][b as int]));
                self.block_state[p][b] = next;
                proof {
                    let row = old(self).states()[p as int].update(b as int, next);
                    assert forall|c: int| 0 <= c < row.len() implies in_flight_bounded(#[trigger] row[c]) by {
                        if c != b {
                            assert(in_flight_bounded(old(self).states()[p as int][c]));
                        }
                    }
                    assert(self.states() =~= old(self).states().update(p as int, row));
                    assert(old(self).hashes().update(p as int, old(self).hashes()[p as int]) =~= old(self).hashes());
                    old(self).lemma_wf_update_row(self, p as int, row, old(self).hashes()[p as int]);
                }
                assert(self.states() =~= old(self).states().update(p as int, old(self).states()[p as int].update(b as int, failed_state(old(self).states()[p as int][b as int]))));
            },
            _ => {
                assert(old(self).states()[p as int].update(b as int, failed_state(old(self).states()[p as int][b as int])) =~= old(self).states()[p as int]);
                assert(old(self).states().update(p as int, old(self).states()[p as int]) =~= old(self).states());
            },
        }
    }

    /// `new` is `self` after [`BlockScheduler::mark_piece_verified`].
    pub open spec fn piece_verified_step(&self, new: &Self, pi: u32) -> bool {
        &&& new.same_params(self)
        &&& new.states() == self.states()
        &&& new.hashes() == self.hashes()
        &&& new.availability@ == self.availability@
        &&& pi < self.num_pieces ==> new.piece_done@ == self.piece_done@.update(pi as int, true)
            && new.piece_verifying@ == self.piece_verifying@.update(pi as int, false)
        &&& pi >= self.num_pieces ==> new.piece_done@ == self.piece_done@
            && new.piece_verifying@ == self.piece_verifying@
    }

    /// Piece `pi` passed verification: it is done.
    pub fn mark_piece_verified(&mut self, pi: u32)
        requires
            old(self).wf(),
        ensures
            final(self).wf(),
            old(self).piece_verified_step(final(self), pi),
    {
        let p = pi as usize;
        if p < self.num_pieces {
            self.piece_done[p] = true;
            self.piece_verifying[p] = false;
            proof {
                old(self).lemma_wf_congruent(self);
            }
        }
    }

    /// `new` is `self` after [`BlockScheduler::mark_piece_hash_failed`].
    pub open spec fn hash_failed_step(&self, new: &Self, pi: u32) -> bool {
        &&& new.same_params(self)
        &&& new.availability@ == self.availability@
        &&& new.piece_done@ == self.piece_done@
        &&& pi < self.num_pieces ==> {
            let p = pi as int;
            &&& new.piece_verifying@ == self.piece_verifying@.update(p, false)
            &&& new.states() == self.states().update(
                p,
                Seq::new(self.states()[p].len(), |b: int| BlockState::Pending),
            )
            &&& new.hashes() == self.hashes().update(
                p,
                Seq::new(self.hashes()[p].len(), |b: int| None::<[u8; 32]>),
            )
        }
        &&& pi >= self.num_pieces ==> new.unchanged(self)
    }

    /// Piece `pi` failed its Merkle check: every block goes back to pending
    /// and its hashes are dropped, so the piece is fetched again.
    pub fn mark_piece_hash_failed(&mut self, pi: u32)
        requires
            old(self).wf(),
        ensures
            final(self).wf(),
            old(self).hash_failed_step(final(self), pi),
    {
        let p = pi as usize;
        if p < self.num_pieces {
            self.piece_verifying[p] = false;
            let n = self.block_state[p].len();
            let mut row: Vec<BlockState> = Vec::new();
            let mut k: usize = 0;
            while k < n
                invariant
                    k <= n,
                    row@.len() == k,
                    forall|c: int| 0 <= c < k ==> #[trigger] row@[c] == BlockState::Pending,
                decreases n - k,
            {
                row.push(BlockState::Pending);
                k = k + 1;
            }
            let m = self.block_hashes[p].len();
            let mut hrow: Vec<Option<[u8; 32]>> = Vec::new();
            let mut j: usize = 0;
            while j < m
                invariant
                    j <= m,
                    hrow@.len() == j,
                    forall|c: int| 0 <= c < j ==> #[trigger] hrow@[c] == None::<[u8; 32]>,
                decreases m - j,
            {
                hrow.push(None);
                j = j + 1;
            }
            assert(old(self).states()[p as int] == old(self).block_state@[p as int]@);
            assert(old(self).hashes()[p as int] == old(self).block_hashes@[p as int]@);
            let ghost srow = row@;
            let ghost shrow = hrow@;
            self.block_state[p] = row;
            self.block_hashes[p] = hrow;
            assert(srow =~= Seq::new(old(self).states()[p as int].len(), |b: int| BlockState::Pending));
            assert(shrow =~= Seq::new(old(self).hashes()[p as int].len(), |b: int| None::<[u8; 32]>));
            assert(self.states() =~= old(self).states().update(p as int, srow));
            assert(self.hashes() =~= old(self).hashes().update(p as int, shrow));
            proof {
                let mid = BlockScheduler { piece_verifying: old(self).piece_verifying, ..*self };
                assert(mid.states() == self.states());
                old(self).lemma_wf_update_row(&mid, p as int, srow, shrow);
                mid.lemma_wf_congruent(self);
            }
            assert(self.states() =~= old(self).states().update(
                p as int,
                Seq::new(old(self).states()[p as int].len(), |b: int| BlockState::Pending),
            ));
            assert(self.hashes() =~= old(self).hashes().update(
                p as int,
                Seq::new(old(self).hashes()[p as int].len(), |b: int| None::<[u8; 32]>),
            ));
        }
    }

    /// Number of pending blocks in pieces that are neither done nor being
    /// verified (taken modulo 2^32, as a `u32`).
    pub fn pending_blocks(&self) -> (res: u32)
        requires
            self.wf(),
        ensures
            res as nat == self.pending_upto(self.num_pieces as int) % 0x1_0000_0000,
    {
        let mut total: u32 = 0;
        let mut pi: usize = 0;
        while pi < self.num_pieces
            invariant
                self.wf(),
                pi <= self.num_pieces,
                total as nat == self.pending_upto(pi as int) % 0x1_0000_0000,
            decreases self.num_pieces - pi,
        {
            if !self.piece_done[pi] && !self.piece_verifying[pi] {
                let n = self.block_state[pi].len();
                let mut k: usize = 0;
                let ghost base = self.pending_upto(pi as int);
                while k < n
                    invariant
                        self.wf(),
                        pi < self.num_pieces,
                        n == self.states()[pi as int].len(),
                        k <= n,
                        total as nat == (base + count_pending(self.states()[pi as int].take(k as int))) % 0x1_0000_0000,
                    decreases n - k,
                {
                    let ghost row = self.states()[pi as int];
                    assert(row.take(k + 1).drop_last() =~= row.take(k as int));
                    if self.block_state[pi][k] == BlockState::Pending {
                        proof {
                            let acc = base + count_pending(row.take(k as int));
                            vstd::arithmetic::div_mod::lemma_add_mod_noop(acc as int, 1, 0x1_0000_0000);
                        }
                        total = total.wrapping_add(1);
                    }
                    k = k + 1;
                }
                assert(self.states()[pi as int].take(n as int) =~= self.states()[pi as int]);
            }
            pi = pi + 1;
        }
        total
    }

    /// The smallest availability among pieces that still have work, or
    /// `u32::MAX` when there are none.
    pub fn min_availability(&self) -> (res: u32)
        requires
            self.wf(),
        ensures
            forall|pi: int| 0 <= pi < self.num_pieces && self.has_work(pi) ==> res <= #[trigger] self.availability@[pi],
            (exists|pi: int| 0 <= pi < self.num_pieces && self.has_work(pi)) ==> exists|pi: int|
                0 <= pi < self.num_pieces && self.has_work(pi) && #[trigger] self.availability@[pi] == res,
            !(exists|pi: int| 0 <= pi < self.num_pieces && self.has_work(pi)) ==> res == u32::MAX,
    {
        let mut best: u32 = u32::MAX;
        let mut found = false;
        let mut pi: usize = 0;
        while pi < self.num_pieces
            invariant
                self.wf(),
                pi <= self.num_pieces,
                forall|q: int| 0 <= q < pi && self.has_work(q) ==> best <= #[trigger] self.availability@[q],
                found ==> exists|q: int| 0 <= q < pi && self.has_work(q) && #[trigger] self.availability@[q] == best,
                !found ==> best == u32::MAX && forall|q: int| 0 <= q < pi ==> !self.has_work(q),
            decreases self.num_pieces - pi,
        {
            if !self.piece_done[pi] && !self.piece_verifying[pi] {
                let n = self.block_state[pi].len();
                let mut open = false;
                let mut k: usize = 0;
                while k < n
                    invariant
                        self.wf(),
                        pi < self.num_pieces,
                        n == self.states()[pi as int].len(),
                        k <= n,
                        open == exists|c: int| 0 <= c < k && #[trigger] self.states()[pi as int][c] != BlockState::Done,
                    decreases n - k,
                {
                    if self.block_state[pi][k] != BlockState::Done {
                        open = true;
                    }
                    k = k + 1;
                }
                if open {
                    let a = self.availability[pi];
                    if a < best {
                        best = a;
                    }
                    found = true;
                }
            }
            pi = pi + 1;
        }
        best
    }

    /// Every piece is verified.
    pub fn is_complete(&self) -> (res: bool)
        requires
            self.wf(),
        ensures
            res == forall|pi: int| 0 <= pi < self.num_pieces ==> #[trigger] self.piece_done@[pi],
    {
        let mut pi: usize = 0;
        while pi < self.num_pieces
            invariant
                self.wf(),
                pi <= self.num_pieces,
                forall|q: int| 0 <= q < pi ==> #[trigger] self.piece_done@[q],
            decreases self.num_pieces - pi,
        {
            if !self.piece_done[pi] {
                return false;
            }
            pi = pi + 1;
        }
        true
    }

    /// Number of verified pieces.
    pub fn num_complete_pieces(&self) -> (res: usize)
        requires
            self.wf(),
        ensures
            res == count_true(self.piece_done@),
    {
        let mut count: usize = 0;
        let mut pi: usize = 0;
        while pi < self.num_pieces
            invariant
                self.wf(),
                pi <= self.num_pieces,
                count == count_true(self.piece_done@.take(pi as int)),
                count <= pi,
            decreases self.num_pieces - pi,
        {
            assert(self.piece_done@.take(pi + 1).drop_last() =~= self.piece_done@.take(pi as int));
            if self.piece_done[pi] {
                count = count + 1;
            }
            pi = pi + 1;
        }
        assert(self.piece_done@.take(pi as int) =~= self.piece_done@);
        count
    }

    /// Number of pieces in the file.
    pub fn num_pieces(&self) -> (res: usize)
        ensures
            res == self.num_pieces,
    {
        self.num_pieces
    }
}


impl BlockScheduler {
    /// Finishing a block reports a piece ready at most once: once a call
    /// reported it, later calls on that piece report nothing until it is
    /// reset.
    pub proof fn lemma_piece_ready_once(
        &self,
        mid: &Self,
        last: &Self,
        pi: u32,
        bi: u32,
        h: [u8; 32],
        bi2: u32,
        h2: [u8; 32],
        res2: bool,
    )
        requires
            self.wf(),
            self.block_done_step(mid, pi, bi, h, true),
            mid.block_done_step(last, pi, bi2, h2, res2),
        ensures
            !res2,
    {
        assert(mid.piece_verifying@[pi as int]);
    }
}

/// The hash a run of block marks leaves for block `b`: that of the last
/// mark of `b`, none when `b` was never marked.
pub open spec fn last_mark(marks: Seq<(u32, [u8; 32])>, b: int) -> Option<[u8; 32]>
    decreases marks.len(),
{
    if marks.len() == 0 {
        None
    } else if marks.last().0 == b {
        Some(marks.last().1)
    } else {
        last_mark(marks.drop_last(), b)
    }
}

/// Starting from a piece with no stored hash (a new piece, or one whose
/// check failed), accepted marks of its blocks as done leave for each block
/// the hash of its last mark, so that once every block was marked the
/// piece's block hashes are those hashes in block order.
pub proof fn lemma_block_hash_history(
    s: Seq<BlockScheduler>,
    pi: u32,
    marks: Seq<(u32, [u8; 32])>,
    results: Seq<bool>,
)
    requires
        s.len() == marks.len() + 1,
        results.len() == marks.len(),
        forall|k: int| 0 <= k < s.len() ==> (#[trigger] s[k]).wf(),
        pi < s[0].num_pieces,
        forall|b: int| 0 <= b < s[0].hashes()[pi as int].len() ==> (#[trigger] s[0].hashes()[pi as int][b]) is None,
        forall|k: int| 0 <= k < marks.len() ==> (#[trigger] s[k]).block_done_step(&s[k + 1], pi, marks[k].0, marks[k].1, results[k]),
        forall|k: int|
            0 <= k < marks.len() ==> !(#[trigger] s[k]).piece_done@[pi as int] && !s[k].piece_verifying@[pi as int]
                && (marks[k].0 as int) < s[k].states()[pi as int].len(),
    ensures
        s.last().num_pieces == s[0].num_pieces,
        s.last().hashes()[pi as int].len() == s[0].hashes()[pi as int].len(),
        forall|b: int| 0 <= b < s[0].hashes()[pi as int].len() ==> #[trigger] s.last().hashes()[pi as int][b] == last_mark(marks, b),
    decreases marks.len(),
{
    let p = pi as int;
    if marks.len() > 0 {
        let n = marks.len() - 1;
        let s0 = s.take(n + 1);
        lemma_block_hash_history(s0, pi, marks.drop_last(), results.drop_last());
        let a = s[n];
        let z = s[n + 1];
        assert(s0.last() == a);
        assert(a.block_done_step(&z, pi, marks[n].0, marks[n].1, results[n]));
        assert(a.wf() && z.wf());
        assert(!a.piece_done@[p] && !a.piece_verifying@[p] && (marks[n].0 as int) < a.states()[p].len());
        assert(s.last() == z);
        assert(a.hashes()[p].len() == a.states()[p].len());
        assert forall|b: int| 0 <= b < s[0].hashes()[p].len() implies #[trigger] z.hashes()[p][b] == last_mark(marks, b) by {
            assert(marks.last() == marks[n]);
            if b != marks[n].0 as int {
                assert(z.hashes()[p][b] == a.hashes()[p][b]);
                assert(a.hashes()[p][b] == last_mark(marks.drop_last(), b));
            }
        }
    }
}

} // verus!
