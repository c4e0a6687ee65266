//! The verified state of an active flow: its schedulers, which pieces are
//! verified, how many bytes, and whether the flow is complete; how it
//! starts, from scratch, from saved progress or as a seed, and how a piece
//! with all its blocks is verified.
use vstd::prelude::*;

use crate::pieces::scheduler::blocks::unwrap_hashes;
use crate::pieces::scheduler::BlockScheduler;
use crate::pieces::verify::{hash_views, hashes_equal, merkle_root_spec, piece_root_from_block_hashes};
use crate::protocol::metainfo::{count_u32, last_piece_length_spec, piece_length_spec, FileEntry, Metainfo};
use crate::protocol::priority::Priority;
use crate::pieces::scheduler::types::BlockState;
use super::sched::{all_wf, file_complete, SchedulerTable};

verus! {

/// Piece `pi` of file `fi` is marked verified in the saved progress.
pub open spec fn saved_bit(saved: Seq<Vec<bool>>, fi: int, pi: int) -> bool {
    0 <= fi < saved.len() && 0 <= pi < saved[fi]@.len() && saved[fi]@[pi]
}

/// The length of piece `pi` of a file.
pub open spec fn file_piece_len(f: FileEntry, pi: int) -> nat {
    if pi + 1 == count_u32(f.piece_hashes@.len()) {
        last_piece_length_spec(f.size as nat, f.piece_hashes@.len())
    } else {
        piece_length_spec(f.size as nat)
    }
}

/// Bytes of the first `n` pieces of file `fi` that the saved progress marks.
pub open spec fn file_restored(f: FileEntry, saved: Seq<Vec<bool>>, fi: int, n: int) -> nat
    decreases n,
{
    if n <= 0 {
        0
    } else {
        file_restored(f, saved, fi, n - 1) + if saved_bit(saved, fi, n - 1) { file_piece_len(f, n - 1) } else { 0 }
    }
}

/// Bytes of the first `n` files that the saved progress marks.
pub open spec fn restored_total(files: Seq<FileEntry>, saved: Seq<Vec<bool>>, n: int) -> nat
    decreases n,
{
    if n <= 0 {
        0
    } else {
        restored_total(files, saved, n - 1) + file_restored(files[n - 1], saved, n - 1, files[n - 1].piece_hashes@.len() as int)
    }
}

/// The pieces of file `fi` (of `num` pieces) verified at start: all when
/// seeding, those the saved progress marks when there is any, else none.
pub open spec fn initial_have(seeding: bool, saved: Option<Seq<Vec<bool>>>, fi: int, num: nat) -> Seq<bool> {
    if seeding {
        Seq::new(num, |pi: int| true)
    } else {
        match saved {
            Some(s) => Seq::new(num, |pi: int| saved_bit(s, fi, pi)),
            None => Seq::new(num, |pi: int| false),
        }
    }
}

/// `s` is a fresh scheduler for file `fi` whose verified pieces are `done`:
/// no availability, `Normal` priority, nothing in flight, nothing stored.
pub open spec fn fresh_scheduler(s: BlockScheduler, f: FileEntry, fi: int, num: nat, done: Seq<bool>) -> bool {
    &&& s.wf()
    &&& s.fi == fi
    &&& s.num_pieces == num
    &&& s.piece_length == piece_length_spec(f.size as nat)
    &&& s.last_piece_len == last_piece_length_spec(f.size as nat, f.piece_hashes@.len())
    &&& s.priority == Priority::Normal
    &&& s.piece_done@ == done
    &&& forall|pi: int| 0 <= pi < num ==> !(#[trigger] s.piece_verifying@[pi]) && s.availability@[pi] == 0
    &&& forall|pi: int, bi: int|
        0 <= pi < num && 0 <= bi < s.blocks_in(pi) ==> #[trigger] s.states()[pi][bi] == BlockState::Pending
            && s.hashes()[pi][bi] is None
}

/// The verified state of an active flow.
pub struct FlowState {
    /// One scheduler per file.
    pub table: SchedulerTable,
    /// `have[fi][pi]`: piece verified, as announced to peers.
    pub have: Vec<Vec<bool>>,
    /// Bytes of verified pieces (a counter that wraps).
    pub downloaded: u64,
    /// The completion signal was raised.
    pub complete: bool,
}

impl FlowState {
    /// The schedulers are well formed and `have` mirrors their verified
    /// pieces.
    pub open spec fn wf(&self) -> bool {
        &&& self.table.wf()
        &&& self.have@.len() == self.table.schedulers@.len()
        &&& forall|fi: int|
            0 <= fi < self.have@.len() ==> (#[trigger] self.have@[fi])@ == self.table.schedulers@[fi].piece_done@
    }

    /// The flow's state at start. `piece_counts[fi]` is the number of
    /// pieces of file `fi`, one per piece hash; `saved` is the progress saved by an earlier run,
    /// used when not seeding. The bytes counted are those of the pieces the
    /// saved progress marks.
    pub fn new(meta: &Metainfo, piece_counts: &[usize], seeding: bool, saved: Option<&Vec<Vec<bool>>>) -> (res: Self)
        requires
            piece_counts@.len() == meta.files@.len(),
            forall|fi: int| 0 <= fi < piece_counts@.len() ==> #[trigger] piece_counts@[fi] == meta.files@[fi].piece_hashes@.len(),
            forall|fi: int| 0 <= fi < meta.files@.len() ==> (#[trigger] meta.files@[fi]).piece_hashes@.len() < u32::MAX,
            saved matches Some(s) ==> restored_total(meta.files@, s@, meta.files@.len() as int) <= u64::MAX,
        ensures
            res.wf(),
            !res.complete,
            res.table.schedulers@.len() == meta.files@.len(),
            forall|fi: int|
                0 <= fi < meta.files@.len() ==> fresh_scheduler(
                    #[trigger] res.table.schedulers@[fi],
                    meta.files@[fi],
                    fi,
                    piece_counts@[fi] as nat,
                    initial_have(
                        seeding,
                        match saved {
                            Some(s) => Some(s@),
                            None => None,
                        },
                        fi,
                        piece_counts@[fi] as nat,
                    ),
                ),
            res.downloaded == match saved {
                Some(s) => if seeding { 0 } else { restored_total(meta.files@, s@, meta.files@.len() as int) },
                None => 0,
            },
    {
        let saved_view: Ghost<Option<Seq<Vec<bool>>>> = Ghost(
            match saved {
                Some(s) => Some(s@),
                None => None,
            },
        );
        let mut schedulers: Vec<BlockScheduler> = Vec::new();
        let mut have: Vec<Vec<bool>> = Vec::new();
        let n = meta.files.len();
        let mut fi: usize = 0;
        while fi < n
            invariant
                n == meta.files@.len(),
                piece_counts@.len() == n,
                forall|k: int| 0 <= k < piece_counts@.len() ==> #[trigger] piece_counts@[k] <= 0x1_0000_0000,
                saved_view@ == match saved {
                    Some(s) => Some(s@),
                    None => None,
                },
                fi <= n,
                schedulers@.len() == fi,
                have@.len() == fi,
                forall|k: int|
                    0 <= k < fi ==> fresh_scheduler(
                        #[trigger] schedulers@[k],
                        meta.files@[k],
                        k,
                        piece_counts@[k] as nat,
                        initial_have(seeding, saved_view@, k, piece_counts@[k] as nat),
                    ),
                forall|k: int| 0 <= k < fi ==> (#[trigger] have@[k])@ == schedulers@[k].piece_done@,
            decreases n - fi,
        {
            let num = piece_counts[fi];
            let pl = meta.files[fi].piece_length();
            let last_pl = meta.files[fi].last_piece_length();
            let mut sched = BlockScheduler::new(fi, num, pl, last_pl);
            let mut hv: Vec<bool> = Vec::new();
            assert forall|q: int| 0 <= q < num implies !(#[trigger] sched.piece_verifying@[q]) by {
                assert(!sched.piece_done@[q]);
            }
            assert forall|q: int| 0 <= q < num implies (#[trigger] sched.availability@[q]) == 0 by {
                assert(!sched.piece_done@[q]);
            }
            let mut pi: usize = 0;
            while pi < num
                invariant
                    num == piece_counts@[fi as int],
                    num <= 0x1_0000_0000,
                    pi <= num,
                    fi < n,
                    n == meta.files@.len(),
                    saved_view@ == match saved {
                        Some(s) => Some(s@),
                        None => None,
                    },
                    sched.wf(),
                    sched.fi == fi,
                    sched.num_pieces == num,
                    sched.piece_length == piece_length_spec(meta.files@[fi as int].size as nat),
                    sched.last_piece_len == last_piece_length_spec(
                        meta.files@[fi as int].size as nat,
                        meta.files@[fi as int].piece_hashes@.len(),
                    ),
                    sched.priority == Priority::Normal,
                    hv@ == initial_have(seeding, saved_view@, fi as int, num as nat).take(pi as int),
                    forall|q: int| 0 <= q < num ==> (#[trigger] sched.piece_done@[q]) == (q < pi && hv@[q]),
                    forall|q: int| 0 <= q < num ==> !(#[trigger] sched.piece_verifying@[q]),
                    forall|q: int| 0 <= q < num ==> (#[trigger] sched.availability@[q]) == 0,
                    forall|q: int, bi: int|
                        0 <= q < num && 0 <= bi < sched.blocks_in(q) ==> #[trigger] sched.states()[q][bi]
                            == BlockState::Pending && sched.hashes()[q][bi] is None,
                decreases num - pi,
            {
                let mark = if seeding {
                    true
                } else {
                    match saved {
                        Some(s) => fi < s.len() && pi < s[fi].len() && s[fi][pi],
                        None => false,
                    }
                };
                if mark {
                    sched.mark_piece_verified(pi as u32);
                }
                hv.push(mark);
                pi = pi + 1;
                assert(hv@ =~= initial_have(seeding, saved_view@, fi as int, num as nat).take(pi as int));
            }
            assert(hv@ =~= initial_have(seeding, saved_view@, fi as int, num as nat));
            assert(sched.piece_done@ =~= hv@);
            schedulers.push(sched);
            have.push(hv);
            fi = fi + 1;
        }
        let downloaded: u64 = if seeding {
            0
        } else {
            match saved {
                Some(s) => restored_bytes(meta, s),
                None => 0,
            }
        };
        let res = FlowState { table: SchedulerTable { schedulers }, have, downloaded, complete: false };
        assert(all_wf(res.table.schedulers@)) by {
            assert forall|k: int| 0 <= k < res.table.schedulers@.len() implies (#[trigger] res.table.schedulers@[k]).wf() by {
                assert(fresh_scheduler(
                    res.table.schedulers@[k],
                    meta.files@[k],
                    k,
                    piece_counts@[k] as nat,
                    initial_have(seeding, saved_view@, k, piece_counts@[k] as nat),
                ));
            }
        }
        res
    }

    /// The pieces of file `fi` we have.
    pub fn our_bitfield(&self, fi: usize) -> (res: Vec<bool>)
        requires
            self.wf(),
            fi < self.have@.len(),
        ensures
            res@ == self.table.schedulers@[fi as int].piece_done@,
    {
        let row = &self.have[fi];
        let mut out: Vec<bool> = Vec::new();
        let mut i: usize = 0;
        while i < row.len()
            invariant
                i <= row@.len(),
                out@ == row@.take(i as int),
            decreases row@.len() - i,
        {
            out.push(row[i]);
            i = i + 1;
            assert(out@ =~= row@.take(i as int));
        }
        assert(out@ =~= row@);
        out
    }

    /// Every file is complete.
    pub fn is_complete(&self) -> (res: bool)
        requires
            self.wf(),
        ensures
            res == forall|j: int| 0 <= j < self.table.schedulers@.len() ==> file_complete(#[trigger] self.table.schedulers@[j]),
    {
        self.table.is_complete()
    }

    /// Raises the completion signal the first time every file is complete;
    /// `true` when it was raised by this call.
    pub fn signal_if_complete(&mut self) -> (res: bool)
        requires
            old(self).wf(),
        ensures
            final(self).wf(),
            final(self).table == old(self).table,
            final(self).have@ == old(self).have@,
            final(self).downloaded == old(self).downloaded,
            res == (!old(self).complete && forall|j: int|
                0 <= j < old(self).table.schedulers@.len() ==> file_complete(#[trigger] old(self).table.schedulers@[j])),
            final(self).complete == (old(self).complete || res),
    {
        if self.complete {
            return false;
        }
        if self.table.is_complete() {
            self.complete = true;
            true
        } else {
            false
        }
    }
}

impl FlowState {
    /// The schedulers match the flow's files, one per file with as many
    /// pieces as it has piece hashes.
    pub open spec fn matches(&self, meta: &Metainfo) -> bool {
        &&& self.table.schedulers@.len() == meta.files@.len()
        &&& forall|fi: int|
            0 <= fi < meta.files@.len() ==> (#[trigger] self.table.schedulers@[fi]).num_pieces
                == meta.files@[fi].piece_hashes@.len() && meta.files@[fi].piece_hashes@.len() < u32::MAX
    }

    /// The block hashes of piece `pi` of file `fi` are all stored.
    pub open spec fn hashes_ready(&self, fi: int, pi: int) -> bool {
        &&& 0 <= fi < self.table.schedulers@.len()
        &&& 0 <= pi < self.table.schedulers@[fi].num_pieces
        &&& forall|b: int|
            0 <= b < self.table.schedulers@[fi].hashes()[pi].len() ==> (#[trigger] self.table.schedulers@[fi].hashes()[pi][b]) is Some
    }

    /// The Merkle root of the stored block hashes of piece `pi` of file `fi`.
    pub open spec fn computed_root(&self, fi: int, pi: int) -> Seq<u8> {
        merkle_root_spec(hash_views(unwrap_hashes(self.table.schedulers@[fi].hashes()[pi])))
    }

    /// `new` is `self` after checking piece `pi` of file `fi` against `meta`
    /// with outcome `res`; see [`FlowState::verify_and_complete`].
    pub open spec fn verify_step(&self, new: &Self, meta: &Metainfo, fi: int, pi: u32, res: bool) -> bool {
        &&& res ==> self.hashes_ready(fi, pi as int) && self.computed_root(fi, pi as int) == meta.files@[fi].piece_hashes@[pi as int]@
        &&& res ==> {
            &&& new.table.only_changed(&self.table, fi)
            &&& self.table.schedulers@[fi].piece_verified_step(&new.table.schedulers@[fi], pi)
            &&& new.downloaded == (self.downloaded + file_piece_len(meta.files@[fi], pi as int)) % 0x1_0000_0000_0000_0000
            &&& new.complete == (self.complete || forall|j: int|
                0 <= j < new.table.schedulers@.len() ==> file_complete(#[trigger] new.table.schedulers@[j]))
        }
        &&& !res ==> {
            &&& !(self.hashes_ready(fi, pi as int) && self.computed_root(fi, pi as int) == meta.files@[fi].piece_hashes@[pi as int]@)
            &&& fi < self.table.schedulers@.len() ==> new.table.only_changed(&self.table, fi)
                && self.table.schedulers@[fi].hash_failed_step(&new.table.schedulers@[fi], pi)
            &&& fi >= self.table.schedulers@.len() ==> new.table.schedulers@ == self.table.schedulers@
            &&& new.downloaded == self.downloaded
            &&& new.complete == self.complete
        }
    }

    /// Every scheduler keeps one row of block hashes per piece.
    pub open spec fn hash_rows(&self) -> bool {
        forall|k: int| 0 <= k < self.table.schedulers@.len() ==> (#[trigger] self.table.schedulers@[k]).hashes().len() == self.table.schedulers@[k].num_pieces
    }

    /// Verifies piece `pi` of file `fi` once all its blocks are stored: the
    /// Merkle root of the stored block hashes must be the piece's hash in
    /// the metadata. A verified piece is marked had and done and its bytes
    /// are counted (the counter wraps), and the completion signal is raised
    /// if this completes the flow. A piece whose hashes are not all stored,
    /// or whose root differs, goes back to pending.
    pub fn verify_and_complete(&mut self, meta: &Metainfo, fi: usize, pi: u32) -> (res: bool)
        requires
            old(self).wf(),
            old(self).matches(meta),
            old(self).hash_rows(),
        ensures
            final(self).wf(),
            final(self).matches(meta),
            final(self).hash_rows(),
            old(self).verify_step(final(self), meta, fi as int, pi, res),
    {
        let hashes = match self.table.piece_block_hashes(fi, pi) {
            Some(h) => h,
            None => {
                proof {
                    if old(self).hashes_ready(fi as int, pi as int) {
                        assert(false);
                    }
                }
                self.table.mark_piece_hash_failed(fi, pi);
                proof {
                    self.lemma_have_mirror_after_failed(old(self), fi, pi);
                }
                return false;
            },
        };
        proof {
            let s = self.table.schedulers@[fi as int];
            assert(s.wf());
            assert(pi < s.num_pieces);
            assert(s.states()[pi as int].len() == s.blocks_in(pi as int));
            assert(s.hashes()[pi as int].len() == s.blocks_in(pi as int));
            assert(s.blocks_in(pi as int) <= 262144) by {
                let len = s.piece_bytes(pi as int);
                assert(len / 16384 <= 262143) by (nonlinear_arith)
                    requires
                        len <= u32::MAX,
                ;
            }
        }
        let computed = piece_root_from_block_hashes(hashes.as_slice());
        let expected = &meta.files[fi].piece_hashes[pi as usize];
        let piece_bytes = meta.files[fi].piece_len(pi) as u64;
        if hashes_equal(&computed, expected) {
            let ghost before = self.have@;
            self.have[fi].set(pi as usize, true);
            self.table.mark_piece_verified(fi, pi);
            self.downloaded = self.downloaded.wrapping_add(piece_bytes);
            proof {
                assert forall|k: int| 0 <= k < self.have@.len() implies (#[trigger] self.have@[k])@ == self.table.schedulers@[k].piece_done@ by {
                    if k != fi {
                        assert(self.have@[k] == before[k]);
                    }
                }
            }
            self.signal_if_complete();
            true
        } else {
            self.table.mark_piece_hash_failed(fi, pi);
            proof {
                self.lemma_have_mirror_after_failed(old(self), fi, pi);
            }
            false
        }
    }

    /// Records a finished block of file `fi`; `true` when this completes its
    /// piece, which then awaits verification. An unknown file changes
    /// nothing.
    pub fn block_done(&mut self, fi: usize, pi: u32, bi: u32, hash: [u8; 32]) -> (res: bool)
        requires
            old(self).wf(),
            old(self).hash_rows(),
        ensures
            final(self).wf(),
            final(self).hash_rows(),
            final(self).have@ == old(self).have@,
            final(self).downloaded == old(self).downloaded,
            final(self).complete == old(self).complete,
            forall|meta: Metainfo| old(self).matches(&meta) ==> #[trigger] final(self).matches(&meta),
            fi >= old(self).table.schedulers@.len() ==> !res && final(self).table.schedulers@ == old(self).table.schedulers@,
            fi < old(self).table.schedulers@.len() ==> final(self).table.only_changed(&old(self).table, fi as int)
                && old(self).table.schedulers@[fi as int].block_done_step(&final(self).table.schedulers@[fi as int], pi, bi, hash, res),
    {
        let r = self.table.block_done(fi, pi, bi, hash);
        proof {
            assert forall|k: int| 0 <= k < self.have@.len() implies (#[trigger] self.have@[k])@ == self.table.schedulers@[k].piece_done@ by {
                assert(old(self).have@[k]@ == old(self).table.schedulers@[k].piece_done@);
            }
            assert forall|k: int| 0 <= k < self.table.schedulers@.len() implies (#[trigger] self.table.schedulers@[k]).hashes().len() == self.table.schedulers@[k].num_pieces by {
                assert(old(self).table.schedulers@[k].hashes().len() == old(self).table.schedulers@[k].num_pieces);
            }
        }
        r
    }

    /// Resetting a piece after a failed check leaves the verified pieces, so
    /// `have` still mirrors them.
    proof fn lemma_have_mirror_after_failed(&self, prev: &Self, fi: usize, pi: u32)
        requires
            prev.wf(),
            self.table.wf(),
            self.have@ == prev.have@,
            fi < prev.table.schedulers@.len() ==> self.table.only_changed(&prev.table, fi as int)
                && prev.table.schedulers@[fi as int].hash_failed_step(&self.table.schedulers@[fi as int], pi),
            fi >= prev.table.schedulers@.len() ==> self.table.schedulers@ == prev.table.schedulers@,
        ensures
            self.wf(),
    {
        assert forall|k: int| 0 <= k < self.have@.len() implies (#[trigger] self.have@[k])@ == self.table.schedulers@[k].piece_done@ by {
            assert(prev.have@[k]@ == prev.table.schedulers@[k].piece_done@);
        }
    }
}

/// Bytes of the pieces the saved progress marks.
fn restored_bytes(meta: &Metainfo, saved: &Vec<Vec<bool>>) -> (res: u64)
    requires
        forall|fi: int| 0 <= fi < meta.files@.len() ==> (#[trigger] meta.files@[fi]).piece_hashes@.len() < u32::MAX,
        restored_total(meta.files@, saved@, meta.files@.len() as int) <= u64::MAX,
    ensures
        res == restored_total(meta.files@, saved@, meta.files@.len() as int),
{
    let mut total: u64 = 0;
    let mut fi: usize = 0;
    while fi < meta.files.len()
        invariant
            fi <= meta.files@.len(),
            forall|k: int| 0 <= k < meta.files@.len() ==> (#[trigger] meta.files@[k]).piece_hashes@.len() < u32::MAX,
            restored_total(meta.files@, saved@, meta.files@.len() as int) <= u64::MAX,
            total == restored_total(meta.files@, saved@, fi as int),
        decreases meta.files@.len() - fi,
    {
        let f = &meta.files[fi];
        let np = f.piece_hashes.len();
        proof {
            lemma_restored_total_monotone(meta.files@, saved@, fi as int + 1, meta.files@.len() as int);
        }
        let mut pi: usize = 0;
        while pi < np
            invariant
                fi < meta.files@.len(),
                *f == meta.files@[fi as int],
                np == f.piece_hashes@.len(),
                np < u32::MAX,
                pi <= np,
                restored_total(meta.files@, saved@, fi as int + 1) <= u64::MAX,
                total == restored_total(meta.files@, saved@, fi as int) + file_restored(*f, saved@, fi as int, pi as int),
            decreases np - pi,
        {
            proof {
                lemma_file_restored_monotone(*f, saved@, fi as int, pi as int + 1, np as int);
            }
            let marked = fi < saved.len() && pi < saved[fi].len() && saved[fi][pi];
            if marked {
                let len = f.piece_len(pi as u32);
                total = total + len as u64;
            }
            pi = pi + 1;
        }
        fi = fi + 1;
    }
    total
}

proof fn lemma_file_restored_monotone(f: FileEntry, saved: Seq<Vec<bool>>, fi: int, a: int, b: int)
    requires
        0 <= a <= b,
    ensures
        file_restored(f, saved, fi, a) <= file_restored(f, saved, fi, b),
    decreases b - a,
{
    if a < b {
        lemma_file_restored_monotone(f, saved, fi, a, b - 1);
    }
}

proof fn lemma_restored_total_monotone(files: Seq<FileEntry>, saved: Seq<Vec<bool>>, a: int, b: int)
    requires
        0 <= a <= b,
    ensures
        restored_total(files, saved, a) <= restored_total(files, saved, b),
    decreases b - a,
{
    if a < b {
        lemma_restored_total_monotone(files, saved, a, b - 1);
    }
}

} // verus!
