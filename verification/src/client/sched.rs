//! Block selection across the files of a flow, and the scheduler table that
//! the flow's download links share.
//!
//! Selection runs in passes of file priority and scarcity:
//! - passes 1 to 8: pending blocks of files of a high priority level, the
//!   scarce files (some piece with work held by at most `LOW_AVAIL` peers)
//!   of a level before the others;
//! - pass 9: pending blocks of files below `High`;
//! - passes 10 and 11, in endgame only: blocks already in flight, for
//!   redundancy.
use vstd::prelude::*;

use crate::pieces::scheduler::blocks::unwrap_hashes;
use crate::pieces::scheduler::{BlockFilter, BlockScheduler, BlockState, BlockTask};
use crate::protocol::priority::{priority_value, Priority};

use super::avail::PeerAvail;

verus! {

/// A file held by at most this many peers counts as scarce.
pub const LOW_AVAIL: u32 = 1;

/// Number of passes over the high priority levels.
pub const NUM_PRIORITY_PASSES: usize = 8;

/// The priority level of high-priority pass `p`.
pub open spec fn pass_level(p: int) -> Priority {
    if p == 0 || p == 2 {
        Priority::Maximum
    } else if p == 1 || p == 4 {
        Priority::VeryHigh
    } else if p == 3 || p == 6 {
        Priority::Higher
    } else {
        Priority::High
    }
}

/// High-priority pass `p` only takes scarce files.
pub open spec fn pass_rare(p: int) -> bool {
    p == 0 || p == 1 || p == 3 || p == 5
}

/// High-priority pass `p`: the file's level, and the largest availability
/// its scarcest open piece may have (`None`: no scarcity filter).
pub fn priority_pass(p: usize) -> (res: (Priority, Option<u32>))
    requires
        p < NUM_PRIORITY_PASSES,
    ensures
        res.0 == pass_level(p as int),
        res.1 == if pass_rare(p as int) { Some(LOW_AVAIL) } else { None::<u32> },
{
    match p {
        0 => (Priority::Maximum, Some(LOW_AVAIL)),
        1 => (Priority::VeryHigh, Some(LOW_AVAIL)),
        2 => (Priority::Maximum, None),
        3 => (Priority::Higher, Some(LOW_AVAIL)),
        4 => (Priority::VeryHigh, None),
        5 => (Priority::High, Some(LOW_AVAIL)),
        6 => (Priority::Higher, None),
        _ => (Priority::High, None),
    }
}

/// Some piece of the file that still has work is held by at most `m` peers.
pub open spec fn scarce(s: BlockScheduler, m: u32) -> bool {
    exists|pi: int| 0 <= pi < s.num_pieces && s.has_work(pi) && #[trigger] s.availability@[pi] <= m
}

/// Pass `p` (0-based, 0 to 9) looks at this file.
pub open spec fn pass_admits(s: BlockScheduler, p: int) -> bool {
    if p < 8 {
        s.priority == pass_level(p) && (pass_rare(p) ==> scarce(s, LOW_AVAIL))
    } else if p == 8 {
        priority_value(s.priority) < priority_value(Priority::High)
    } else {
        true
    }
}

/// The filter pass `p` uses on a file with this peer, if it finds a block.
pub open spec fn pass_filter(s: BlockScheduler, bits: Seq<bool>, p: int) -> Option<BlockFilter> {
    if p < 9 {
        if s.has_candidate(bits, BlockFilter::Pending) {
            Some(BlockFilter::Pending)
        } else {
            None
        }
    } else {
        s.schedule_filter(bits)
    }
}

/// The peer's pieces of the file, sized to the file.
pub open spec fn file_bits(s: BlockScheduler, a: PeerAvail) -> Seq<bool> {
    a.bits(s.num_pieces as nat)
}

/// Pass `p` finds a block in file `fi` for this peer.
pub open spec fn eligible(
    scheds: Seq<BlockScheduler>,
    avail: Seq<PeerAvail>,
    endgame: bool,
    p: int,
    fi: int,
) -> bool {
    &&& 0 <= p < 10
    &&& (p == 9 ==> endgame)
    &&& 0 <= fi < avail.len()
    &&& fi < scheds.len()
    &&& pass_admits(scheds[fi], p)
    &&& pass_filter(scheds[fi], file_bits(scheds[fi], avail[fi]), p) is Some
}

/// `(p2, f2)` comes before `(p, f)`: passes in order, files in order
/// within a pass.
pub open spec fn lex_before(p2: int, f2: int, p: int, f: int) -> bool {
    p2 < p || (p2 == p && f2 < f)
}

/// `(p, fi)` is the first pass and file that finds a block.
pub open spec fn first_eligible(
    scheds: Seq<BlockScheduler>,
    avail: Seq<PeerAvail>,
    endgame: bool,
    p: int,
    fi: int,
) -> bool {
    &&& eligible(scheds, avail, endgame, p, fi)
    &&& forall|p2: int, f2: int|
        #![trigger eligible(scheds, avail, endgame, p2, f2)]
        lex_before(p2, f2, p, fi) ==> !eligible(scheds, avail, endgame, p2, f2)
}

/// Every scheduler of the table is well formed.
pub open spec fn all_wf(scheds: Seq<BlockScheduler>) -> bool {
    forall|j: int| 0 <= j < scheds.len() ==> (#[trigger] scheds[j]).wf()
}

/// Some entry is `true`.
fn any_true(bits: &Vec<bool>) -> (res: bool)
    ensures
        res == exists|i: int| 0 <= i < bits@.len() && #[trigger] bits@[i],
{
    let mut i: usize = 0;
    while i < bits.len()
        invariant
            i <= bits@.len(),
            forall|q: int| 0 <= q < i ==> !#[trigger] bits@[q],
        decreases bits@.len() - i,
    {
        if bits[i] {
            return true;
        }
        i = i + 1;
    }
    false
}

/// No candidate piece without a piece of the peer's.
proof fn lemma_no_bits_no_candidate(s: BlockScheduler, bits: Seq<bool>)
    requires
        !exists|i: int| 0 <= i < bits.len() && #[trigger] bits[i],
    ensures
        !s.has_candidate(bits, BlockFilter::Pending),
        s.schedule_filter(bits) is None,
{
    assert forall|f: BlockFilter, pi: int| !s.is_candidate(bits, f, pi) by {
        if 0 <= pi < bits.len() {
            assert(!bits[pi]);
        }
    }
}

/// `min_availability() <= m` says exactly that the file is scarce.
proof fn lemma_min_availability_scarce(s: BlockScheduler, min: u32, m: u32)
    requires
        s.wf(),
        m < u32::MAX,
        forall|pi: int| 0 <= pi < s.num_pieces && s.has_work(pi) ==> min <= #[trigger] s.availability@[pi],
        (exists|pi: int| 0 <= pi < s.num_pieces && s.has_work(pi)) ==> exists|pi: int|
            0 <= pi < s.num_pieces && s.has_work(pi) && #[trigger] s.availability@[pi] == min,
        !(exists|pi: int| 0 <= pi < s.num_pieces && s.has_work(pi)) ==> min == u32::MAX,
    ensures
        (min <= m) == scarce(s, m),
{
    if scarce(s, m) {
        let pi = choose|pi: int| 0 <= pi < s.num_pieces && s.has_work(pi) && #[trigger] s.availability@[pi] <= m;
        assert(min <= s.availability@[pi]);
    }
    if min <= m {
        assert(exists|pi: int| 0 <= pi < s.num_pieces && s.has_work(pi));
        let pi = choose|pi: int| 0 <= pi < s.num_pieces && s.has_work(pi) && #[trigger] s.availability@[pi] == min;
        assert(s.availability@[pi] <= m);
    }
}

/// Picks the next block for a download link: the first pass and file, in
/// the order of the passes and then of the files, that finds a block, and
/// there the block the file's scheduler hands out. Only that file's
/// scheduler changes; with no block found nothing changes.
#[verifier::loop_isolation(false)]
pub fn pick_block_sync(
    schedulers: &mut Vec<BlockScheduler>,
    peer_avail: &[PeerAvail],
    endgame: bool,
) -> (res: Option<BlockTask>)
    requires
        all_wf(old(schedulers)@),
    ensures
        all_wf(final(schedulers)@),
        final(schedulers)@.len() == old(schedulers)@.len(),
        match res {
            None => {
                &&& final(schedulers)@ == old(schedulers)@
                &&& forall|p: int, fi: int| !eligible(old(schedulers)@, peer_avail@, endgame, p, fi)
            },
            Some(t) => exists|p: int, fi: int|
                #![trigger eligible(old(schedulers)@, peer_avail@, endgame, p, fi)]
                {
                    &&& first_eligible(old(schedulers)@, peer_avail@, endgame, p, fi)
                    &&& old(schedulers)@[fi].took_block(
                        &final(schedulers)@[fi],
                        file_bits(old(schedulers)@[fi], peer_avail@[fi]),
                        pass_filter(old(schedulers)@[fi], file_bits(old(schedulers)@[fi], peer_avail@[fi]), p)->0,
                        t,
                    )
                    &&& final(schedulers)@ == old(schedulers)@.update(fi, final(schedulers)@[fi])
                },
        },
{
    let ghost orig = schedulers@;
    let ghost avail = peer_avail@;
    let n = peer_avail.len();

    // Passes 1 to 8: pending blocks of the high levels.
    let mut p: usize = 0;
    while p < NUM_PRIORITY_PASSES
        invariant
            schedulers@ == orig,
            all_wf(orig),
            avail == peer_avail@,
            n == avail.len(),
            p <= NUM_PRIORITY_PASSES,
            forall|p2: int, f2: int|
                #![trigger eligible(orig, avail, endgame, p2, f2)]
                p2 < p ==> !eligible(orig, avail, endgame, p2, f2),
        decreases NUM_PRIORITY_PASSES - p,
    {
        let (prio, max_avail) = priority_pass(p);
        let mut fi: usize = 0;
        while fi < n
            invariant
                schedulers@ == orig,
                all_wf(orig),
                avail == peer_avail@,
                n == avail.len(),
                p < NUM_PRIORITY_PASSES,
                prio == pass_level(p as int),
                max_avail == if pass_rare(p as int) { Some(LOW_AVAIL) } else { None::<u32> },
                fi <= n,
                forall|p2: int, f2: int|
                    #![trigger eligible(orig, avail, endgame, p2, f2)]
                    lex_before(p2, f2, p as int, fi as int) ==> !eligible(orig, avail, endgame, p2, f2),
            decreases n - fi,
        {
            if fi < schedulers.len() {
                assert(orig[fi as int].wf());
                if schedulers[fi].priority() == prio {
                    let rare_ok = match max_avail {
                        None => true,
                        Some(m) => {
                            let min = schedulers[fi].min_availability();
                            proof {
                                lemma_min_availability_scarce(orig[fi as int], min, m);
                            }
                            min <= m
                        },
                    };
                    if rare_ok {
                        let num = schedulers[fi].num_pieces();
                        let bits = peer_avail[fi].as_bitfield(num);
                        if any_true(&bits) {
                            let r = schedulers[fi].schedule_pending(&bits);
                            if r.is_some() {
                                assert(eligible(orig, avail, endgame, p as int, fi as int));
                                assert(schedulers@ == orig.update(fi as int, schedulers@[fi as int]));
                                assert(all_wf(schedulers@)) by {
                                    assert forall|j: int| 0 <= j < schedulers@.len() implies (#[trigger] schedulers@[j]).wf() by {
                                        if j != fi {
                                            assert(orig[j].wf());
                                        }
                                    }
                                }
                                return r;
                            }
                            assert(schedulers@ =~= orig);
                        } else {
                            proof {
                                lemma_no_bits_no_candidate(orig[fi as int], bits@);
                            }
                        }
                    }
                }
                assert(!eligible(orig, avail, endgame, p as int, fi as int));
            }
            fi = fi + 1;
        }
        p = p + 1;
    }

    // Pass 9: pending blocks of the files below `High`.
    let mut fi: usize = 0;
    while fi < n
        invariant
            schedulers@ == orig,
            all_wf(orig),
            avail == peer_avail@,
            n == avail.len(),
            fi <= n,
            forall|p2: int, f2: int|
                #![trigger eligible(orig, avail, endgame, p2, f2)]
                lex_before(p2, f2, 8, fi as int) ==> !eligible(orig, avail, endgame, p2, f2),
        decreases n - fi,
    {
        if fi < schedulers.len() {
            assert(orig[fi as int].wf());
            if schedulers[fi].priority().as_u8() < Priority::High.as_u8() {
                let num = schedulers[fi].num_pieces();
                let bits = peer_avail[fi].as_bitfield(num);
                if any_true(&bits) {
                    let r = schedulers[fi].schedule_pending(&bits);
                    if r.is_some() {
                        assert(eligible(orig, avail, endgame, 8, fi as int));
                        assert(schedulers@ == orig.update(fi as int, schedulers@[fi as int]));
                        assert(all_wf(schedulers@)) by {
                            assert forall|j: int| 0 <= j < schedulers@.len() implies (#[trigger] schedulers@[j]).wf() by {
                                if j != fi {
                                    assert(orig[j].wf());
                                }
                            }
                        }
                        return r;
                    }
                    assert(schedulers@ =~= orig);
                } else {
                    proof {
                        lemma_no_bits_no_candidate(orig[fi as int], bits@);
                    }
                }
            }
            assert(!eligible(orig, avail, endgame, 8, fi as int));
        }
        fi = fi + 1;
    }

    // Passes 10 and 11: blocks in flight, in endgame only.
    if endgame {
        let mut fi: usize = 0;
        while fi < n
            invariant
                schedulers@ == orig,
                all_wf(orig),
                avail == peer_avail@,
                n == avail.len(),
                endgame,
                fi <= n,
                forall|p2: int, f2: int|
                    #![trigger eligible(orig, avail, endgame, p2, f2)]
                    lex_before(p2, f2, 9, fi as int) ==> !eligible(orig, avail, endgame, p2, f2),
            decreases n - fi,
        {
            if fi < schedulers.len() {
                assert(orig[fi as int].wf());
                let num = schedulers[fi].num_pieces();
                let bits = peer_avail[fi].as_bitfield(num);
                if any_true(&bits) {
                    let r = schedulers[fi].schedule(&bits);
                    if r.is_some() {
                        assert(eligible(orig, avail, endgame, 9, fi as int));
                        assert(schedulers@ == orig.update(fi as int, schedulers@[fi as int]));
                        assert(all_wf(schedulers@)) by {
                            assert forall|j: int| 0 <= j < schedulers@.len() implies (#[trigger] schedulers@[j]).wf() by {
                                if j != fi {
                                    assert(orig[j].wf());
                                }
                            }
                        }
                        return r;
                    }
                    assert(schedulers@ =~= orig);
                } else {
                    proof {
                        lemma_no_bits_no_candidate(orig[fi as int], bits@);
                    }
                }
                assert(!eligible(orig, avail, endgame, 9, fi as int));
            }
            fi = fi + 1;
        }
    }
    assert forall|p2: int, f2: int| !eligible(orig, avail, endgame, p2, f2) by {
        if 0 <= p2 < 10 && 0 <= f2 < avail.len() {
            assert(lex_before(p2, f2, 9, n as int) || p2 == 9);
        }
    }
    None
}

/// Replacing one well-formed entry keeps the table well formed.
proof fn lemma_all_wf_update(scheds: Seq<BlockScheduler>, fi: int, s: BlockScheduler)
    requires
        all_wf(scheds),
        0 <= fi < scheds.len(),
        s.wf(),
    ensures
        all_wf(scheds.update(fi, s)),
{
    assert forall|j: int| 0 <= j < scheds.update(fi, s).len() implies (#[trigger] scheds.update(fi, s)[j]).wf() by {
        if j != fi {
            assert(scheds[j].wf());
        }
    }
}

/// Pending blocks of one file, counted as a `u32` (modulo 2^32).
pub open spec fn pending_count(s: BlockScheduler) -> nat {
    s.pending_upto(s.num_pieces as int) % 0x1_0000_0000
}

/// Pending blocks of the first `n` files.
pub open spec fn pending_total(scheds: Seq<BlockScheduler>, n: int) -> nat
    decreases n,
{
    if n <= 0 {
        0
    } else {
        pending_total(scheds, n - 1) + pending_count(scheds[n - 1])
    }
}

/// Every piece of the file is done.
pub open spec fn file_complete(s: BlockScheduler) -> bool {
    forall|pi: int| 0 <= pi < s.num_pieces ==> #[trigger] s.piece_done@[pi]
}

/// `new` is `old` after handing out block `t` to a peer with this
/// availability: the first file and pass with a candidate (see
/// [`first_eligible`]) gave its rarest block, and no other file changed.
pub open spec fn picked_from(
    old: Seq<BlockScheduler>,
    new: Seq<BlockScheduler>,
    avail: Seq<PeerAvail>,
    endgame: bool,
    t: BlockTask,
) -> bool {
    exists|p: int, fi: int|
        #![trigger eligible(old, avail, endgame, p, fi)]
        {
            &&& first_eligible(old, avail, endgame, p, fi)
            &&& old[fi].took_block(
                &new[fi],
                file_bits(old[fi], avail[fi]),
                pass_filter(old[fi], file_bits(old[fi], avail[fi]), p)->0,
                t,
            )
            &&& 0 <= fi < old.len()
            &&& new == old.update(fi, new[fi])
        }
}

/// The block schedulers of a flow, one per file, indexed by file.
pub struct SchedulerTable {
    pub schedulers: Vec<BlockScheduler>,
}

impl SchedulerTable {
    /// Every scheduler is well formed.
    pub open spec fn wf(&self) -> bool {
        all_wf(self.schedulers@)
    }

    /// The table of a flow's schedulers.
    pub fn new(schedulers: Vec<BlockScheduler>) -> (res: Self)
        requires
            all_wf(schedulers@),
        ensures
            res.wf(),
            res.schedulers@ == schedulers@,
    {
        SchedulerTable { schedulers }
    }

    /// Only entry `fi` may differ, and it is `new`.
    pub open spec fn only_changed(&self, old_table: &Self, fi: int) -> bool {
        &&& 0 <= fi < old_table.schedulers@.len()
        &&& self.schedulers@ == old_table.schedulers@.update(fi, self.schedulers@[fi])
    }

    /// No file has a block for a peer with this availability.
    pub open spec fn nothing_to_pick(&self, avail: Seq<PeerAvail>, endgame: bool) -> bool {
        forall|p: int, fi: int| !eligible(self.schedulers@, avail, endgame, p, fi)
    }

    /// `new` is `self` after handing out block `t` to a peer with this
    /// availability: the first file and pass with a candidate (see
    /// [`first_eligible`]) gave its rarest block.
    pub open spec fn picked(&self, new: &Self, avail: Seq<PeerAvail>, endgame: bool, t: BlockTask) -> bool {
        picked_from(self.schedulers@, new.schedulers@, avail, endgame, t)
    }

    /// The next block for a link to a peer with this availability; see
    /// [`pick_block_sync`].
    pub fn pick_block(&mut self, peer_avail: &[PeerAvail], endgame: bool) -> (res: Option<BlockTask>)
        requires
            old(self).wf(),
        ensures
            final(self).wf(),
            final(self).schedulers@.len() == old(self).schedulers@.len(),
            match res {
                None => final(self).schedulers@ == old(self).schedulers@ && old(self).nothing_to_pick(peer_avail@, endgame),
                Some(t) => old(self).picked(final(self), peer_avail@, endgame, t),
            },
    {
        pick_block_sync(&mut self.schedulers, peer_avail, endgame)
    }

    /// Pending blocks over every file.
    pub fn total_pending(&self) -> (res: u32)
        requires
            self.wf(),
            pending_total(self.schedulers@, self.schedulers@.len() as int) <= u32::MAX,
        ensures
            res == pending_total(self.schedulers@, self.schedulers@.len() as int),
    {
        let mut total: u32 = 0;
        let mut j: usize = 0;
        while j < self.schedulers.len()
            invariant
                self.wf(),
                j <= self.schedulers@.len(),
                total == pending_total(self.schedulers@, j as int),
                pending_total(self.schedulers@, self.schedulers@.len() as int) <= u32::MAX,
            decreases self.schedulers@.len() - j,
        {
            proof {
                lemma_pending_total_monotone(self.schedulers@, j as int + 1, self.schedulers@.len() as int);
            }
            assert(self.schedulers@[j as int].wf());
            let n = self.schedulers[j].pending_blocks();
            total = total + n;
            j = j + 1;
        }
        total
    }

    /// Records a finished block of file `fi`; `true` when this completes its
    /// piece, which then awaits verification. An unknown file changes nothing.
    pub fn block_done(&mut self, fi: usize, pi: u32, bi: u32, hash: [u8; 32]) -> (res: bool)
        requires
            old(self).wf(),
        ensures
            final(self).wf(),
            fi >= old(self).schedulers@.len() ==> !res && final(self).schedulers@ == old(self).schedulers@,
            fi < old(self).schedulers@.len() ==> final(self).only_changed(old(self), fi as int)
                && old(self).schedulers@[fi as int].block_done_step(&final(self).schedulers@[fi as int], pi, bi, hash, res),
    {
        if fi < self.schedulers.len() {
            let ghost orig = self.schedulers@;
            assert(orig[fi as int].wf());
            let r = self.schedulers[fi].mark_block_done(pi, bi, hash);
            proof {
                lemma_all_wf_update(orig, fi as int, self.schedulers@[fi as int]);
                assert(self.schedulers@ =~= orig.update(fi as int, self.schedulers@[fi as int]));
            }
            r
        } else {
            false
        }
    }

    /// One stream on block `(pi, bi)` of file `fi` gave up.
    pub fn block_failed(&mut self, fi: usize, pi: u32, bi: u32)
        requires
            old(self).wf(),
        ensures
            final(self).wf(),
            fi >= old(self).schedulers@.len() ==> final(self).schedulers@ == old(self).schedulers@,
            fi < old(self).schedulers@.len() ==> final(self).only_changed(old(self), fi as int)
                && old(self).schedulers@[fi as int].block_failed_step(&final(self).schedulers@[fi as int], pi, bi),
    {
        if fi < self.schedulers.len() {
            let ghost orig = self.schedulers@;
            assert(orig[fi as int].wf());
            self.schedulers[fi].mark_block_failed(pi, bi);
            proof {
                lemma_all_wf_update(orig, fi as int, self.schedulers@[fi as int]);
                assert(self.schedulers@ =~= orig.update(fi as int, self.schedulers@[fi as int]));
            }
        }
    }

    /// Counts a peer's pieces of file `fi`.
    pub fn add_peer_bitfield(&mut self, fi: usize, bits: &[bool])
        requires
            old(self).wf(),
            fi < old(self).schedulers@.len() ==> old(self).schedulers@[fi as int].can_add_bitfield(bits@),
        ensures
            final(self).wf(),
            fi >= old(self).schedulers@.len() ==> final(self).schedulers@ == old(self).schedulers@,
            fi < old(self).schedulers@.len() ==> final(self).only_changed(old(self), fi as int)
                && old(self).schedulers@[fi as int].bitfield_added(&final(self).schedulers@[fi as int], bits@),
    {
        if fi < self.schedulers.len() {
            let ghost orig = self.schedulers@;
            assert(orig[fi as int].wf());
            self.schedulers[fi].add_peer_bitfield(bits);
            proof {
                lemma_all_wf_update(orig, fi as int, self.schedulers@[fi as int]);
                assert(self.schedulers@ =~= orig.update(fi as int, self.schedulers@[fi as int]));
            }
        }
    }

    /// Stops counting a departing peer's pieces of file `fi`.
    pub fn remove_peer_bitfield(&mut self, fi: usize, bits: &[bool])
        requires
            old(self).wf(),
        ensures
            final(self).wf(),
            fi >= old(self).schedulers@.len() ==> final(self).schedulers@ == old(self).schedulers@,
            fi < old(self).schedulers@.len() ==> final(self).only_changed(old(self), fi as int)
                && old(self).schedulers@[fi as int].bitfield_removed(&final(self).schedulers@[fi as int], bits@),
    {
        if fi < self.schedulers.len() {
            let ghost orig = self.schedulers@;
            assert(orig[fi as int].wf());
            self.schedulers[fi].remove_peer_bitfield(bits);
            proof {
                lemma_all_wf_update(orig, fi as int, self.schedulers@[fi as int]);
                assert(self.schedulers@ =~= orig.update(fi as int, self.schedulers@[fi as int]));
            }
        }
    }

    /// A peer announced piece `pi` of file `fi`.
    pub fn add_peer_have(&mut self, fi: usize, pi: usize)
        requires
            old(self).wf(),
            fi < old(self).schedulers@.len() ==> old(self).schedulers@[fi as int].can_add_have(pi),
        ensures
            final(self).wf(),
            fi >= old(self).schedulers@.len() ==> final(self).schedulers@ == old(self).schedulers@,
            fi < old(self).schedulers@.len() ==> final(self).only_changed(old(self), fi as int)
                && old(self).schedulers@[fi as int].have_added(&final(self).schedulers@[fi as int], pi),
    {
        if fi < self.schedulers.len() {
            let ghost orig = self.schedulers@;
            assert(orig[fi as int].wf());
            self.schedulers[fi].add_peer_have(pi);
            proof {
                lemma_all_wf_update(orig, fi as int, self.schedulers@[fi as int]);
                assert(self.schedulers@ =~= orig.update(fi as int, self.schedulers@[fi as int]));
            }
        }
    }

    /// The block hashes of piece `pi` of file `fi`, when all are stored.
    pub fn piece_block_hashes(&self, fi: usize, pi: u32) -> (res: Option<Vec<[u8; 32]>>)
        requires
            self.wf(),
        ensures
            fi >= self.schedulers@.len() || pi >= self.schedulers@[fi as int].num_pieces ==> res is None,
            fi < self.schedulers@.len() && pi < self.schedulers@[fi as int].num_pieces ==> {
                let row = self.schedulers@[fi as int].hashes()[pi as int];
                if forall|b: int| 0 <= b < row.len() ==> (#[trigger] row[b]) is Some {
                    res matches Some(v) && v@ == unwrap_hashes(row)
                } else {
                    res is None
                }
            },
    {
        if fi < self.schedulers.len() {
            assert(self.schedulers@[fi as int].wf());
            self.schedulers[fi].piece_block_hashes(pi)
        } else {
            None
        }
    }

    /// Piece `pi` of file `fi` passed verification.
    pub fn mark_piece_verified(&mut self, fi: usize, pi: u32)
        requires
            old(self).wf(),
        ensures
            final(self).wf(),
            fi >= old(self).schedulers@.len() ==> final(self).schedulers@ == old(self).schedulers@,
            fi < old(self).schedulers@.len() ==> final(self).only_changed(old(self), fi as int)
                && old(self).schedulers@[fi as int].piece_verified_step(&final(self).schedulers@[fi as int], pi),
    {
        if fi < self.schedulers.len() {
            let ghost orig = self.schedulers@;
            assert(orig[fi as int].wf());
            self.schedulers[fi].mark_piece_verified(pi);
            proof {
                lemma_all_wf_update(orig, fi as int, self.schedulers@[fi as int]);
                assert(self.schedulers@ =~= orig.update(fi as int, self.schedulers@[fi as int]));
            }
        }
    }

    /// Piece `pi` of file `fi` failed its Merkle check and is fetched again.
    pub fn mark_piece_hash_failed(&mut self, fi: usize, pi: u32)
        requires
            old(self).wf(),
        ensures
            final(self).wf(),
            fi >= old(self).schedulers@.len() ==> final(self).schedulers@ == old(self).schedulers@,
            fi < old(self).schedulers@.len() ==> final(self).only_changed(old(self), fi as int)
                && old(self).schedulers@[fi as int].hash_failed_step(&final(self).schedulers@[fi as int], pi),
    {
        if fi < self.schedulers.len() {
            let ghost orig = self.schedulers@;
            assert(orig[fi as int].wf());
            self.schedulers[fi].mark_piece_hash_failed(pi);
            proof {
                lemma_all_wf_update(orig, fi as int, self.schedulers@[fi as int]);
                assert(self.schedulers@ =~= orig.update(fi as int, self.schedulers@[fi as int]));
            }
        }
    }

    /// Every file of the flow is complete (true of an empty flow).
    pub fn is_complete(&self) -> (res: bool)
        requires
            self.wf(),
        ensures
            res == forall|j: int| 0 <= j < self.schedulers@.len() ==> file_complete(#[trigger] self.schedulers@[j]),
    {
        let mut j: usize = 0;
        while j < self.schedulers.len()
            invariant
                self.wf(),
                j <= self.schedulers@.len(),
                forall|q: int| 0 <= q < j ==> file_complete(#[trigger] self.schedulers@[q]),
            decreases self.schedulers@.len() - j,
        {
            assert(self.schedulers@[j as int].wf());
            if !self.schedulers[j].is_complete() {
                assert(!file_complete(self.schedulers@[j as int]));
                return false;
            }
            j = j + 1;
        }
        true
    }
}

/// The pending total only grows with more files.
proof fn lemma_pending_total_monotone(scheds: Seq<BlockScheduler>, a: int, b: int)
    requires
        0 <= a <= b,
    ensures
        pending_total(scheds, a) <= pending_total(scheds, b),
    decreases b - a,
{
    if a < b {
        lemma_pending_total_monotone(scheds, a, b - 1);
    }
}

/// Outside endgame a pick never puts a second stream on a block: the block
/// handed out was pending and is then in flight on one stream.
pub proof fn lemma_no_redundant_pick(
    old: Seq<BlockScheduler>,
    new: Seq<BlockScheduler>,
    avail: Seq<PeerAvail>,
    p: int,
    fi: int,
    t: BlockTask,
)
    requires
        all_wf(old),
        first_eligible(old, avail, false, p, fi),
        old[fi].took_block(
            &new[fi],
            file_bits(old[fi], avail[fi]),
            pass_filter(old[fi], file_bits(old[fi], avail[fi]), p)->0,
            t,
        ),
    ensures
        old[fi].states()[t.pi as int][t.bi as int] == BlockState::Pending,
        new[fi].states()[t.pi as int][t.bi as int] == BlockState::InFlight(1),
{
    let bits = file_bits(old[fi], avail[fi]);
    assert(p < 9);
    assert(pass_filter(old[fi], bits, p)->0 == BlockFilter::Pending);
    assert(old[fi].wf());
}

/// The first pass that admits a file of this level and takes pending
/// blocks without a scarcity filter.
pub open spec fn open_pass(s: BlockScheduler) -> int {
    match s.priority {
        Priority::Maximum => 2,
        Priority::VeryHigh => 4,
        Priority::Higher => 6,
        Priority::High => 7,
        _ => 8,
    }
}

/// Outside endgame a pick finds a block exactly when some file the peer
/// covers has a pending block in a piece the peer has and we neither have
/// nor are verifying; so a pick that finds nothing leaves no such block
/// behind.
pub proof fn lemma_pick_finds_pending(scheds: Seq<BlockScheduler>, avail: Seq<PeerAvail>)
    ensures
        (exists|p: int, fi: int| #[trigger] eligible(scheds, avail, false, p, fi)) <==> (exists|fi: int|
            0 <= fi < avail.len() && fi < scheds.len() && (#[trigger] scheds[fi]).has_candidate(
                file_bits(scheds[fi], avail[fi]),
                BlockFilter::Pending,
            )),
{
    if exists|p: int, fi: int| #[trigger] eligible(scheds, avail, false, p, fi) {
        let (p, fi) = choose|p: int, fi: int| #[trigger] eligible(scheds, avail, false, p, fi);
        assert(p < 9);
        assert(scheds[fi].has_candidate(file_bits(scheds[fi], avail[fi]), BlockFilter::Pending));
    }
    if exists|fi: int|
        0 <= fi < avail.len() && fi < scheds.len() && (#[trigger] scheds[fi]).has_candidate(
            file_bits(scheds[fi], avail[fi]),
            BlockFilter::Pending,
        ) {
        let fi = choose|fi: int|
            0 <= fi < avail.len() && fi < scheds.len() && (#[trigger] scheds[fi]).has_candidate(
                file_bits(scheds[fi], avail[fi]),
                BlockFilter::Pending,
            );
        let p = open_pass(scheds[fi]);
        assert(pass_admits(scheds[fi], p));
        assert(eligible(scheds, avail, false, p, fi));
    }
}

/// How urgent a file is for a pick: the high levels, each split into its
/// scarce files (some open piece held by at most `LOW_AVAIL` peers) and the
/// rest, in the order Maximum scarce, VeryHigh scarce, Maximum, Higher
/// scarce, VeryHigh, High scarce, Higher, High; every lower level last.
/// Smaller is more urgent.
pub open spec fn urgency(s: BlockScheduler) -> int {
    let sc = scarce(s, LOW_AVAIL);
    match s.priority {
        Priority::Maximum => if sc { 0 } else { 2 },
        Priority::VeryHigh => if sc { 1 } else { 4 },
        Priority::Higher => if sc { 3 } else { 6 },
        Priority::High => if sc { 5 } else { 7 },
        _ => 8,
    }
}

/// File `j` has a pending block in a piece this peer has and we still need.
pub open spec fn has_pending_for(scheds: Seq<BlockScheduler>, avail: Seq<PeerAvail>, j: int) -> bool {
    &&& 0 <= j < avail.len()
    &&& j < scheds.len()
    &&& scheds[j].has_candidate(file_bits(scheds[j], avail[j]), BlockFilter::Pending)
}

/// Outside endgame the pass and file a pick settles on belong to the most
/// urgent file with a pending block for the peer: no file with a pending
/// block is more urgent than the one picked from (so among files of one
/// high level a scarce one goes first), and the picked file has a pending
/// block itself.
pub proof fn lemma_first_pass_most_urgent(scheds: Seq<BlockScheduler>, avail: Seq<PeerAvail>, p: int, fi: int, j: int)
    requires
        first_eligible(scheds, avail, false, p, fi),
        has_pending_for(scheds, avail, j),
    ensures
        has_pending_for(scheds, avail, fi),
        urgency(scheds[fi]) <= urgency(scheds[j]),
{
    let u = urgency(scheds[j]);
    assert(pass_admits(scheds[j], u));
    assert(eligible(scheds, avail, false, u, j));
    assert(!lex_before(u, j, p, fi));
    assert(p < 9);
    assert(pass_admits(scheds[fi], p));
    assert(urgency(scheds[fi]) <= p);
}

/// Outside endgame, in a table whose schedulers sit at their own file
/// index, a block handed out comes from a most urgent file with a pending
/// block for the peer: when two files of the same high level both have one
/// and only one is scarce, the block is the scarce file's.
pub proof fn lemma_pick_most_urgent(
    old: Seq<BlockScheduler>,
    new: Seq<BlockScheduler>,
    avail: Seq<PeerAvail>,
    t: BlockTask,
    j: int,
)
    requires
        forall|i: int| 0 <= i < old.len() ==> (#[trigger] old[i]).fi == i,
        picked_from(old, new, avail, false, t),
        has_pending_for(old, avail, j),
    ensures
        has_pending_for(old, avail, t.fi as int),
        urgency(old[t.fi as int]) <= urgency(old[j]),
{
    let (p, fi) = choose|p: int, fi: int|
        #![trigger eligible(old, avail, false, p, fi)]
        {
            &&& first_eligible(old, avail, false, p, fi)
            &&& old[fi].took_block(
                &new[fi],
                file_bits(old[fi], avail[fi]),
                pass_filter(old[fi], file_bits(old[fi], avail[fi]), p)->0,
                t,
            )
        };
    assert(old[fi].fi == fi);
    lemma_first_pass_most_urgent(old, avail, p, fi, j);
}

} // verus!
