//! Decisions of a download link to one peer: its mode (normal, or endgame
//! when little is left or the link is unstable), how many data streams it
//! may open, what it tells the peer we have, and how the peer's
//! announcements change the flow's availability counts.
use vstd::prelude::*;

use crate::pieces::scheduler::BlockScheduler;
use crate::protocol::bitmap::{decode_bitmap, is_bitmap_of};
use super::avail::{bitfield_to_bytes, bytes_to_bitfield, PeerAvail};
use crate::pieces::scheduler::types::BlockTask;
use crate::protocol::metainfo::Metainfo;
use super::flow::FlowState;
use super::sched::{picked_from, SchedulerTable};

verus! {

/// Below this many pending blocks over the flow, a link is in endgame.
pub const ENDGAME_THRESHOLD: u32 = 16;

/// Failures since the last reset that make a link unstable.
pub const INSTABILITY_FAIL_THRESHOLD: u32 = 3;

/// Successful blocks after which the failure count resets.
pub const INSTABILITY_RESET_WINDOW: u32 = 32;

/// Data streams of a link in normal mode.
pub const DEFAULT_STREAMS: usize = 2;

/// Data streams of a link in endgame or unstable mode.
pub const MAX_STREAMS: usize = 4;

/// Failure bookkeeping of a link.
#[derive(Debug, Clone, Copy, PartialEq, Eq, Structural)]
pub struct LinkHealth {
    /// Block failures since the last reset.
    pub recent_fails: u32,
    /// Blocks completed since the last reset.
    pub blocks_ok: u32,
}

impl LinkHealth {
    /// Fewer successes than the reset window since the last reset.
    pub open spec fn wf(&self) -> bool {
        self.blocks_ok < INSTABILITY_RESET_WINDOW
    }

    /// A new link: no failures, no successes.
    pub fn new() -> (res: Self)
        ensures
            res.wf(),
            res.recent_fails == 0,
            res.blocks_ok == 0,
    {
        LinkHealth { recent_fails: 0, blocks_ok: 0 }
    }

    /// The link has failed too often lately.
    pub fn is_unstable(&self) -> (res: bool)
        ensures
            res == (self.recent_fails >= INSTABILITY_FAIL_THRESHOLD),
    {
        self.recent_fails >= INSTABILITY_FAIL_THRESHOLD
    }

    /// A block completed: every `INSTABILITY_RESET_WINDOW` successes both
    /// counts reset.
    pub fn on_block_ok(&mut self)
        requires
            old(self).wf(),
        ensures
            final(self).wf(),
            old(self).blocks_ok + 1 >= INSTABILITY_RESET_WINDOW ==> final(self).recent_fails == 0 && final(self).blocks_ok == 0,
            old(self).blocks_ok + 1 < INSTABILITY_RESET_WINDOW ==> final(self).recent_fails == old(self).recent_fails
                && final(self).blocks_ok == old(self).blocks_ok + 1,
    {
        self.blocks_ok = self.blocks_ok + 1;
        if self.blocks_ok >= INSTABILITY_RESET_WINDOW {
            self.recent_fails = 0;
            self.blocks_ok = 0;
        }
    }

    /// A block failed, or a stream died with a block.
    pub fn on_block_fail(&mut self)
        requires
            old(self).recent_fails < u32::MAX,
        ensures
            final(self).recent_fails == old(self).recent_fails + 1,
            final(self).blocks_ok == old(self).blocks_ok,
    {
        self.recent_fails = self.recent_fails + 1;
    }

    /// Endgame mode: the link is unstable, or at most `ENDGAME_THRESHOLD`
    /// blocks are pending over the flow.
    pub fn endgame_mode(&self, total_pending: u32) -> (res: bool)
        ensures
            res == (self.recent_fails >= INSTABILITY_FAIL_THRESHOLD || total_pending <= ENDGAME_THRESHOLD),
    {
        self.is_unstable() || total_pending <= ENDGAME_THRESHOLD
    }
}

/// Data streams a link may keep: `MAX_STREAMS` in endgame, else
/// `DEFAULT_STREAMS`.
pub fn max_active(endgame_mode: bool) -> (res: usize)
    ensures
        res == if endgame_mode { MAX_STREAMS } else { DEFAULT_STREAMS },
{
    if endgame_mode {
        MAX_STREAMS
    } else {
        DEFAULT_STREAMS
    }
}

/// What a link tells its peer we have of one file.
#[derive(Debug, Clone)]
pub enum Announcement {
    HaveAll,
    HaveNone,
    /// MSB-first bitmap of the pieces.
    HaveBitmap(Vec<u8>),
}

/// The announcement for our pieces of a file: every piece (also for a file
/// without pieces), no piece, or the bitmap.
pub fn availability_announcement(bits: &[bool]) -> (res: Announcement)
    ensures
        (forall|i: int| 0 <= i < bits@.len() ==> #[trigger] bits@[i]) ==> res is HaveAll,
        !(forall|i: int| 0 <= i < bits@.len() ==> #[trigger] bits@[i]) && (forall|i: int|
            0 <= i < bits@.len() ==> !#[trigger] bits@[i]) ==> res is HaveNone,
        !(forall|i: int| 0 <= i < bits@.len() ==> #[trigger] bits@[i]) && !(forall|i: int|
            0 <= i < bits@.len() ==> !#[trigger] bits@[i]) ==> (res matches Announcement::HaveBitmap(b) && is_bitmap_of(b@, bits@)),
{
    let mut all = true;
    let mut none = true;
    let mut i: usize = 0;
    while i < bits.len()
        invariant
            i <= bits@.len(),
            all == forall|k: int| 0 <= k < i ==> #[trigger] bits@[k],
            none == forall|k: int| 0 <= k < i ==> !#[trigger] bits@[k],
        decreases bits@.len() - i,
    {
        if bits[i] {
            none = false;
        } else {
            all = false;
        }
        i = i + 1;
    }
    if all {
        Announcement::HaveAll
    } else if none {
        Announcement::HaveNone
    } else {
        Announcement::HaveBitmap(bitfield_to_bytes(bits))
    }
}

/// A bitfield of `num` entries, all `value`.
fn filled(num: usize, value: bool) -> (res: Vec<bool>)
    ensures
        res@ == Seq::new(num as nat, |i: int| value),
{
    let mut out: Vec<bool> = Vec::new();
    let mut i: usize = 0;
    while i < num
        invariant
            i <= num,
            out@ == Seq::new(i as nat, |k: int| value),
        decreases num - i,
    {
        out.push(value);
        i = i + 1;
        assert(out@ =~= Seq::new(i as nat, |k: int| value));
    }
    out
}

/// `after` is `before` once the peer announced piece `pi` of a file of `num`
/// pieces: a bitmap gets the piece set when it covers it; anything else
/// becomes the bitmap of what it stood for, with the piece set when
/// `pi < num`.
pub open spec fn have_piece_recorded(before: PeerAvail, after: PeerAvail, pi: usize, num: usize) -> bool {
    match before {
        PeerAvail::Bitmap(v) => after matches PeerAvail::Bitmap(w) && w@ == if pi < v@.len() {
            v@.update(pi as int, true)
        } else {
            v@
        },
        _ => after matches PeerAvail::Bitmap(w) && w@ == if pi < num {
            before.bits(num as nat).update(pi as int, true)
        } else {
            before.bits(num as nat)
        },
    }
}

impl PeerAvail {
    /// The peer announced piece `pi` of a file of `num` pieces: a bitmap
    /// gets the piece set when it covers it; anything else becomes the
    /// bitmap of what it stood for, with the piece set when `pi < num`.
    pub fn record_have_piece(&mut self, pi: usize, num: usize)
        ensures
            have_piece_recorded(*old(self), *final(self), pi, num),
    {
        match self {
            PeerAvail::Bitmap(v) => {
                if pi < v.len() {
                    v.set(pi, true);
                }
            },
            _ => {
                let mut b = self.as_bitfield(num);
                if pi < num {
                    b.set(pi, true);
                }
                *self = PeerAvail::Bitmap(b);
            },
        }
    }
}

/// Every piece of file `fi` is counted fewer than `u32::MAX` times.
pub open spec fn room_for_peer(table: &SchedulerTable, fi: int) -> bool {
    0 <= fi < table.schedulers@.len() ==> forall|i: int|
        0 <= i < table.schedulers@[fi].num_pieces ==> (#[trigger] table.schedulers@[fi].availability@[i]) < u32::MAX
}

/// Replacing what the peer is counted for in file `fi`: `old_bits` are
/// uncounted, then `new_bits` counted.
pub open spec fn recounted(old_t: &SchedulerTable, new_t: &SchedulerTable, fi: int, old_bits: Seq<bool>, new_bits: Seq<bool>) -> bool {
    &&& new_t.wf()
    &&& fi < old_t.schedulers@.len() ==> exists|mid: BlockScheduler|
        old_t.schedulers@[fi].bitfield_removed(&mid, old_bits) && mid.bitfield_added(
            &new_t.schedulers@[fi],
            new_bits,
        ) && new_t.only_changed(old_t, fi)
    &&& fi >= old_t.schedulers@.len() ==> new_t.schedulers@ == old_t.schedulers@
}

/// A data stream of a link, and the block `(fi, pi, bi)` it is fetching.
#[derive(Debug, Clone, Copy)]
pub struct StreamSlot {
    pub id: usize,
    pub active: Option<(usize, u32, u32)>,
}

/// The key of a block task.
pub open spec fn task_key(t: BlockTask) -> (usize, u32, u32) {
    (t.fi, t.pi, t.bi)
}

/// `k` is the position of stream `id`.
pub open spec fn slot_pos(s: Seq<StreamSlot>, id: usize, k: int) -> bool {
    0 <= k < s.len() && s[k].id == id
}

/// The streams with stream `id` idle.
pub open spec fn with_idle(s: Seq<StreamSlot>, id: usize) -> Seq<StreamSlot> {
    Seq::new(s.len(), |k: int| if s[k].id == id { StreamSlot { id, active: None } } else { s[k] })
}

/// The streams without stream `id`.
pub open spec fn without_stream(s: Seq<StreamSlot>, id: usize) -> Seq<StreamSlot> {
    if exists|k: int| slot_pos(s, id, k) {
        s.remove(choose|k: int| slot_pos(s, id, k))
    } else {
        s
    }
}

/// Entry `e` of what `assign_idle` handed out went to an idle stream, among
/// the first `bound`, that now fetches its block.
pub open spec fn served(olds: Seq<StreamSlot>, news: Seq<StreamSlot>, e: (usize, BlockTask), bound: int) -> bool {
    exists|k: int| 0 <= k < bound && #[trigger] slot_pos(news, e.0, k) && olds[k].active is None && news[k].active == Some(task_key(e.1))
}

/// `new` is `old` after handing out `tasks` in turn.
pub open spec fn pick_chain(
    old: Seq<BlockScheduler>,
    new: Seq<BlockScheduler>,
    avail: Seq<PeerAvail>,
    endgame: bool,
    tasks: Seq<BlockTask>,
) -> bool
    decreases tasks.len(),
{
    if tasks.len() == 0 {
        new == old
    } else {
        exists|mid: Seq<BlockScheduler>|
            pick_chain(old, mid, avail, endgame, tasks.drop_last()) && #[trigger] picked_from(mid, new, avail, endgame, tasks.last())
    }
}

/// The peer's availability of each file, the link's health and its data
/// streams.
pub struct PeerLink {
    /// One entry per file.
    pub peer_avail: Vec<PeerAvail>,
    pub health: LinkHealth,
    /// The open data streams.
    pub streams: Vec<StreamSlot>,
    /// The identifier of the next stream.
    pub next_stream: usize,
}

impl PeerLink {
    /// A link that knows nothing of a flow of `num_files` files.
    pub fn new(num_files: usize) -> (res: Self)
        ensures
            res.peer_avail@.len() == num_files,
            forall|i: int| 0 <= i < num_files ==> #[trigger] res.peer_avail@[i] is Unknown,
            res.health == LinkHealth::new_spec(),
            res.streams@.len() == 0,
            res.next_stream == 0,
    {
        let mut v: Vec<PeerAvail> = Vec::new();
        let mut i: usize = 0;
        while i < num_files
            invariant
                i <= num_files,
                v@.len() == i,
                forall|k: int| 0 <= k < i ==> #[trigger] v@[k] is Unknown,
            decreases num_files - i,
        {
            v.push(PeerAvail::Unknown);
            i = i + 1;
        }
        PeerLink { peer_avail: v, health: LinkHealth::new(), streams: Vec::new(), next_stream: 0 }
    }

    /// Swaps what the peer is counted for in file `fi` for `new_bits`.
    fn recount(&self, table: &mut SchedulerTable, fi: usize, num: usize, new_bits: &Vec<bool>)
        requires
            old(table).wf(),
            fi < self.peer_avail@.len(),
            room_for_peer(old(table), fi as int),
        ensures
            recounted(old(table), final(table), fi as int, self.peer_avail@[fi as int].bits(num as nat), new_bits@),
    {
        let old_bits = self.peer_avail[fi].as_bitfield(num);
        let ghost t0 = *table;
        table.remove_peer_bitfield(fi, old_bits.as_slice());
        let ghost t1 = *table;
        if fi < table.schedulers.len() {
            assert(t1.schedulers@[fi as int].can_add_bitfield(new_bits@)) by {
                assert forall|i: int|
                    0 <= i < new_bits@.len() && i < t1.schedulers@[fi as int].num_pieces && new_bits@[i]
                    implies #[trigger] t1.schedulers@[fi as int].availability@[i] < u32::MAX by {
                    assert(t0.schedulers@[fi as int].availability@[i] < u32::MAX);
                }
            }
        }
        table.add_peer_bitfield(fi, new_bits.as_slice());
        proof {
            if fi < t0.schedulers@.len() {
                let mid = t1.schedulers@[fi as int];
                assert(t0.schedulers@[fi as int].bitfield_removed(&mid, old_bits@));
                assert(table.schedulers@ =~= t0.schedulers@.update(fi as int, table.schedulers@[fi as int]));
            }
        }
    }

    /// The peer has every piece of file `fi` (of `num` pieces).
    pub fn on_have_all(&mut self, table: &mut SchedulerTable, fi: usize, num: usize)
        requires
            old(table).wf(),
            room_for_peer(old(table), fi as int),
        ensures
            fi < old(self).peer_avail@.len() ==> recounted(
                old(table),
                final(table),
                fi as int,
                old(self).peer_avail@[fi as int].bits(num as nat),
                Seq::new(num as nat, |i: int| true),
            ) && final(self).peer_avail@ == old(self).peer_avail@.update(fi as int, PeerAvail::HaveAll),
            fi >= old(self).peer_avail@.len() ==> final(table).schedulers@ == old(table).schedulers@
                && final(self).peer_avail@ == old(self).peer_avail@,
            final(self).health == old(self).health,
            final(self).streams@ == old(self).streams@,
            final(self).next_stream == old(self).next_stream,
    {
        if fi < self.peer_avail.len() {
            let all = filled(num, true);
            self.recount(table, fi, num, &all);
            self.peer_avail.set(fi, PeerAvail::HaveAll);
        }
    }

    /// The peer has no piece of file `fi`.
    pub fn on_have_none(&mut self, table: &mut SchedulerTable, fi: usize, num: usize)
        requires
            old(table).wf(),
            room_for_peer(old(table), fi as int),
        ensures
            fi < old(self).peer_avail@.len() ==> recounted(
                old(table),
                final(table),
                fi as int,
                old(self).peer_avail@[fi as int].bits(num as nat),
                Seq::<bool>::empty(),
            ) && final(self).peer_avail@ == old(self).peer_avail@.update(fi as int, PeerAvail::HaveNone),
            fi >= old(self).peer_avail@.len() ==> final(table).schedulers@ == old(table).schedulers@
                && final(self).peer_avail@ == old(self).peer_avail@,
            final(self).health == old(self).health,
            final(self).streams@ == old(self).streams@,
            final(self).next_stream == old(self).next_stream,
    {
        if fi < self.peer_avail.len() {
            let none: Vec<bool> = Vec::new();
            self.recount(table, fi, num, &none);
            self.peer_avail.set(fi, PeerAvail::HaveNone);
        }
    }

    /// The peer sent its bitmap of file `fi`.
    pub fn on_have_bitmap(&mut self, table: &mut SchedulerTable, fi: usize, num: usize, bitmap: &[u8])
        requires
            old(table).wf(),
            room_for_peer(old(table), fi as int),
        ensures
            fi < old(self).peer_avail@.len() ==> recounted(
                old(table),
                final(table),
                fi as int,
                old(self).peer_avail@[fi as int].bits(num as nat),
                decode_bitmap(bitmap@, num as nat),
            ) && final(self).peer_avail@.len() == old(self).peer_avail@.len()
                && (final(self).peer_avail@[fi as int] matches PeerAvail::Bitmap(w) && w@ == decode_bitmap(bitmap@, num as nat))
                && forall|j: int| 0 <= j < old(self).peer_avail@.len() && j != fi ==> #[trigger] final(self).peer_avail@[j] == old(self).peer_avail@[j],
            fi >= old(self).peer_avail@.len() ==> final(table).schedulers@ == old(table).schedulers@
                && final(self).peer_avail@ == old(self).peer_avail@,
            final(self).health == old(self).health,
            final(self).streams@ == old(self).streams@,
            final(self).next_stream == old(self).next_stream,
    {
        if fi < self.peer_avail.len() {
            let new_bits = bytes_to_bitfield(bitmap, num);
            self.recount(table, fi, num, &new_bits);
            self.peer_avail.set(fi, PeerAvail::Bitmap(new_bits));
        }
    }

    /// The peer announced piece `pi` of file `fi`: the piece is counted and
    /// the peer's availability records it.
    pub fn on_have_piece(&mut self, table: &mut SchedulerTable, fi: usize, pi: usize, num: usize)
        requires
            old(table).wf(),
            fi < old(table).schedulers@.len() ==> old(table).schedulers@[fi as int].can_add_have(pi),
        ensures
            final(table).wf(),
            fi < old(self).peer_avail@.len() && fi < old(table).schedulers@.len() ==> final(table).only_changed(old(table), fi as int)
                && old(table).schedulers@[fi as int].have_added(&final(table).schedulers@[fi as int], pi),
            fi < old(self).peer_avail@.len() ==> final(self).peer_avail@.len() == old(self).peer_avail@.len()
                && have_piece_recorded(old(self).peer_avail@[fi as int], final(self).peer_avail@[fi as int], pi, num)
                && forall|j: int| 0 <= j < old(self).peer_avail@.len() && j != fi ==> #[trigger] final(self).peer_avail@[j] == old(self).peer_avail@[j],
            fi >= old(self).peer_avail@.len() ==> final(table).schedulers@ == old(table).schedulers@
                && final(self).peer_avail@ == old(self).peer_avail@,
            final(self).health == old(self).health,
            final(self).streams@ == old(self).streams@,
            final(self).next_stream == old(self).next_stream,
    {
        if fi < self.peer_avail.len() {
            table.add_peer_have(fi, pi);
            let mut a = self.peer_avail.remove(fi);
            a.record_have_piece(pi, num);
            self.peer_avail.insert(fi, a);
            assert forall|j: int| 0 <= j < old(self).peer_avail@.len() && j != fi implies #[trigger] self.peer_avail@[j] == old(self).peer_avail@[j] by {
            }
        }
    }
}

impl PeerLink {
    /// Stream identifiers are distinct and below `next_stream`.
    pub open spec fn streams_wf(&self) -> bool {
        &&& forall|i: int, j: int| 0 <= i < j < self.streams@.len() ==> (#[trigger] self.streams@[i]).id != (#[trigger] self.streams@[j]).id
        &&& forall|i: int| 0 <= i < self.streams@.len() ==> (#[trigger] self.streams@[i]).id < self.next_stream
    }

    /// Only the streams changed.
    pub open spec fn only_streams(&self, old_link: &Self) -> bool {
        &&& self.peer_avail@ == old_link.peer_avail@
        &&& self.health == old_link.health
        &&& self.next_stream == old_link.next_stream
    }

    /// Adds a data stream fetching `active`; returns its identifier.
    pub fn open_stream(&mut self, active: Option<(usize, u32, u32)>) -> (id: usize)
        requires
            old(self).streams_wf(),
            old(self).next_stream < usize::MAX,
        ensures
            final(self).streams_wf(),
            id == old(self).next_stream,
            final(self).next_stream == old(self).next_stream + 1,
            final(self).streams@ == old(self).streams@.push(StreamSlot { id, active }),
            final(self).peer_avail@ == old(self).peer_avail@,
            final(self).health == old(self).health,
    {
        let id = self.next_stream;
        self.streams.push(StreamSlot { id, active });
        self.next_stream = id + 1;
        id
    }

    /// Position of stream `id`.
    fn stream_index(&self, id: usize) -> (res: Option<usize>)
        requires
            self.streams_wf(),
        ensures
            match res {
                Some(k) => slot_pos(self.streams@, id, k as int),
                None => forall|k: int| !slot_pos(self.streams@, id, k),
            },
    {
        let mut i: usize = 0;
        while i < self.streams.len()
            invariant
                i <= self.streams@.len(),
                forall|k: int| 0 <= k < i ==> (#[trigger] self.streams@[k]).id != id,
            decreases self.streams@.len() - i,
        {
            if self.streams[i].id == id {
                return Some(i);
            }
            i = i + 1;
        }
        None
    }

    /// Stream `id` finished its block and is idle.
    fn set_idle(&mut self, id: usize)
        requires
            old(self).streams_wf(),
        ensures
            final(self).streams_wf(),
            final(self).streams@ == with_idle(old(self).streams@, id),
            final(self).only_streams(old(self)),
    {
        match self.stream_index(id) {
            Some(k) => {
                self.streams.set(k, StreamSlot { id, active: None });
                assert forall|q: int| 0 <= q < self.streams@.len() implies #[trigger] self.streams@[q] == with_idle(old(self).streams@, id)[q] by {
                    if q != k {
                        assert(old(self).streams@[q].id != old(self).streams@[k as int].id) by {
                            if q < k {
                                assert(old(self).streams@[q].id != old(self).streams@[k as int].id);
                            } else {
                                assert(old(self).streams@[k as int].id != old(self).streams@[q].id);
                            }
                        }
                    }
                }
                assert(self.streams@ =~= with_idle(old(self).streams@, id));
            },
            None => {
                assert forall|q: int| 0 <= q < self.streams@.len() implies #[trigger] with_idle(old(self).streams@, id)[q] == self.streams@[q] by {
                    assert(!slot_pos(old(self).streams@, id, q));
                }
                assert(self.streams@ =~= with_idle(old(self).streams@, id));
            },
        }
    }

    /// Gives each idle stream, in order, the next block the scheduler hands
    /// out for this peer; returns the streams served and their tasks. A
    /// stream is left idle only once the scheduler has nothing more for the
    /// peer.
    #[verifier::rlimit(50)]
    pub fn assign_idle(&mut self, table: &mut SchedulerTable, endgame: bool) -> (res: Vec<(usize, BlockTask)>)
        requires
            old(table).wf(),
            old(self).streams_wf(),
        ensures
            final(table).wf(),
            final(self).streams_wf(),
            final(self).only_streams(old(self)),
            pick_chain(old(table).schedulers@, final(table).schedulers@, old(self).peer_avail@, endgame, res@.map_values(|e: (usize, BlockTask)| e.1)),
            final(self).streams@.len() == old(self).streams@.len(),
            forall|k: int| 0 <= k < old(self).streams@.len() ==> (#[trigger] final(self).streams@[k]).id == old(self).streams@[k].id,
            forall|k: int|
                0 <= k < old(self).streams@.len() && (#[trigger] old(self).streams@[k]).active is Some ==> final(self).streams@[k]
                    == old(self).streams@[k],
            forall|k: int|
                0 <= k < old(self).streams@.len() && (#[trigger] final(self).streams@[k]).active != old(self).streams@[k].active
                    ==> exists|j: int| 0 <= j < res@.len() && res@[j].0 == final(self).streams@[k].id
                        && final(self).streams@[k].active == Some(task_key(#[trigger] res@[j].1)),
            forall|j: int|
                0 <= j < res@.len() ==> served(old(self).streams@, final(self).streams@, #[trigger] res@[j], old(self).streams@.len() as int),
            forall|k: int|
                0 <= k < old(self).streams@.len() && (#[trigger] old(self).streams@[k]).active is None
                    && final(self).streams@[k].active is None ==> final(table).nothing_to_pick(old(self).peer_avail@, endgame),
    {
        let mut out: Vec<(usize, BlockTask)> = Vec::new();
        let mut i: usize = 0;
        proof {
            assert(out@.map_values(|e: (usize, BlockTask)| e.1) =~= Seq::<BlockTask>::empty());
        }
        while i < self.streams.len()
            invariant
                i <= self.streams@.len(),
                table.wf(),
                self.streams_wf(),
                self.only_streams(old(self)),
                self.streams@.len() == old(self).streams@.len(),
                forall|k: int| 0 <= k < old(self).streams@.len() ==> (#[trigger] self.streams@[k]).id == old(self).streams@[k].id,
                forall|k: int| i <= k < old(self).streams@.len() ==> #[trigger] self.streams@[k] == old(self).streams@[k],
                forall|k: int|
                    0 <= k < old(self).streams@.len() && (#[trigger] old(self).streams@[k]).active is Some ==> self.streams@[k]
                        == old(self).streams@[k],
                forall|k: int|
                    0 <= k < old(self).streams@.len() && (#[trigger] self.streams@[k]).active != old(self).streams@[k].active
                        ==> exists|j: int| 0 <= j < out@.len() && out@[j].0 == self.streams@[k].id
                            && self.streams@[k].active == Some(task_key(#[trigger] out@[j].1)),
                forall|j: int| 0 <= j < out@.len() ==> served(old(self).streams@, self.streams@, #[trigger] out@[j], i as int),
                pick_chain(old(table).schedulers@, table.schedulers@, old(self).peer_avail@, endgame, out@.map_values(|e: (usize, BlockTask)| e.1)),
                forall|k: int|
                    0 <= k < i && (#[trigger] old(self).streams@[k]).active is None && self.streams@[k].active is None
                        ==> table.nothing_to_pick(old(self).peer_avail@, endgame),
            decreases self.streams@.len() - i,
        {
            if self.streams[i].active.is_none() {
                let ghost before = table.schedulers@;
                let ghost table_before = *table;
                let ghost tasks = out@.map_values(|e: (usize, BlockTask)| e.1);
                match table.pick_block(self.peer_avail.as_slice(), endgame) {
                    Some(t) => {
                        let id = self.streams[i].id;
                        let ghost streams_before = self.streams@;
                        let ghost out_before = out@;
                        self.streams.set(i, StreamSlot { id, active: Some((t.fi, t.pi, t.bi)) });
                        out.push((id, t));
                        proof {
                            let tasks2 = out@.map_values(|e: (usize, BlockTask)| e.1);
                            assert(tasks2.drop_last() =~= tasks);
                            assert(tasks2.last() == t);
                            assert(picked_from(before, table.schedulers@, old(self).peer_avail@, endgame, t));
                            assert(pick_chain(old(table).schedulers@, before, old(self).peer_avail@, endgame, tasks2.drop_last()));
                            assert(pick_chain(old(table).schedulers@, table.schedulers@, old(self).peer_avail@, endgame, tasks2));
                            assert forall|k: int|
                                0 <= k < old(self).streams@.len() && (#[trigger] self.streams@[k]).active != old(self).streams@[k].active
                                implies exists|j: int| 0 <= j < out@.len() && out@[j].0 == self.streams@[k].id
                                    && self.streams@[k].active == Some(task_key(#[trigger] out@[j].1)) by {
                                if k == i {
                                    assert(out@[out@.len() - 1] == (id, t));
                                } else {
                                    assert(self.streams@[k] == streams_before[k]);
                                    let j = choose|j: int| 0 <= j < out_before.len() && out_before[j].0 == streams_before[k].id
                                        && streams_before[k].active == Some(task_key(#[trigger] out_before[j].1));
                                    assert(out@[j] == out_before[j]);
                                }
                            }
                            assert forall|j: int| 0 <= j < out@.len() implies served(old(self).streams@, self.streams@, #[trigger] out@[j], i + 1) by {
                                if j == out@.len() - 1 {
                                    assert(out@[j] == (id, t));
                                    assert(slot_pos(self.streams@, out@[j].0, i as int));
                                } else {
                                    assert(out@[j] == out_before[j]);
                                    assert(served(old(self).streams@, streams_before, out_before[j], i as int));
                                    let k = choose|k: int| 0 <= k < i && #[trigger] slot_pos(streams_before, out_before[j].0, k)
                                        && old(self).streams@[k].active is None && streams_before[k].active == Some(task_key(out_before[j].1));
                                    assert(self.streams@[k] == streams_before[k]);
                                    assert(slot_pos(self.streams@, out@[j].0, k));
                                }
                            }
                            assert forall|k: int|
                                0 <= k < i + 1 && (#[trigger] old(self).streams@[k]).active is None && self.streams@[k].active is None
                                implies table.nothing_to_pick(old(self).peer_avail@, endgame) by {
                                if k < i {
                                    assert(self.streams@[k] == streams_before[k]);
                                    assert(table_before.nothing_to_pick(old(self).peer_avail@, endgame));
                                    assert(false);
                                }
                            }
                        }
                    },
                    None => {
                        proof {
                            assert(table_before.nothing_to_pick(old(self).peer_avail@, endgame));
                            assert(table.nothing_to_pick(old(self).peer_avail@, endgame));
                        }
                    },
                }
            }
            i = i + 1;
        }
        out
    }

    /// A stream may be added: fewer streams than the mode allows. Then the
    /// block for it is handed out; `None` when there is no room or no block.
    pub fn scale_up(&self, table: &mut SchedulerTable, endgame: bool) -> (res: Option<BlockTask>)
        requires
            old(table).wf(),
        ensures
            final(table).wf(),
            self.streams@.len() >= max_active_spec(endgame) ==> res is None && final(table).schedulers@ == old(table).schedulers@,
            self.streams@.len() < max_active_spec(endgame) ==> match res {
                None => final(table).schedulers@ == old(table).schedulers@ && old(table).nothing_to_pick(self.peer_avail@, endgame),
                Some(t) => old(table).picked(final(table), self.peer_avail@, endgame, t),
            },
    {
        if self.streams.len() < max_active(endgame) {
            table.pick_block(self.peer_avail.as_slice(), endgame)
        } else {
            None
        }
    }

    /// Stream `stream_id` fetched block `(pi, bi)` of file `fi`, with hash
    /// `hash`: the stream is idle, the block is recorded, and a piece it
    /// completes is verified (`Some` of the outcome; `None` when the piece
    /// is not complete yet); the health counts one success.
    pub fn on_block_ok(
        &mut self,
        flow: &mut FlowState,
        meta: &Metainfo,
        stream_id: usize,
        fi: usize,
        pi: u32,
        bi: u32,
        hash: [u8; 32],
    ) -> (res: Option<bool>)
        requires
            old(self).streams_wf(),
            old(self).health.wf(),
            old(flow).wf(),
            old(flow).matches(meta),
            old(flow).hash_rows(),
        ensures
            final(self).streams_wf(),
            final(self).health.wf(),
            final(self).streams@ == with_idle(old(self).streams@, stream_id),
            final(self).peer_avail@ == old(self).peer_avail@,
            final(self).next_stream == old(self).next_stream,
            old(self).health.ok_step(final(self).health),
            final(flow).wf(),
            final(flow).matches(meta),
            final(flow).hash_rows(),
            exists|mid: FlowState| {
                &&& #[trigger] mid.have@ == old(flow).have@
                &&& mid.downloaded == old(flow).downloaded
                &&& mid.complete == old(flow).complete
                &&& fi >= old(flow).table.schedulers@.len() ==> mid.table.schedulers@ == old(flow).table.schedulers@ && res is None
                &&& fi < old(flow).table.schedulers@.len() ==> mid.table.only_changed(&old(flow).table, fi as int)
                    && old(flow).table.schedulers@[fi as int].block_done_step(&mid.table.schedulers@[fi as int], pi, bi, hash, res is Some)
                &&& res is None ==> *final(flow) == mid
                &&& res matches Some(r) ==> mid.verify_step(final(flow), meta, fi as int, pi, r)
            },
    {
        self.set_idle(stream_id);
        let ready = flow.block_done(fi, pi, bi, hash);
        let ghost mid = *flow;
        let res = if ready {
            Some(flow.verify_and_complete(meta, fi, pi))
        } else {
            None
        };
        self.health.on_block_ok();
        proof {
            assert(mid.have@ == old(flow).have@);
        }
        res
    }

    /// Stream `stream_id` failed on block `(pi, bi)` of file `fi`: the
    /// stream is idle, the block goes back to the scheduler, and the health
    /// counts one failure.
    pub fn on_block_fail(&mut self, table: &mut SchedulerTable, stream_id: usize, fi: usize, pi: u32, bi: u32)
        requires
            old(self).streams_wf(),
            old(self).health.recent_fails < u32::MAX,
            old(table).wf(),
        ensures
            final(self).streams_wf(),
            final(self).streams@ == with_idle(old(self).streams@, stream_id),
            final(self).peer_avail@ == old(self).peer_avail@,
            final(self).next_stream == old(self).next_stream,
            final(self).health.recent_fails == old(self).health.recent_fails + 1,
            final(self).health.blocks_ok == old(self).health.blocks_ok,
            final(table).wf(),
            fi >= old(table).schedulers@.len() ==> final(table).schedulers@ == old(table).schedulers@,
            fi < old(table).schedulers@.len() ==> final(table).only_changed(old(table), fi as int)
                && old(table).schedulers@[fi as int].block_failed_step(&final(table).schedulers@[fi as int], pi, bi),
    {
        self.set_idle(stream_id);
        table.block_failed(fi, pi, bi);
        self.health.on_block_fail();
    }

    /// Stream `stream_id` is gone: it is dropped; a block it was fetching
    /// goes back to the scheduler and counts as a failure. Returns whether
    /// any stream is left.
    pub fn on_stream_dead(&mut self, table: &mut SchedulerTable, stream_id: usize) -> (res: bool)
        requires
            old(self).streams_wf(),
            old(self).health.recent_fails < u32::MAX,
            old(table).wf(),
        ensures
            final(self).streams_wf(),
            final(self).streams@ == without_stream(old(self).streams@, stream_id),
            final(self).peer_avail@ == old(self).peer_avail@,
            final(self).next_stream == old(self).next_stream,
            final(table).wf(),
            res == (final(self).streams@.len() > 0),
            match active_of(old(self).streams@, stream_id) {
                Some((fi, pi, bi)) => {
                    &&& final(self).health.recent_fails == old(self).health.recent_fails + 1
                    &&& final(self).health.blocks_ok == old(self).health.blocks_ok
                    &&& fi >= old(table).schedulers@.len() ==> final(table).schedulers@ == old(table).schedulers@
                    &&& fi < old(table).schedulers@.len() ==> final(table).only_changed(old(table), fi as int)
                        && old(table).schedulers@[fi as int].block_failed_step(&final(table).schedulers@[fi as int], pi, bi)
                },
                None => final(self).health == old(self).health && final(table).schedulers@ == old(table).schedulers@,
            },
    {
        match self.stream_index(stream_id) {
            Some(k) => {
                let slot = self.streams.remove(k);
                proof {
                    assert(slot_pos(old(self).streams@, stream_id, k as int));
                    let c = choose|q: int| slot_pos(old(self).streams@, stream_id, q);
                    assert(c == k) by {
                        if c < k {
                            assert(old(self).streams@[c].id != old(self).streams@[k as int].id);
                        } else if c > k {
                            assert(old(self).streams@[k as int].id != old(self).streams@[c].id);
                        }
                    }
                    assert forall|i: int, j: int| 0 <= i < j < self.streams@.len() implies (#[trigger] self.streams@[i]).id != (#[trigger] self.streams@[j]).id by {
                        let oi = if i < k { i } else { i + 1 };
                        let oj = if j < k { j } else { j + 1 };
                        assert(old(self).streams@[oi].id != old(self).streams@[oj].id);
                    }
                }
                match slot.active {
                    Some((fi, pi, bi)) => {
                        table.block_failed(fi, pi, bi);
                        self.health.on_block_fail();
                    },
                    None => {},
                }
            },
            None => {},
        }
        self.streams.len() > 0
    }
}

/// The block stream `id` is fetching, if that stream exists and is busy.
pub open spec fn active_of(s: Seq<StreamSlot>, id: usize) -> Option<(usize, u32, u32)> {
    if exists|k: int| slot_pos(s, id, k) {
        s[choose|k: int| slot_pos(s, id, k)].active
    } else {
        None
    }
}

/// Data streams a link may keep; see [`max_active`].
pub open spec fn max_active_spec(endgame_mode: bool) -> usize {
    if endgame_mode { MAX_STREAMS } else { DEFAULT_STREAMS }
}

impl LinkHealth {
    /// The health of a new link.
    pub open spec fn new_spec() -> LinkHealth {
        LinkHealth { recent_fails: 0, blocks_ok: 0 }
    }

    /// `new` is the health after one more successful block.
    pub open spec fn ok_step(&self, new: Self) -> bool {
        &&& self.blocks_ok + 1 >= INSTABILITY_RESET_WINDOW ==> new.recent_fails == 0 && new.blocks_ok == 0
        &&& self.blocks_ok + 1 < INSTABILITY_RESET_WINDOW ==> new.recent_fails == self.recent_fails && new.blocks_ok == self.blocks_ok + 1
    }
}

} // verus!
