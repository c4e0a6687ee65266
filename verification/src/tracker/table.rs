//! The tracker's table of peers: announces add, refresh or drop a peer and
//! purge the flow's stale peers; scrapes count a flow's live peers.
use vstd::prelude::*;
use vstd::utf8::encode_utf8;

use crate::clock::unix_now;
use crate::hexstr::{first_non_hex, hex_decode, hex_decode_spec, HexFailure};
use crate::pieces::verify::hashes_equal;
use crate::protocol::bytes::copy_array32;
use super::types::{AnnounceEvent, AnnounceRequest, PeerRecord};

verus! {

/// A peer that has not announced for this many seconds is dropped.
pub const PEER_TTL_SECS: i64 = 3600;

/// Why a hex hash could not be read.
#[derive(Debug, Clone, Copy, PartialEq, Eq, Structural)]
pub enum HexError {
    /// Not 64 bytes of text; the length found.
    WrongLength(usize),
    /// The byte at `index`, read as a character, is not a hex digit.
    InvalidChar { c: char, index: usize },
}

/// Errors of the peer table.
#[derive(Debug, Clone, Copy, PartialEq, Eq, Structural)]
pub enum TrackerError {
    /// The info hash or the peer id is not 64 hex digits.
    InvalidInfoHash(HexError),
}

/// Reading a 32-byte hash written as 64 hex digits.
pub open spec fn parse_hex32_spec(s: Seq<char>) -> Result<Seq<u8>, HexError> {
    let b = encode_utf8(s);
    if b.len() != 64 {
        Err(HexError::WrongLength(b.len() as usize))
    } else {
        match hex_decode_spec(b) {
            Some(v) => Ok(v),
            None => {
                let k = first_non_hex(b, 0);
                Err(HexError::InvalidChar { c: b[k] as char, index: k as usize })
            },
        }
    }
}

/// Reads a 32-byte hash written as 64 hex digits.
pub fn parse_hex32(s: &str) -> (res: Result<[u8; 32], HexError>)
    ensures
        match parse_hex32_spec(s@) {
            Ok(v) => res matches Ok(a) && a@ == v,
            Err(e) => res == Err::<[u8; 32], HexError>(e),
        },
{
    let bytes = s.as_bytes();
    if bytes.len() != 64 {
        return Err(HexError::WrongLength(bytes.len()));
    }
    match hex_decode(bytes) {
        Err(HexFailure::InvalidChar { c, index }) => Err(HexError::InvalidChar { c, index }),
        Err(_) => {
            proof {
                assert(bytes@.len() % 2 == 0);
            }
            Err(HexError::WrongLength(bytes.len()))
        },
        Ok(v) => {
            let arr = copy_array32(v.as_slice(), 0);
            assert(v@.subrange(0, 32) =~= v@);
            Ok(arr)
        },
    }
}

/// The record is peer `pid` of flow `ih`.
pub open spec fn has_key(r: PeerRecord, ih: Seq<u8>, pid: Seq<u8>) -> bool {
    r.info_hash@ == ih && r.peer_id@ == pid
}

/// `k` is the first record of peer `pid` of flow `ih`.
pub open spec fn first_with_key(s: Seq<PeerRecord>, ih: Seq<u8>, pid: Seq<u8>, k: int) -> bool {
    &&& 0 <= k < s.len()
    &&& has_key(s[k], ih, pid)
    &&& forall|j: int| 0 <= j < k ==> !has_key(#[trigger] s[j], ih, pid)
}

/// The records with `r` in place of the first record of its peer, or added
/// at the end.
pub open spec fn upsert_spec(s: Seq<PeerRecord>, r: PeerRecord) -> Seq<PeerRecord> {
    if exists|k: int| first_with_key(s, r.info_hash@, r.peer_id@, k) {
        s.update(choose|k: int| first_with_key(s, r.info_hash@, r.peer_id@, k), r)
    } else {
        s.push(r)
    }
}

/// The records without those of peer `pid` of flow `ih`.
pub open spec fn remove_spec(s: Seq<PeerRecord>, ih: Seq<u8>, pid: Seq<u8>) -> Seq<PeerRecord>
    decreases s.len(),
{
    if s.len() == 0 {
        s
    } else {
        let r = remove_spec(s.drop_last(), ih, pid);
        if has_key(s.last(), ih, pid) {
            r
        } else {
            r.push(s.last())
        }
    }
}

/// The records without those of flow `ih` last seen at or before `cutoff`.
pub open spec fn purge_spec(s: Seq<PeerRecord>, ih: Seq<u8>, cutoff: int) -> Seq<PeerRecord>
    decreases s.len(),
{
    if s.len() == 0 {
        s
    } else {
        let r = purge_spec(s.drop_last(), ih, cutoff);
        if s.last().info_hash@ == ih && s.last().last_seen <= cutoff {
            r
        } else {
            r.push(s.last())
        }
    }
}

/// The records of flow `ih` other than peer `pid`'s.
pub open spec fn others_spec(s: Seq<PeerRecord>, ih: Seq<u8>, pid: Seq<u8>) -> Seq<PeerRecord>
    decreases s.len(),
{
    if s.len() == 0 {
        s
    } else {
        let r = others_spec(s.drop_last(), ih, pid);
        if s.last().info_hash@ == ih && s.last().peer_id@ != pid {
            r.push(s.last())
        } else {
            r
        }
    }
}

/// `r` is the record an announce of `req` at time `now` stores.
pub open spec fn record_for(r: PeerRecord, req: AnnounceRequest, ih: Seq<u8>, pid: Seq<u8>, now: i64) -> bool {
    &&& r.info_hash@ == ih
    &&& r.peer_id@ == pid
    &&& r.addr == req.addr
    &&& r.uploaded == req.uploaded
    &&& r.downloaded == req.downloaded
    &&& r.left == req.left
    &&& r.last_seen == now
    &&& r.completed == (req.event == AnnounceEvent::Completed || req.left == 0)
}

/// Live records of flow `ih` of one kind: fillers (`kind == 0`) or
/// drainers (any other kind).
pub open spec fn count_live(s: Seq<PeerRecord>, ih: Seq<u8>, cutoff: int, kind: int) -> nat
    decreases s.len(),
{
    if s.len() == 0 {
        0
    } else {
        let r = s.last();
        let hit = r.info_hash@ == ih && r.last_seen > cutoff && (if kind == 0 {
            r.filler()
        } else {
            !r.filler()
        });
        count_live(s.drop_last(), ih, cutoff, kind) + if hit { 1nat } else { 0nat }
    }
}

proof fn lemma_count_live_bound(s: Seq<PeerRecord>, ih: Seq<u8>, cutoff: int, kind: int)
    ensures
        count_live(s, ih, cutoff, kind) <= s.len(),
    decreases s.len(),
{
    if s.len() > 0 {
        lemma_count_live_bound(s.drop_last(), ih, cutoff, kind);
    }
}

/// A peer that completed a flow: the flow's hash and the peer's.
#[derive(Debug, Clone, Copy)]
pub struct Completion {
    pub info_hash: [u8; 32],
    pub peer_id: [u8; 32],
}

/// Peer `pid` of flow `ih` is among the completions.
pub open spec fn ever_completed(s: Seq<Completion>, ih: Seq<u8>, pid: Seq<u8>) -> bool {
    exists|k: int| 0 <= k < s.len() && (#[trigger] s[k]).info_hash@ == ih && s[k].peer_id@ == pid
}

/// No peer of a flow is listed twice among the completions.
pub open spec fn completions_distinct(s: Seq<Completion>) -> bool {
    forall|i: int, j: int|
        0 <= i < j < s.len() ==> !(#[trigger] s[i].info_hash@ == #[trigger] s[j].info_hash@ && s[i].peer_id@ == s[j].peer_id@)
}

/// How many completions flow `ih` has.
pub open spec fn count_completions(s: Seq<Completion>, ih: Seq<u8>) -> nat
    decreases s.len(),
{
    if s.len() == 0 {
        0
    } else {
        count_completions(s.drop_last(), ih) + if s.last().info_hash@ == ih { 1nat } else { 0nat }
    }
}

proof fn lemma_count_completions_bound(s: Seq<Completion>, ih: Seq<u8>)
    ensures
        count_completions(s, ih) <= s.len(),
    decreases s.len(),
{
    if s.len() > 0 {
        lemma_count_completions_bound(s.drop_last(), ih);
    }
}

/// The completions after peer `pid` of flow `ih` was seen with `done`: one
/// more at the end when it is done and was not yet listed, else unchanged.
pub open spec fn noted(old: Seq<Completion>, new: Seq<Completion>, ih: Seq<u8>, pid: Seq<u8>, done: bool) -> bool {
    if done && !ever_completed(old, ih, pid) {
        &&& new.len() == old.len() + 1
        &&& new.drop_last() == old
        &&& new.last().info_hash@ == ih
        &&& new.last().peer_id@ == pid
    } else {
        new == old
    }
}

/// The completions after an announce of `req`: a well-formed announce other
/// than `Stopped` that completes (says so, or has nothing left) notes its
/// peer; any other announce leaves them unchanged.
pub open spec fn completion_outcome(old: Seq<Completion>, new: Seq<Completion>, req: AnnounceRequest) -> bool {
    match (parse_hex32_spec(req.info_hash@), parse_hex32_spec(req.peer_id@)) {
        (Ok(ih), Ok(pid)) => noted(
            old,
            new,
            ih,
            pid,
            req.event != AnnounceEvent::Stopped && (req.event == AnnounceEvent::Completed || req.left == 0),
        ),
        _ => new == old,
    }
}

/// The outcome of an announce of `req` at time `now` that took the table
/// from `old` to `new` and answered `res`; see [`PeerTable::announce_at`].
pub open spec fn announce_outcome(
    old: Seq<PeerRecord>,
    new: Seq<PeerRecord>,
    req: AnnounceRequest,
    now: i64,
    res: Result<Vec<PeerRecord>, TrackerError>,
) -> bool {
    match parse_hex32_spec(req.info_hash@) {
        Err(e) => res == Err::<Vec<PeerRecord>, TrackerError>(TrackerError::InvalidInfoHash(e))
            && new == old,
        Ok(ih) => match parse_hex32_spec(req.peer_id@) {
            Err(e) => res == Err::<Vec<PeerRecord>, TrackerError>(TrackerError::InvalidInfoHash(e))
                && new == old,
            Ok(pid) => {
                &&& req.event == AnnounceEvent::Stopped ==> new == purge_spec(
                    remove_spec(old, ih, pid),
                    ih,
                    now - PEER_TTL_SECS,
                )
                &&& req.event != AnnounceEvent::Stopped ==> exists|r: PeerRecord|
                    record_for(r, req, ih, pid, now) && new == purge_spec(
                        upsert_spec(old, r),
                        ih,
                        now - PEER_TTL_SECS,
                    )
                &&& res matches Ok(v) && v@ == others_spec(new, ih, pid).take(
                    if req.num_want as int <= others_spec(new, ih, pid).len() {
                        req.num_want as int
                    } else {
                        others_spec(new, ih, pid).len() as int
                    },
                )
            },
        },
    }
}

/// The counts a scrape of flow `ih` at time `now` answers: live fillers,
/// live drainers, and every peer that ever completed the flow.
pub open spec fn scrape_outcome(s: Seq<PeerRecord>, c: Seq<Completion>, ih: Seq<u8>, now: i64, res: (u32, u32, u32)) -> bool {
    &&& res.0 == count_live(s, ih, now - PEER_TTL_SECS, 0)
    &&& res.1 == count_live(s, ih, now - PEER_TTL_SECS, 1)
    &&& res.2 == count_completions(c, ih)
}

/// The peers the tracker knows, in the order they first announced, and the
/// peers that completed each flow, in the order they completed.
#[derive(Debug)]
pub struct PeerTable {
    pub records: Vec<PeerRecord>,
    pub completions: Vec<Completion>,
}

impl PeerTable {
    /// No peer of a flow is listed twice among the completions.
    pub open spec fn wf(&self) -> bool {
        completions_distinct(self.completions@)
    }

    /// An empty table.
    pub fn new() -> (res: Self)
        ensures
            res.wf(),
            res.records@.len() == 0,
            res.completions@.len() == 0,
    {
        PeerTable { records: Vec::new(), completions: Vec::new() }
    }

    /// Lists peer `pid` of flow `ih` among the completions unless it is
    /// there already.
    fn note_completion(&mut self, ih: &[u8; 32], pid: &[u8; 32])
        ensures
            final(self).records == old(self).records,
            noted(old(self).completions@, final(self).completions@, ih@, pid@, true),
            old(self).wf() ==> final(self).wf(),
    {
        let mut i: usize = 0;
        while i < self.completions.len()
            invariant
                i <= self.completions@.len(),
                *self == *old(self),
                forall|k: int| 0 <= k < i ==> !((#[trigger] self.completions@[k]).info_hash@ == ih@
                    && self.completions@[k].peer_id@ == pid@),
            decreases self.completions@.len() - i,
        {
            let c = &self.completions[i];
            if hashes_equal(&c.info_hash, ih) && hashes_equal(&c.peer_id, pid) {
                return;
            }
            i = i + 1;
        }
        let ghost before = self.completions@;
        self.completions.push(Completion { info_hash: *ih, peer_id: *pid });
        assert(self.completions@.drop_last() =~= before);
        assert(old(self).wf() ==> self.wf()) by {
            if old(self).wf() {
                assert forall|x: int, y: int| 0 <= x < y < self.completions@.len() implies !(
                    #[trigger] self.completions@[x].info_hash@ == #[trigger] self.completions@[y].info_hash@
                        && self.completions@[x].peer_id@ == self.completions@[y].peer_id@) by {
                    if y < before.len() {
                        assert(self.completions@[x] == before[x] && self.completions@[y] == before[y]);
                    } else {
                        assert(self.completions@[x] == before[x]);
                    }
                }
            }
        }
    }

    fn upsert(&mut self, r: PeerRecord)
        ensures
            final(self).records@ == upsert_spec(old(self).records@, r),
            final(self).completions == old(self).completions,
    {
        let mut i: usize = 0;
        while i < self.records.len()
            invariant
                i <= self.records@.len(),
                *self == *old(self),
                forall|j: int| 0 <= j < i ==> !has_key(#[trigger] self.records@[j], r.info_hash@, r.peer_id@),
            decreases self.records@.len() - i,
        {
            if hashes_equal(&self.records[i].info_hash, &r.info_hash) && hashes_equal(&self.records[i].peer_id, &r.peer_id) {
                assert(self.records@[i as int].info_hash@ == r.info_hash@);
                assert(self.records@[i as int].peer_id@ == r.peer_id@);
                assert(first_with_key(self.records@, r.info_hash@, r.peer_id@, i as int));
                assert forall|k: int| first_with_key(self.records@, r.info_hash@, r.peer_id@, k) implies k == i by {
                    if k > i {
                        assert(has_key(self.records@[i as int], r.info_hash@, r.peer_id@));
                    }
                }
                self.records.set(i, r);
                return;
            }
            assert(!has_key(self.records@[i as int], r.info_hash@, r.peer_id@)) by {
                if has_key(self.records@[i as int], r.info_hash@, r.peer_id@) {
                    assert(self.records@[i as int].info_hash =~= r.info_hash);
                    assert(self.records@[i as int].peer_id =~= r.peer_id);
                }
            }
            i = i + 1;
        }
        self.records.push(r);
    }

    fn remove_key(&mut self, ih: &[u8; 32], pid: &[u8; 32])
        ensures
            final(self).records@ == remove_spec(old(self).records@, ih@, pid@),
            final(self).completions == old(self).completions,
    {
        let mut rest: Vec<PeerRecord> = Vec::new();
        std::mem::swap(&mut self.records, &mut rest);
        let ghost all = rest@;
        let mut kept: Vec<PeerRecord> = Vec::new();
        let ghost mut n: int = 0;
        while rest.len() > 0
            invariant
                0 <= n <= all.len(),
                rest@ == all.subrange(n, all.len() as int),
                kept@ == remove_spec(all.take(n), ih@, pid@),
            decreases rest@.len(),
        {
            assert(all.take(n + 1).drop_last() =~= all.take(n));
            let r = rest.remove(0);
            let same = hashes_equal(&r.info_hash, ih) && hashes_equal(&r.peer_id, pid);
            assert(same == has_key(r, ih@, pid@)) by {
                if has_key(r, ih@, pid@) {
                    assert(r.info_hash =~= *ih);
                    assert(r.peer_id =~= *pid);
                }
            }
            if !same {
                kept.push(r);
            }
            proof {
                n = n + 1;
            }
            assert(rest@ =~= all.subrange(n, all.len() as int));
        }
        assert(all.take(n) =~= all);
        self.records = kept;
    }

    fn purge(&mut self, ih: &[u8; 32], cutoff: i64)
        ensures
            final(self).records@ == purge_spec(old(self).records@, ih@, cutoff as int),
            final(self).completions == old(self).completions,
    {
        let mut rest: Vec<PeerRecord> = Vec::new();
        std::mem::swap(&mut self.records, &mut rest);
        let ghost all = rest@;
        let mut kept: Vec<PeerRecord> = Vec::new();
        let ghost mut n: int = 0;
        while rest.len() > 0
            invariant
                0 <= n <= all.len(),
                rest@ == all.subrange(n, all.len() as int),
                kept@ == purge_spec(all.take(n), ih@, cutoff as int),
            decreases rest@.len(),
        {
            assert(all.take(n + 1).drop_last() =~= all.take(n));
            let r = rest.remove(0);
            let same = hashes_equal(&r.info_hash, ih);
            assert(same == (r.info_hash@ == ih@)) by {
                if r.info_hash@ == ih@ {
                    assert(r.info_hash =~= *ih);
                }
            }
            if !(same && r.last_seen <= cutoff) {
                kept.push(r);
            }
            proof {
                n = n + 1;
            }
            assert(rest@ =~= all.subrange(n, all.len() as int));
        }
        assert(all.take(n) =~= all);
        self.records = kept;
    }

    fn others(&self, ih: &[u8; 32], pid: &[u8; 32], num_want: u32) -> (res: Vec<PeerRecord>)
        ensures
            res@ == others_spec(self.records@, ih@, pid@).take(
                if num_want as int <= others_spec(self.records@, ih@, pid@).len() {
                    num_want as int
                } else {
                    others_spec(self.records@, ih@, pid@).len() as int
                },
            ),
    {
        let mut out: Vec<PeerRecord> = Vec::new();
        let want = num_as_usize(num_want);
        let mut i: usize = 0;
        while i < self.records.len() && out.len() < want
            invariant
                want == num_want,
                i <= self.records@.len(),
                out@.len() <= num_want,
                out@.len() <= others_spec(self.records@.take(i as int), ih@, pid@).len(),
                out@ == others_spec(self.records@.take(i as int), ih@, pid@).take(out@.len() as int),
                out@.len() < num_want ==> out@ == others_spec(self.records@.take(i as int), ih@, pid@),
            decreases self.records@.len() - i,
        {
            proof {
                lemma_others_prefix(self.records@, i as int, ih@, pid@);
            }
            let r = &self.records[i];
            let hit = hashes_equal(&r.info_hash, ih) && !hashes_equal(&r.peer_id, pid);
            assert(hit == (r.info_hash@ == ih@ && r.peer_id@ != pid@)) by {
                if r.info_hash@ == ih@ {
                    assert(r.info_hash =~= *ih);
                }
                if r.peer_id@ == pid@ {
                    assert(r.peer_id =~= *pid);
                }
            }
            assert(self.records@.take(i + 1).drop_last() =~= self.records@.take(i as int));
            if hit {
                out.push(r.duplicate());
            }
            i = i + 1;
            assert(out@ =~= others_spec(self.records@.take(i as int), ih@, pid@).take(out@.len() as int));
        }
        proof {
            lemma_others_prefix(self.records@, i as int, ih@, pid@);
            lemma_others_prefix(self.records@, self.records@.len() as int, ih@, pid@);
            assert(self.records@.take(self.records@.len() as int) =~= self.records@);
            let o = others_spec(self.records@, ih@, pid@);
            let oi = others_spec(self.records@.take(i as int), ih@, pid@);
            if out@.len() < num_want {
                assert(i == self.records@.len());
                assert(oi == o);
                assert(o.take(o.len() as int) =~= o);
            } else {
                assert(out@.len() == num_want);
                assert(out@.len() <= oi.len());
                assert(o.take(out@.len() as int) =~= oi.take(out@.len() as int));
            }
        }
        assert(out@ =~= others_spec(self.records@, ih@, pid@).take(
            if num_want as int <= others_spec(self.records@, ih@, pid@).len() {
                num_want as int
            } else {
                others_spec(self.records@, ih@, pid@).len() as int
            },
        ));
        out
    }

    /// An announce at Unix time `now`: a `Stopped` announce drops the peer,
    /// any other stores its record (completed when it says so or has
    /// nothing left); then the flow's peers not seen after `now -
    /// PEER_TTL_SECS` are dropped. The answer is the flow's other peers, at
    /// most `num_want` of them, in table order. A malformed hash is an error
    /// and changes nothing.
    pub fn announce_at(&mut self, req: &AnnounceRequest, now: i64) -> (res: Result<Vec<PeerRecord>, TrackerError>)
        requires
            now >= i64::MIN + PEER_TTL_SECS,
        ensures
            announce_outcome(old(self).records@, final(self).records@, *req, now, res),
            completion_outcome(old(self).completions@, final(self).completions@, *req),
            old(self).wf() ==> final(self).wf(),
    {
        let ih = match parse_hex32(req.info_hash.as_str()) {
            Ok(a) => a,
            Err(e) => return Err(TrackerError::InvalidInfoHash(e)),
        };
        let pid = match parse_hex32(req.peer_id.as_str()) {
            Ok(a) => a,
            Err(e) => return Err(TrackerError::InvalidInfoHash(e)),
        };
        if req.event == AnnounceEvent::Stopped {
            self.remove_key(&ih, &pid);
        } else {
            let record = PeerRecord {
                info_hash: ih,
                peer_id: pid,
                addr: req.addr.clone(),
                uploaded: req.uploaded,
                downloaded: req.downloaded,
                left: req.left,
                last_seen: now,
                completed: req.event == AnnounceEvent::Completed || req.left == 0,
            };
            assert(record_for(record, *req, ih@, pid@, now));
            let done = record.completed;
            self.upsert(record);
            if done {
                self.note_completion(&ih, &pid);
            }
        }
        let cutoff = now - PEER_TTL_SECS;
        self.purge(&ih, cutoff);
        Ok(self.others(&ih, &pid, req.num_want))
    }

    /// An announce at the current time; see [`PeerTable::announce_at`].
    pub fn announce(&mut self, req: &AnnounceRequest) -> (res: Result<Vec<PeerRecord>, TrackerError>)
        ensures
            exists|now: i64| now >= 0 && #[trigger] announce_outcome(old(self).records@, final(self).records@, *req, now, res),
            completion_outcome(old(self).completions@, final(self).completions@, *req),
            old(self).wf() ==> final(self).wf(),
    {
        let now = clock_secs();
        let res = self.announce_at(req, now);
        assert(announce_outcome(old(self).records@, self.records@, *req, now, res));
        res
    }

    /// Counts flow `ih` at Unix time `now`: its live fillers and drainers
    /// (seen after `now - PEER_TTL_SECS`), and the peers that ever completed
    /// it.
    pub fn scrape_at(&self, ih: &[u8; 32], now: i64) -> (res: (u32, u32, u32))
        requires
            now >= i64::MIN + PEER_TTL_SECS,
            self.records@.len() <= u32::MAX,
            self.completions@.len() <= u32::MAX,
        ensures
            scrape_outcome(self.records@, self.completions@, ih@, now, res),
    {
        let cutoff = now - PEER_TTL_SECS;
        let mut fillers: u32 = 0;
        let mut drainers: u32 = 0;
        let mut i: usize = 0;
        while i < self.records.len()
            invariant
                i <= self.records@.len(),
                self.records@.len() <= u32::MAX,
                fillers == count_live(self.records@.take(i as int), ih@, cutoff as int, 0),
                drainers == count_live(self.records@.take(i as int), ih@, cutoff as int, 1),
            decreases self.records@.len() - i,
        {
            proof {
                assert(self.records@.take(i + 1).drop_last() =~= self.records@.take(i as int));
                lemma_count_live_bound(self.records@.take(i as int), ih@, cutoff as int, 0);
                lemma_count_live_bound(self.records@.take(i as int), ih@, cutoff as int, 1);
            }
            let r = &self.records[i];
            let same = hashes_equal(&r.info_hash, ih);
            assert(same == (r.info_hash@ == ih@)) by {
                if r.info_hash@ == ih@ {
                    assert(r.info_hash =~= *ih);
                }
            }
            if same && r.last_seen > cutoff {
                if r.is_filler() {
                    fillers = fillers + 1;
                } else {
                    drainers = drainers + 1;
                }
            }
            i = i + 1;
        }
        assert(self.records@.take(self.records@.len() as int) =~= self.records@);
        let mut completed: u32 = 0;
        let mut j: usize = 0;
        while j < self.completions.len()
            invariant
                j <= self.completions@.len(),
                self.completions@.len() <= u32::MAX,
                completed == count_completions(self.completions@.take(j as int), ih@),
            decreases self.completions@.len() - j,
        {
            proof {
                assert(self.completions@.take(j + 1).drop_last() =~= self.completions@.take(j as int));
                lemma_count_completions_bound(self.completions@.take(j as int), ih@);
            }
            let same = hashes_equal(&self.completions[j].info_hash, ih);
            assert(same == (self.completions@[j as int].info_hash@ == ih@)) by {
                if self.completions@[j as int].info_hash@ == ih@ {
                    assert(self.completions@[j as int].info_hash =~= *ih);
                }
            }
            if same {
                completed = completed + 1;
            }
            j = j + 1;
        }
        assert(self.completions@.take(self.completions@.len() as int) =~= self.completions@);
        (fillers, drainers, completed)
    }

    /// Counts at the current time; see [`PeerTable::scrape_at`].
    pub fn scrape(&self, ih: &[u8; 32]) -> (res: (u32, u32, u32))
        requires
            self.records@.len() <= u32::MAX,
            self.completions@.len() <= u32::MAX,
        ensures
            exists|now: i64| now >= 0 && #[trigger] scrape_outcome(self.records@, self.completions@, ih@, now, res),
    {
        let now = clock_secs();
        let res = self.scrape_at(ih, now);
        assert(scrape_outcome(self.records@, self.completions@, ih@, now, res));
        res
    }
}

/// A row of the tracker's database: a record as stored, with its hashes as
/// byte strings.
#[derive(Debug, Clone)]
pub struct StoredPeer {
    pub info_hash: Vec<u8>,
    pub peer_id: Vec<u8>,
    pub addr: String,
    pub uploaded: u64,
    pub downloaded: u64,
    pub left: u64,
    pub last_seen: i64,
    pub completed: bool,
}

/// The 32-byte array holding `v`.
pub open spec fn array32_of(v: Seq<u8>) -> [u8; 32] {
    choose|a: [u8; 32]| a@ == v
}

/// The record a row stands for.
pub open spec fn stored_record(row: StoredPeer) -> PeerRecord {
    PeerRecord {
        info_hash: array32_of(row.info_hash@),
        peer_id: array32_of(row.peer_id@),
        addr: row.addr,
        uploaded: row.uploaded,
        downloaded: row.downloaded,
        left: row.left,
        last_seen: row.last_seen,
        completed: row.completed,
    }
}

/// A row is loaded: seen after `cutoff`, with hashes of 32 bytes.
pub open spec fn restorable(row: StoredPeer, cutoff: int) -> bool {
    row.last_seen > cutoff && row.info_hash@.len() == 32 && row.peer_id@.len() == 32
}

/// The records loaded from `rows` in turn, each replacing an earlier one of
/// the same peer.
pub open spec fn restored(rows: Seq<StoredPeer>, cutoff: int) -> Seq<PeerRecord>
    decreases rows.len(),
{
    if rows.len() == 0 {
        Seq::empty()
    } else {
        let r = restored(rows.drop_last(), cutoff);
        if restorable(rows.last(), cutoff) {
            upsert_spec(r, stored_record(rows.last()))
        } else {
            r
        }
    }
}

/// Two 32-byte arrays with the same bytes are equal.
proof fn lemma_array32_of(a: [u8; 32], v: Seq<u8>)
    requires
        a@ == v,
    ensures
        array32_of(v) == a,
{
    let b = array32_of(v);
    assert(b@ == v);
    assert forall|i: int| 0 <= i < 32 implies b[i] == a[i] by {
        assert(b@[i] == a@[i]);
    }
    assert(b =~= a);
}

impl PeerTable {
    /// The table loaded from the database's rows at Unix time `now`: the
    /// rows of peers seen in the last `PEER_TTL_SECS` seconds whose hashes
    /// are 32 bytes; see [`restored`]. The loaded peers marked completed are
    /// the completions, each listed once.
    pub fn restore(rows: &Vec<StoredPeer>, now: i64) -> (res: PeerTable)
        requires
            now >= i64::MIN + PEER_TTL_SECS,
        ensures
            res.wf(),
            res.records@ == restored(rows@, now - PEER_TTL_SECS),
            forall|ih: Seq<u8>, pid: Seq<u8>| #[trigger] ever_completed(res.completions@, ih, pid) <==> exists|k: int|
                0 <= k < res.records@.len() && has_key(#[trigger] res.records@[k], ih, pid) && res.records@[k].completed,
    {
        let cutoff = now - PEER_TTL_SECS;
        let mut table = PeerTable::new();
        let mut i: usize = 0;
        while i < rows.len()
            invariant
                i <= rows@.len(),
                cutoff == now - PEER_TTL_SECS,
                table.records@ == restored(rows@.take(i as int), cutoff as int),
                table.completions@.len() == 0,
            decreases rows@.len() - i,
        {
            assert(rows@.take(i + 1).drop_last() =~= rows@.take(i as int));
            let row = &rows[i];
            if row.last_seen > cutoff && row.info_hash.len() == 32 && row.peer_id.len() == 32 {
                let ih = copy_array32(row.info_hash.as_slice(), 0);
                let pid = copy_array32(row.peer_id.as_slice(), 0);
                proof {
                    assert(row.info_hash@.subrange(0, 32) =~= row.info_hash@);
                    assert(row.peer_id@.subrange(0, 32) =~= row.peer_id@);
                    lemma_array32_of(ih, row.info_hash@);
                    lemma_array32_of(pid, row.peer_id@);
                }
                let record = PeerRecord {
                    info_hash: ih,
                    peer_id: pid,
                    addr: row.addr.clone(),
                    uploaded: row.uploaded,
                    downloaded: row.downloaded,
                    left: row.left,
                    last_seen: row.last_seen,
                    completed: row.completed,
                };
                assert(record == stored_record(rows@.take(i + 1).last()));
                table.upsert(record);
            }
            i = i + 1;
        }
        assert(rows@.take(rows@.len() as int) =~= rows@);
        let mut k: usize = 0;
        while k < table.records.len()
            invariant
                k <= table.records@.len(),
                table.records@ == restored(rows@, cutoff as int),
                table.wf(),
                forall|ih: Seq<u8>, pid: Seq<u8>| #[trigger] ever_completed(table.completions@, ih, pid) <==> exists|q: int|
                    0 <= q < k && has_key(#[trigger] table.records@[q], ih, pid) && table.records@[q].completed,
            decreases table.records@.len() - k,
        {
            let ghost before = table.completions@;
            if table.records[k].completed {
                let ih = table.records[k].info_hash;
                let pid = table.records[k].peer_id;
                table.note_completion(&ih, &pid);
            }
            proof {
                let recs = table.records@;
                assert forall|ih: Seq<u8>, pid: Seq<u8>| #[trigger] ever_completed(table.completions@, ih, pid) <==> exists|q: int|
                    0 <= q < k + 1 && has_key(#[trigger] recs[q], ih, pid) && recs[q].completed by {
                    if ever_completed(table.completions@, ih, pid) {
                        let w = choose|w: int| 0 <= w < table.completions@.len() && (#[trigger] table.completions@[w]).info_hash@ == ih
                            && table.completions@[w].peer_id@ == pid;
                        if w < before.len() {
                            assert(before[w] == table.completions@[w]);
                            assert(ever_completed(before, ih, pid));
                        } else {
                            assert(has_key(recs[k as int], ih, pid));
                        }
                    }
                    if exists|q: int| 0 <= q < k + 1 && has_key(#[trigger] recs[q], ih, pid) && recs[q].completed {
                        let q = choose|q: int| 0 <= q < k + 1 && has_key(#[trigger] recs[q], ih, pid) && recs[q].completed;
                        if q < k {
                            assert(ever_completed(before, ih, pid));
                            let w = choose|w: int| 0 <= w < before.len() && (#[trigger] before[w]).info_hash@ == ih
                                && before[w].peer_id@ == pid;
                            if table.completions@ != before {
                                assert(table.completions@[w] == before[w]);
                            }
                            assert(table.completions@[w].info_hash@ == ih);
                        } else {
                            if ever_completed(before, ih, pid) {
                                let w = choose|w: int| 0 <= w < before.len() && (#[trigger] before[w]).info_hash@ == ih
                                    && before[w].peer_id@ == pid;
                                if table.completions@ != before {
                                    assert(table.completions@[w] == before[w]);
                                }
                                assert(table.completions@[w].info_hash@ == ih);
                            } else {
                                let last = table.completions@.len() - 1;
                                assert(table.completions@[last].info_hash@ == ih);
                            }
                        }
                    }
                }
            }
            k = k + 1;
        }
        table
    }

    /// The table loaded at the current time; see [`PeerTable::restore`].
    pub fn restore_now(rows: &Vec<StoredPeer>) -> (res: PeerTable)
        ensures
            res.wf(),
            exists|now: i64| now >= 0 && res.records@ == #[trigger] restored(rows@, now - PEER_TTL_SECS),
            forall|ih: Seq<u8>, pid: Seq<u8>| #[trigger] ever_completed(res.completions@, ih, pid) <==> exists|k: int|
                0 <= k < res.records@.len() && has_key(#[trigger] res.records@[k], ih, pid) && res.records@[k].completed,
    {
        let now = clock_secs();
        PeerTable::restore(rows, now)
    }
}

/// The current Unix time in seconds, as an `i64` (times past `i64::MAX`
/// seconds read as `i64::MAX`).
fn clock_secs() -> (res: i64)
    ensures
        res >= 0,
{
    let secs = unix_now();
    if secs > i64::MAX as u64 {
        i64::MAX
    } else {
        secs as i64
    }
}

/// A `u32` as a `usize`.
fn num_as_usize(n: u32) -> (res: usize)
    ensures
        res == n,
{
    n as usize
}

/// The other peers of a prefix of the table are a prefix of those of the
/// whole table.
proof fn lemma_others_prefix(s: Seq<PeerRecord>, i: int, ih: Seq<u8>, pid: Seq<u8>)
    requires
        0 <= i <= s.len(),
    ensures
        others_spec(s.take(i), ih, pid).len() <= others_spec(s, ih, pid).len(),
        others_spec(s, ih, pid).take(others_spec(s.take(i), ih, pid).len() as int) == others_spec(s.take(i), ih, pid),
    decreases s.len() - i,
{
    if i < s.len() {
        lemma_others_prefix(s, i + 1, ih, pid);
        assert(s.take(i + 1).drop_last() =~= s.take(i));
        let a = others_spec(s.take(i), ih, pid);
        let b = others_spec(s.take(i + 1), ih, pid);
        let full = others_spec(s, ih, pid);
        assert(full.take(b.len() as int) == b);
        if b.len() == a.len() + 1 {
            assert(b.take(a.len() as int) =~= a);
            assert(full.take(a.len() as int) =~= full.take(b.len() as int).take(a.len() as int));
        } else {
            assert(b == a);
        }
    } else {
        assert(s.take(i) =~= s);
        assert(others_spec(s, ih, pid).take(others_spec(s, ih, pid).len() as int) =~= others_spec(s, ih, pid));
    }
}


/// The peers an announce returns are of its flow, and never the announcing
/// peer itself.
pub proof fn lemma_others_exclude_self(s: Seq<PeerRecord>, ih: Seq<u8>, pid: Seq<u8>)
    ensures
        forall|i: int| 0 <= i < others_spec(s, ih, pid).len() ==> (#[trigger] others_spec(s, ih, pid)[i]).info_hash@ == ih
            && others_spec(s, ih, pid)[i].peer_id@ != pid,
    decreases s.len(),
{
    if s.len() > 0 {
        lemma_others_exclude_self(s.drop_last(), ih, pid);
        let r = others_spec(s.drop_last(), ih, pid);
        assert forall|i: int| 0 <= i < others_spec(s, ih, pid).len() implies (#[trigger] others_spec(
            s,
            ih,
            pid,
        )[i]).info_hash@ == ih && others_spec(s, ih, pid)[i].peer_id@ != pid by {
            if i < r.len() {
                assert(others_spec(s, ih, pid)[i] == r[i]);
            }
        }
    }
}

/// A record seen after `cutoff` survives the purge.
proof fn lemma_purge_keeps_live(s: Seq<PeerRecord>, ih: Seq<u8>, cutoff: int, j: int)
    requires
        0 <= j < s.len(),
        s[j].last_seen > cutoff,
    ensures
        purge_spec(s, ih, cutoff).contains(s[j]),
    decreases s.len(),
{
    let r = purge_spec(s.drop_last(), ih, cutoff);
    if j == s.len() - 1 {
        assert(purge_spec(s, ih, cutoff)[r.len() as int] == s[j]);
    } else {
        lemma_purge_keeps_live(s.drop_last(), ih, cutoff, j);
        let q = choose|q: int| 0 <= q < r.len() && r[q] == s.drop_last()[j];
        if !(s.last().info_hash@ == ih && s.last().last_seen <= cutoff) {
            assert(purge_spec(s, ih, cutoff)[q] == r[q]);
        }
    }
}

/// The kind a record is counted under by [`count_live`].
pub open spec fn counted_as(r: PeerRecord, kind: int) -> bool {
    if kind == 0 {
        r.filler()
    } else {
        !r.filler()
    }
}

/// A live record of the flow is counted.
proof fn lemma_count_live_positive(s: Seq<PeerRecord>, ih: Seq<u8>, cutoff: int, kind: int, j: int)
    requires
        0 <= j < s.len(),
        s[j].info_hash@ == ih,
        s[j].last_seen > cutoff,
        counted_as(s[j], kind),
    ensures
        count_live(s, ih, cutoff, kind) >= 1,
    decreases s.len(),
{
    if j < s.len() - 1 {
        lemma_count_live_positive(s.drop_last(), ih, cutoff, kind, j);
    }
}

/// A peer that announced (other than `Stopped`) is counted by a scrape of
/// its flow at the same time: as a filler when it has nothing left or
/// completed, else as a drainer.
pub proof fn lemma_announce_then_counted(
    old: Seq<PeerRecord>,
    new: Seq<PeerRecord>,
    req: AnnounceRequest,
    now: i64,
    res: Result<Vec<PeerRecord>, TrackerError>,
)
    requires
        announce_outcome(old, new, req, now, res),
        res is Ok,
        req.event != AnnounceEvent::Stopped,
    ensures
        count_live(
            new,
            parse_hex32_spec(req.info_hash@)->Ok_0,
            now - PEER_TTL_SECS,
            if req.left == 0 || req.event == AnnounceEvent::Completed { 0 } else { 1 },
        ) >= 1,
{
    let ih = parse_hex32_spec(req.info_hash@)->Ok_0;
    let pid = parse_hex32_spec(req.peer_id@)->Ok_0;
    let cutoff = now - PEER_TTL_SECS;
    let kind: int = if req.left == 0 || req.event == AnnounceEvent::Completed { 0 } else { 1 };
    let r = choose|r: PeerRecord| record_for(r, req, ih, pid, now) && new == purge_spec(upsert_spec(old, r), ih, cutoff);
    let u = upsert_spec(old, r);
    let j: int = if exists|k: int| first_with_key(old, r.info_hash@, r.peer_id@, k) {
        choose|k: int| first_with_key(old, r.info_hash@, r.peer_id@, k)
    } else {
        old.len() as int
    };
    assert(u[j] == r);
    lemma_purge_keeps_live(u, ih, cutoff, j);
    let q = choose|q: int| 0 <= q < new.len() && new[q] == u[j];
    lemma_count_live_positive(new, ih, cutoff, kind, q);
}

proof fn lemma_count_completions_push(s: Seq<Completion>, c: Completion, ih: Seq<u8>)
    ensures
        count_completions(s.push(c), ih) == count_completions(s, ih) + if c.info_hash@ == ih { 1nat } else { 0nat },
{
    assert(s.push(c).drop_last() =~= s);
}

/// No announce lowers the count of completions of any flow, a `Stopped`
/// one or an expiry included; an announce that completes lists its peer
/// among the completions.
pub proof fn lemma_completions_kept(old: Seq<Completion>, new: Seq<Completion>, req: AnnounceRequest, f: Seq<u8>)
    requires
        completion_outcome(old, new, req),
    ensures
        count_completions(new, f) >= count_completions(old, f),
        forall|ih: Seq<u8>, pid: Seq<u8>| ever_completed(old, ih, pid) ==> #[trigger] ever_completed(new, ih, pid),
        (parse_hex32_spec(req.info_hash@) is Ok && parse_hex32_spec(req.peer_id@) is Ok
            && req.event != AnnounceEvent::Stopped && (req.event == AnnounceEvent::Completed || req.left == 0))
            ==> ever_completed(new, parse_hex32_spec(req.info_hash@)->Ok_0, parse_hex32_spec(req.peer_id@)->Ok_0),
{
    if new != old {
        assert(new =~= old.push(new.last()));
        lemma_count_completions_push(old, new.last(), f);
        assert forall|ih: Seq<u8>, pid: Seq<u8>| ever_completed(old, ih, pid) implies #[trigger] ever_completed(new, ih, pid) by {
            let w = choose|w: int| 0 <= w < old.len() && (#[trigger] old[w]).info_hash@ == ih && old[w].peer_id@ == pid;
            assert(new[w] == old[w]);
        }
        assert(new[new.len() - 1] == new.last());
    }
}

/// After a `Stopped` announce, the peer has no record left for its flow.
pub proof fn lemma_stopped_removes(s: Seq<PeerRecord>, ih: Seq<u8>, pid: Seq<u8>, cutoff: int)
    ensures
        forall|i: int| 0 <= i < purge_spec(remove_spec(s, ih, pid), ih, cutoff).len() ==> !has_key(
            #[trigger] purge_spec(remove_spec(s, ih, pid), ih, cutoff)[i],
            ih,
            pid,
        ),
{
    lemma_remove_spec_clears(s, ih, pid);
    lemma_purge_keeps_absence(remove_spec(s, ih, pid), ih, pid, cutoff);
}

proof fn lemma_remove_spec_clears(s: Seq<PeerRecord>, ih: Seq<u8>, pid: Seq<u8>)
    ensures
        forall|i: int| 0 <= i < remove_spec(s, ih, pid).len() ==> !has_key(#[trigger] remove_spec(s, ih, pid)[i], ih, pid),
    decreases s.len(),
{
    if s.len() > 0 {
        lemma_remove_spec_clears(s.drop_last(), ih, pid);
        let r = remove_spec(s.drop_last(), ih, pid);
        assert forall|i: int| 0 <= i < remove_spec(s, ih, pid).len() implies !has_key(
            #[trigger] remove_spec(s, ih, pid)[i],
            ih,
            pid,
        ) by {
            if i < r.len() {
                assert(remove_spec(s, ih, pid)[i] == r[i]);
            }
        }
    }
}

proof fn lemma_purge_keeps_absence(s: Seq<PeerRecord>, ih: Seq<u8>, pid: Seq<u8>, cutoff: int)
    requires
        forall|i: int| 0 <= i < s.len() ==> !has_key(#[trigger] s[i], ih, pid),
    ensures
        forall|i: int| 0 <= i < purge_spec(s, ih, cutoff).len() ==> !has_key(#[trigger] purge_spec(s, ih, cutoff)[i], ih, pid),
    decreases s.len(),
{
    if s.len() > 0 {
        assert forall|i: int| 0 <= i < s.drop_last().len() implies !has_key(#[trigger] s.drop_last()[i], ih, pid) by {
            assert(s.drop_last()[i] == s[i]);
        }
        lemma_purge_keeps_absence(s.drop_last(), ih, pid, cutoff);
        let r = purge_spec(s.drop_last(), ih, cutoff);
        assert forall|i: int| 0 <= i < purge_spec(s, ih, cutoff).len() implies !has_key(
            #[trigger] purge_spec(s, ih, cutoff)[i],
            ih,
            pid,
        ) by {
            if i < r.len() {
                assert(purge_spec(s, ih, cutoff)[i] == r[i]);
            } else {
                assert(purge_spec(s, ih, cutoff)[i] == s.last());
                assert(s.last() == s[s.len() - 1]);
            }
        }
    }
}

} // verus!
