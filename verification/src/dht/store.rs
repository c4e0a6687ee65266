//! The DHT's store of values and announced peers, each kept for a fixed
//! time after it was stored or last announced.
use vstd::prelude::*;

use crate::clock::unix_now;
use crate::pieces::verify::hashes_equal;
use crate::protocol::bytes::copy_range;

verus! {

/// Seconds a stored value is kept: 24 hours.
pub const VALUE_TTL_SECS: u64 = 86400;

/// Seconds an announced peer is kept: 30 minutes.
pub const PEER_TTL_SECS: u64 = 1800;

/// A stored value.
#[derive(Debug, Clone)]
pub struct ValueEntry {
    pub key: [u8; 32],
    pub value: Vec<u8>,
    /// Unix second after which it is dropped.
    pub expires: u64,
}

/// An announced peer.
#[derive(Debug, Clone)]
pub struct PeerEntry {
    pub info_hash: [u8; 32],
    pub addr: String,
    /// Unix second after which it is dropped.
    pub expires: u64,
}

/// The values still live at `now`, in order.
pub open spec fn live_values(s: Seq<ValueEntry>, now: u64) -> Seq<ValueEntry>
    decreases s.len(),
{
    if s.len() == 0 {
        s
    } else {
        let r = live_values(s.drop_last(), now);
        if s.last().expires > now {
            r.push(s.last())
        } else {
            r
        }
    }
}

/// The peers still live at `now`, in order.
pub open spec fn live_peers(s: Seq<PeerEntry>, now: u64) -> Seq<PeerEntry>
    decreases s.len(),
{
    if s.len() == 0 {
        s
    } else {
        let r = live_peers(s.drop_last(), now);
        if s.last().expires > now {
            r.push(s.last())
        } else {
            r
        }
    }
}

/// The values stored under `key`, in order.
pub open spec fn values_for(s: Seq<ValueEntry>, key: Seq<u8>) -> Seq<Seq<u8>>
    decreases s.len(),
{
    if s.len() == 0 {
        Seq::empty()
    } else {
        let r = values_for(s.drop_last(), key);
        if s.last().key@ == key {
            r.push(s.last().value@)
        } else {
            r
        }
    }
}

/// The addresses announced for `info_hash`, in order.
pub open spec fn addrs_for(s: Seq<PeerEntry>, info_hash: Seq<u8>) -> Seq<Seq<char>>
    decreases s.len(),
{
    if s.len() == 0 {
        Seq::empty()
    } else {
        let r = addrs_for(s.drop_last(), info_hash);
        if s.last().info_hash@ == info_hash {
            r.push(s.last().addr@)
        } else {
            r
        }
    }
}

/// Entry `k` is the first announce of `addr` for `info_hash`.
pub open spec fn first_peer(s: Seq<PeerEntry>, info_hash: Seq<u8>, addr: Seq<char>, k: int) -> bool {
    &&& 0 <= k < s.len()
    &&& s[k].info_hash@ == info_hash && s[k].addr@ == addr
    &&& forall|j: int| 0 <= j < k ==> !((#[trigger] s[j]).info_hash@ == info_hash && s[j].addr@ == addr)
}

/// The peers after `addr` announced itself for `info_hash` until
/// `expires`: its entry is refreshed, or added at the end.
pub open spec fn announced(s: Seq<PeerEntry>, e: PeerEntry) -> Seq<PeerEntry> {
    if exists|k: int| first_peer(s, e.info_hash@, e.addr@, k) {
        let k = choose|k: int| first_peer(s, e.info_hash@, e.addr@, k);
        s.update(k, PeerEntry { info_hash: s[k].info_hash, addr: s[k].addr, expires: e.expires })
    } else {
        s.push(e)
    }
}

/// The DHT's store.
#[derive(Debug)]
pub struct ValueStore {
    pub values: Vec<ValueEntry>,
    pub peers: Vec<PeerEntry>,
}

impl ValueStore {
    /// No address is announced twice for one info hash.
    pub open spec fn wf(&self) -> bool {
        forall|i: int, j: int|
            0 <= i < j < self.peers@.len() ==> !((#[trigger] self.peers@[i]).info_hash@ == (#[trigger] self.peers@[j]).info_hash@
                && self.peers@[i].addr@ == self.peers@[j].addr@)
    }

    /// An empty store.
    pub fn new() -> (res: Self)
        ensures
            res.wf(),
            res.values@.len() == 0,
            res.peers@.len() == 0,
    {
        ValueStore { values: Vec::new(), peers: Vec::new() }
    }

    /// Drops everything expired at `now`.
    pub fn purge_expired(&mut self, now: u64)
        requires
            old(self).wf(),
        ensures
            final(self).wf(),
            final(self).values@ == live_values(old(self).values@, now),
            final(self).peers@ == live_peers(old(self).peers@, now),
    {
        let mut rest: Vec<ValueEntry> = Vec::new();
        std::mem::swap(&mut self.values, &mut rest);
        let ghost all = rest@;
        let mut kept: Vec<ValueEntry> = Vec::new();
        let ghost mut n: int = 0;
        while rest.len() > 0
            invariant
                0 <= n <= all.len(),
                rest@ == all.subrange(n, all.len() as int),
                kept@ == live_values(all.take(n), now),
            decreases rest@.len(),
        {
            assert(all.take(n + 1).drop_last() =~= all.take(n));
            let e = rest.remove(0);
            if e.expires > now {
                kept.push(e);
            }
            proof {
                n = n + 1;
            }
            assert(rest@ =~= all.subrange(n, all.len() as int));
        }
        assert(all.take(n) =~= all);
        self.values = kept;

        let mut prest: Vec<PeerEntry> = Vec::new();
        std::mem::swap(&mut self.peers, &mut prest);
        let ghost pall = prest@;
        let mut pkept: Vec<PeerEntry> = Vec::new();
        let ghost mut m: int = 0;
        while prest.len() > 0
            invariant
                0 <= m <= pall.len(),
                prest@ == pall.subrange(m, pall.len() as int),
                pall == old(self).peers@,
                old(self).wf(),
                pkept@ == live_peers(pall.take(m), now),
                forall|a: int| 0 <= a < pkept@.len() ==> exists|b: int| 0 <= b < m && #[trigger] pkept@[a] == pall[b],
                forall|a: int, c: int| 0 <= a < c < pkept@.len() ==> exists|b: int, d: int| 0 <= b < d < m && #[trigger] pkept@[a] == pall[b] && #[trigger] pkept@[c] == pall[d],
            decreases prest@.len(),
        {
            assert(pall.take(m + 1).drop_last() =~= pall.take(m));
            assert(prest@[0] == pall[m]);
            let e = prest.remove(0);
            if e.expires > now {
                let ghost before = pkept@;
                pkept.push(e);
                assert forall|a: int| 0 <= a < pkept@.len() implies exists|b: int| 0 <= b < m + 1 && #[trigger] pkept@[a] == pall[b] by {
                    if a < before.len() {
                        assert(pkept@[a] == before[a]);
                    } else {
                        assert(pkept@[a] == pall[m]);
                    }
                }
                assert forall|a: int, c: int| 0 <= a < c < pkept@.len() implies exists|b: int, d: int| 0 <= b < d < m + 1 && #[trigger] pkept@[a] == pall[b] && #[trigger] pkept@[c] == pall[d] by {
                    if c < before.len() {
                        assert(pkept@[a] == before[a] && pkept@[c] == before[c]);
                    } else {
                        assert(pkept@[a] == before[a]);
                        let b = choose|b: int| 0 <= b < m && #[trigger] before[a] == pall[b];
                        assert(pkept@[c] == pall[m]);
                        assert(0 <= b < m && pkept@[a] == pall[b] && pkept@[c] == pall[m]);
                    }
                }
            }
            proof {
                m = m + 1;
            }
            assert(prest@ =~= pall.subrange(m, pall.len() as int));
        }
        assert(pall.take(m) =~= pall);
        assert forall|a: int, c: int| 0 <= a < c < pkept@.len() implies !((#[trigger] pkept@[a]).info_hash@ == (#[trigger] pkept@[c]).info_hash@
            && pkept@[a].addr@ == pkept@[c].addr@) by {
            let (b, d) = choose|b: int, d: int| 0 <= b < d < pall.len() && #[trigger] pkept@[a] == pall[b] && #[trigger] pkept@[c] == pall[d];
            assert(!(pall[b].info_hash@ == pall[d].info_hash@ && pall[b].addr@ == pall[d].addr@));
        }
        self.peers = pkept;
    }

    /// Stores `value` under `key` at time `now`, after dropping what expired;
    /// it lives `VALUE_TTL_SECS` seconds.
    pub fn put_at(&mut self, key: [u8; 32], value: Vec<u8>, now: u64)
        requires
            old(self).wf(),
            now <= u64::MAX - VALUE_TTL_SECS,
        ensures
            final(self).wf(),
            final(self).values@ == live_values(old(self).values@, now).push(
                ValueEntry { key, value, expires: (now + VALUE_TTL_SECS) as u64 },
            ),
            final(self).peers@ == live_peers(old(self).peers@, now),
    {
        self.purge_expired(now);
        self.values.push(ValueEntry { key, value, expires: now + VALUE_TTL_SECS });
    }

    /// The values stored under `key` at time `now`, after dropping what
    /// expired.
    pub fn get_at(&mut self, key: &[u8; 32], now: u64) -> (res: Vec<Vec<u8>>)
        requires
            old(self).wf(),
        ensures
            final(self).wf(),
            final(self).values@ == live_values(old(self).values@, now),
            final(self).peers@ == live_peers(old(self).peers@, now),
            res@.map_values(|v: Vec<u8>| v@) == values_for(final(self).values@, key@),
    {
        self.purge_expired(now);
        let mut out: Vec<Vec<u8>> = Vec::new();
        let mut i: usize = 0;
        while i < self.values.len()
            invariant
                i <= self.values@.len(),
                out@.map_values(|v: Vec<u8>| v@) == values_for(self.values@.take(i as int), key@),
            decreases self.values@.len() - i,
        {
            assert(self.values@.take(i + 1).drop_last() =~= self.values@.take(i as int));
            let e = &self.values[i];
            if hashes_equal(&e.key, key) {
                let copy = copy_range(e.value.as_slice(), 0, e.value.len());
                assert(e.value@.subrange(0, e.value@.len() as int) =~= e.value@);
                out.push(copy);
            }
            i = i + 1;
            assert(out@.map_values(|v: Vec<u8>| v@) =~= values_for(self.values@.take(i as int), key@));
        }
        assert(self.values@.take(self.values@.len() as int) =~= self.values@);
        out
    }

    /// `addr` announces itself for `info_hash` at time `now`, after dropping
    /// what expired: an address already announced for it is refreshed, a
    /// new one added; either lives `PEER_TTL_SECS` seconds.
    #[verifier::loop_isolation(false)]
    pub fn announce_peer_at(&mut self, info_hash: [u8; 32], addr: String, now: u64)
        requires
            old(self).wf(),
            now <= u64::MAX - PEER_TTL_SECS,
        ensures
            final(self).wf(),
            final(self).values@ == live_values(old(self).values@, now),
            final(self).peers@ == announced(
                live_peers(old(self).peers@, now),
                PeerEntry { info_hash, addr, expires: (now + PEER_TTL_SECS) as u64 },
            ),
    {
        self.purge_expired(now);
        let expires = now + PEER_TTL_SECS;
        let ghost p0 = self.peers@;
        let ghost e = PeerEntry { info_hash, addr, expires };
        let mut i: usize = 0;
        while i < self.peers.len()
            invariant
                i <= self.peers@.len(),
                self.wf(),
                self.peers@ == p0,
                p0 == live_peers(old(self).peers@, now),
                self.values@ == live_values(old(self).values@, now),
                forall|j: int| 0 <= j < i ==> !((#[trigger] self.peers@[j]).info_hash@ == info_hash@ && self.peers@[j].addr@ == addr@),
            decreases self.peers@.len() - i,
        {
            if hashes_equal(&self.peers[i].info_hash, &info_hash) && self.peers[i].addr == addr {
                assert(first_peer(self.peers@, info_hash@, addr@, i as int));
                assert forall|k: int| first_peer(self.peers@, info_hash@, addr@, k) implies k == i by {
                    if k > i {
                        assert(self.peers@[i as int].info_hash@ == info_hash@);
                    }
                }
                let ghost c = choose|k: int| first_peer(self.peers@, info_hash@, addr@, k);
                assert(first_peer(self.peers@, info_hash@, addr@, c));
                assert(c == i);
                let ghost before = self.peers@;
                let old_entry = self.peers.remove(i);
                self.peers.insert(i, PeerEntry { info_hash: old_entry.info_hash, addr: old_entry.addr, expires });
                assert(self.peers@ =~= before.update(i as int, PeerEntry { info_hash: before[i as int].info_hash, addr: before[i as int].addr, expires }));
                assert forall|a: int, c: int| 0 <= a < c < self.peers@.len() implies !((#[trigger] self.peers@[a]).info_hash@ == (#[trigger] self.peers@[c]).info_hash@
                    && self.peers@[a].addr@ == self.peers@[c].addr@) by {
                    assert(!(before[a].info_hash@ == before[c].info_hash@ && before[a].addr@ == before[c].addr@));
                }
                assert(first_peer(p0, e.info_hash@, e.addr@, i as int));
                assert(exists|k: int| first_peer(p0, e.info_hash@, e.addr@, k));
                assert(self.peers@ == announced(p0, e));
                return;
            }
            i = i + 1;
        }
        let ghost before = self.peers@;
        assert(!exists|k: int| first_peer(before, info_hash@, addr@, k));
        self.peers.push(PeerEntry { info_hash, addr, expires });
        assert forall|a: int, c: int| 0 <= a < c < self.peers@.len() implies !((#[trigger] self.peers@[a]).info_hash@ == (#[trigger] self.peers@[c]).info_hash@
            && self.peers@[a].addr@ == self.peers@[c].addr@) by {
            if c < before.len() {
                assert(!(before[a].info_hash@ == before[c].info_hash@ && before[a].addr@ == before[c].addr@));
            }
        }
    }

    /// The addresses announced for `info_hash` at time `now`, after dropping
    /// what expired.
    pub fn get_peers_at(&mut self, info_hash: &[u8; 32], now: u64) -> (res: Vec<String>)
        requires
            old(self).wf(),
        ensures
            final(self).wf(),
            final(self).values@ == live_values(old(self).values@, now),
            final(self).peers@ == live_peers(old(self).peers@, now),
            res@.map_values(|a: String| a@) == addrs_for(final(self).peers@, info_hash@),
    {
        self.purge_expired(now);
        let mut out: Vec<String> = Vec::new();
        let mut i: usize = 0;
        while i < self.peers.len()
            invariant
                i <= self.peers@.len(),
                out@.map_values(|a: String| a@) == addrs_for(self.peers@.take(i as int), info_hash@),
            decreases self.peers@.len() - i,
        {
            assert(self.peers@.take(i + 1).drop_last() =~= self.peers@.take(i as int));
            let e = &self.peers[i];
            if hashes_equal(&e.info_hash, info_hash) {
                out.push(e.addr.clone());
            }
            i = i + 1;
            assert(out@.map_values(|a: String| a@) =~= addrs_for(self.peers@.take(i as int), info_hash@));
        }
        assert(self.peers@.take(self.peers@.len() as int) =~= self.peers@);
        out
    }
}

/// The current Unix second, kept where adding a time to live cannot
/// overflow.
pub(crate) fn store_clock() -> (res: u64)
    ensures
        res <= u64::MAX - VALUE_TTL_SECS,
{
    let now = unix_now();
    if now > u64::MAX - VALUE_TTL_SECS {
        u64::MAX - VALUE_TTL_SECS
    } else {
        now
    }
}

impl ValueStore {
    /// Stores `value` under `key` now; see [`ValueStore::put_at`].
    pub fn put(&mut self, key: [u8; 32], value: Vec<u8>)
        requires
            old(self).wf(),
        ensures
            final(self).wf(),
            exists|now: u64|
                final(self).values@ == #[trigger] live_values(old(self).values@, now).push(
                    ValueEntry { key, value, expires: (now + VALUE_TTL_SECS) as u64 },
                ) && final(self).peers@ == live_peers(old(self).peers@, now),
    {
        let now = store_clock();
        self.put_at(key, value, now);
    }

    /// The values stored under `key` now; see [`ValueStore::get_at`].
    pub fn get(&mut self, key: &[u8; 32]) -> (res: Vec<Vec<u8>>)
        requires
            old(self).wf(),
        ensures
            final(self).wf(),
            exists|now: u64|
                final(self).values@ == #[trigger] live_values(old(self).values@, now) && final(self).peers@ == live_peers(
                    old(self).peers@,
                    now,
                ),
            res@.map_values(|v: Vec<u8>| v@) == values_for(final(self).values@, key@),
    {
        let now = store_clock();
        self.get_at(key, now)
    }

    /// `addr` announces itself for `info_hash` now; see
    /// [`ValueStore::announce_peer_at`].
    pub fn announce_peer(&mut self, info_hash: [u8; 32], addr: String)
        requires
            old(self).wf(),
        ensures
            final(self).wf(),
            exists|now: u64|
                final(self).values@ == #[trigger] live_values(old(self).values@, now) && final(self).peers@ == announced(
                    live_peers(old(self).peers@, now),
                    PeerEntry { info_hash, addr, expires: (now + PEER_TTL_SECS) as u64 },
                ),
    {
        let now = store_clock();
        self.announce_peer_at(info_hash, addr, now);
    }

    /// The addresses announced for `info_hash` now; see
    /// [`ValueStore::get_peers_at`].
    pub fn get_peers(&mut self, info_hash: &[u8; 32]) -> (res: Vec<String>)
        requires
            old(self).wf(),
        ensures
            final(self).wf(),
            exists|now: u64|
                final(self).values@ == #[trigger] live_values(old(self).values@, now) && final(self).peers@ == live_peers(
                    old(self).peers@,
                    now,
                ),
            res@.map_values(|a: String| a@) == addrs_for(final(self).peers@, info_hash@),
    {
        let now = store_clock();
        self.get_peers_at(info_hash, now)
    }
}


/// Dropping expired entries twice at one time drops nothing more.
pub proof fn lemma_live_values_idempotent(s: Seq<ValueEntry>, now: u64)
    ensures
        live_values(live_values(s, now), now) == live_values(s, now),
    decreases s.len(),
{
    if s.len() > 0 {
        lemma_live_values_idempotent(s.drop_last(), now);
        let r = live_values(s.drop_last(), now);
        if s.last().expires > now {
            assert(r.push(s.last()).drop_last() =~= r);
        }
    }
}

/// A value stored at `now` is the last one a read at `now` returns for its
/// key.
pub proof fn lemma_put_then_get(s: Seq<ValueEntry>, e: ValueEntry, now: u64)
    requires
        e.expires > now,
    ensures
        ({
            let after = live_values(s, now).push(e);
            let read = values_for(live_values(after, now), e.key@);
            read.len() > 0 && read.last() == e.value@
        }),
{
    let live = live_values(s, now);
    lemma_live_values_idempotent(s, now);
    assert(live.push(e).drop_last() =~= live);
}

/// Peers that are all live at `now` stay as they are when the expired
/// ones are dropped.
proof fn lemma_live_peers_all_live(s: Seq<PeerEntry>, now: u64)
    requires
        forall|i: int| 0 <= i < s.len() ==> (#[trigger] s[i]).expires > now,
    ensures
        live_peers(s, now) == s,
    decreases s.len(),
{
    if s.len() > 0 {
        lemma_live_peers_all_live(s.drop_last(), now);
        assert(s.drop_last().push(s.last()) =~= s);
    }
}

/// The peers of `s` are all live at `now`.
proof fn lemma_live_peers_live(s: Seq<PeerEntry>, now: u64)
    ensures
        forall|i: int| 0 <= i < live_peers(s, now).len() ==> (#[trigger] live_peers(s, now)[i]).expires > now,
    decreases s.len(),
{
    if s.len() > 0 {
        lemma_live_peers_live(s.drop_last(), now);
        let r = live_peers(s.drop_last(), now);
        assert forall|i: int| 0 <= i < live_peers(s, now).len() implies (#[trigger] live_peers(s, now)[i]).expires > now by {
            if i < r.len() {
                assert(live_peers(s, now)[i] == r[i]);
            }
        }
    }
}

/// An entry of flow `info_hash` has its address among the flow's addresses.
proof fn lemma_addrs_for_contains(s: Seq<PeerEntry>, info_hash: Seq<u8>, k: int)
    requires
        0 <= k < s.len(),
        s[k].info_hash@ == info_hash,
    ensures
        addrs_for(s, info_hash).contains(s[k].addr@),
    decreases s.len(),
{
    let r = addrs_for(s.drop_last(), info_hash);
    if k == s.len() - 1 {
        assert(addrs_for(s, info_hash)[r.len() as int] == s[k].addr@);
    } else {
        lemma_addrs_for_contains(s.drop_last(), info_hash, k);
        let j = choose|j: int| 0 <= j < r.len() && r[j] == s[k].addr@;
        if s.last().info_hash@ == info_hash {
            assert(addrs_for(s, info_hash)[j] == r[j]);
        }
    }
}

/// A peer that just announced itself for a flow is among the flow's peers
/// read at the same time.
pub proof fn lemma_announce_then_get_peers(s: Seq<PeerEntry>, e: PeerEntry, now: u64)
    requires
        e.expires > now,
    ensures
        addrs_for(live_peers(announced(live_peers(s, now), e), now), e.info_hash@).contains(e.addr@),
{
    let live = live_peers(s, now);
    lemma_live_peers_live(s, now);
    let after = announced(live, e);
    assert forall|i: int| 0 <= i < after.len() implies (#[trigger] after[i]).expires > now by {
        if exists|k: int| first_peer(live, e.info_hash@, e.addr@, k) {
            let k = choose|k: int| first_peer(live, e.info_hash@, e.addr@, k);
            if i != k {
                assert(after[i] == live[i]);
            }
        } else {
            if i < live.len() {
                assert(after[i] == live[i]);
            }
        }
    }
    lemma_live_peers_all_live(after, now);
    if exists|k: int| first_peer(live, e.info_hash@, e.addr@, k) {
        let k = choose|k: int| first_peer(live, e.info_hash@, e.addr@, k);
        assert(after[k].info_hash@ == e.info_hash@);
        assert(after[k].addr@ == e.addr@);
        lemma_addrs_for_contains(after, e.info_hash@, k);
    } else {
        assert(after[live.len() as int] == e);
        lemma_addrs_for_contains(after, e.info_hash@, live.len() as int);
    }
}

} // verus!
