//! The client's table of flows and the changes the CLI asks for.
use vstd::prelude::*;
use vstd::utf8::encode_utf8;

use crate::hexstr::{hex_encode, hex_encode_spec};
use crate::protocol::bytes::{bytes_equal, copy_range, is_prefix, starts_with};
use crate::protocol::metainfo::{sizes_sum, Metainfo};

verus! {

/// State of a download.
#[derive(Debug, Clone, PartialEq, Eq)]
pub enum DownloadState {
    Queued,
    Downloading,
    Paused,
    Seeding,
    Error(String),
}

impl DownloadState {
    /// A copy of the state.
    pub fn duplicate(&self) -> (res: DownloadState)
        ensures
            res == *self,
    {
        match self {
            DownloadState::Queued => DownloadState::Queued,
            DownloadState::Downloading => DownloadState::Downloading,
            DownloadState::Paused => DownloadState::Paused,
            DownloadState::Seeding => DownloadState::Seeding,
            DownloadState::Error(e) => DownloadState::Error(e.clone()),
        }
    }
}

/// A flow managed by the client.
#[derive(Debug, Clone)]
pub struct FlowEntry {
    /// Short id: the first 8 hex digits of the info hash.
    pub id: String,
    /// Full info hash, 64 hex digits.
    pub info_hash: String,
    /// Name of the flow.
    pub name: String,
    /// Download directory.
    pub save_path: String,
    /// Path of the flow's metadata file; empty for flows added before it was
    /// recorded.
    pub metainfo_path: String,
    /// Current state.
    pub state: DownloadState,
    /// Bytes downloaded.
    pub downloaded: u64,
    /// Total size.
    pub total_size: u64,
    /// Connected peers.
    pub peers: usize,
}

impl FlowEntry {
    /// The entry's key: the bytes of its id.
    pub open spec fn key(&self) -> Seq<u8> {
        encode_utf8(self.id@)
    }

    /// The bytes of its info hash.
    pub open spec fn hash_key(&self) -> Seq<u8> {
        encode_utf8(self.info_hash@)
    }

    /// The entry with its state and counters replaced.
    pub open spec fn with_progress(&self, s: DownloadState, downloaded: u64, peers: usize) -> FlowEntry {
        FlowEntry {
            id: self.id,
            info_hash: self.info_hash,
            name: self.name,
            save_path: self.save_path,
            metainfo_path: self.metainfo_path,
            state: s,
            downloaded,
            total_size: self.total_size,
            peers,
        }
    }

    /// A copy of the entry with its state and counters replaced.
    pub fn updated(&self, state: DownloadState, downloaded: u64, peers: usize) -> (res: FlowEntry)
        ensures
            res == self.with_progress(state, downloaded, peers),
    {
        FlowEntry {
            id: self.id.clone(),
            info_hash: self.info_hash.clone(),
            name: self.name.clone(),
            save_path: self.save_path.clone(),
            metainfo_path: self.metainfo_path.clone(),
            state,
            downloaded,
            total_size: self.total_size,
            peers,
        }
    }

    /// The entry with its state replaced.
    pub open spec fn with_state(&self, s: DownloadState) -> FlowEntry {
        FlowEntry {
            id: self.id,
            info_hash: self.info_hash,
            name: self.name,
            save_path: self.save_path,
            metainfo_path: self.metainfo_path,
            state: s,
            downloaded: self.downloaded,
            total_size: self.total_size,
            peers: self.peers,
        }
    }
}

/// Errors of the flow table.
#[derive(Debug, Clone, PartialEq, Eq)]
pub enum ClientError {
    /// No flow has this id or an info hash starting with it.
    FlowNotFound(String),
}

/// The entries kept when removing `id`: those whose key is not `id` and
/// whose info hash does not start with it.
pub open spec fn kept_entries(s: Seq<FlowEntry>, id: Seq<u8>) -> Seq<FlowEntry>
    decreases s.len(),
{
    if s.len() == 0 {
        s
    } else {
        let r = kept_entries(s.drop_last(), id);
        let e = s.last();
        if e.key() != id && !is_prefix(id, e.hash_key()) {
            r.push(e)
        } else {
            r
        }
    }
}

/// The persistent state of the client: its flows, no two with the same id.
#[derive(Debug)]
pub struct ClientState {
    pub flows: Vec<FlowEntry>,
}

impl ClientState {
    /// No two flows share an id.
    pub open spec fn wf(&self) -> bool {
        forall|i: int, j: int|
            0 <= i < j < self.flows@.len() ==> (#[trigger] self.flows@[i]).key() != (#[trigger] self.flows@[j]).key()
    }

    /// Entry `k` has exactly this id.
    pub open spec fn exact(&self, id: Seq<u8>, k: int) -> bool {
        0 <= k < self.flows@.len() && self.flows@[k].key() == id
    }

    /// Entry `k` is the first whose info hash starts with `id`.
    pub open spec fn first_by_hash(&self, id: Seq<u8>, k: int) -> bool {
        &&& 0 <= k < self.flows@.len()
        &&& is_prefix(id, self.flows@[k].hash_key())
        &&& forall|j: int| 0 <= j < k ==> !is_prefix(id, (#[trigger] self.flows@[j]).hash_key())
    }

    /// The entry `id` names: the one with that id, else the first whose
    /// info hash starts with it.
    pub open spec fn lookup(&self, id: Seq<u8>) -> Option<int> {
        if exists|k: int| self.exact(id, k) {
            Some(choose|k: int| self.exact(id, k))
        } else if exists|k: int| self.first_by_hash(id, k) {
            Some(choose|k: int| self.first_by_hash(id, k))
        } else {
            None
        }
    }

    /// The entry `id` names is one of the table's.
    pub proof fn lemma_lookup_in_range(&self, id: Seq<u8>)
        ensures
            self.lookup(id) matches Some(k) ==> 0 <= k < self.flows@.len(),
    {
        if exists|k: int| self.exact(id, k) {
            let k = choose|k: int| self.exact(id, k);
            assert(self.exact(id, k));
        } else if exists|k: int| self.first_by_hash(id, k) {
            let k = choose|k: int| self.first_by_hash(id, k);
            assert(self.first_by_hash(id, k));
        }
    }

    /// An empty table.
    pub fn new() -> (res: Self)
        ensures
            res.wf(),
            res.flows@.len() == 0,
    {
        ClientState { flows: Vec::new() }
    }

    /// Position of the entry with exactly this id.
    fn position_exact(&self, id: &str) -> (res: Option<usize>)
        ensures
            match res {
                Some(k) => self.exact(encode_utf8(id@), k as int),
                None => forall|k: int| !self.exact(encode_utf8(id@), k),
            },
    {
        let idb = id.as_bytes();
        let mut i: usize = 0;
        while i < self.flows.len()
            invariant
                i <= self.flows@.len(),
                idb@ == encode_utf8(id@),
                forall|k: int| 0 <= k < i ==> !self.exact(encode_utf8(id@), k),
            decreases self.flows@.len() - i,
        {
            if bytes_equal(self.flows[i].id.as_str().as_bytes(), idb) {
                return Some(i);
            }
            i = i + 1;
        }
        None
    }

    /// Position of the entry `id` names; see [`ClientState::lookup`].
    pub fn position(&self, id: &str) -> (res: Option<usize>)
        requires
            self.wf(),
        ensures
            match res {
                Some(i) => self.lookup(encode_utf8(id@)) == Some(i as int) && i < self.flows@.len(),
                None => self.lookup(encode_utf8(id@)) is None,
            },
    {
        proof {
            self.lemma_lookup_in_range(encode_utf8(id@));
        }
        let idb = id.as_bytes();
        match self.position_exact(id) {
            Some(k) => {
                assert forall|k2: int| self.exact(encode_utf8(id@), k2) implies k2 == k by {
                    if k2 < k {
                        assert(self.flows@[k2].key() != self.flows@[k as int].key());
                    } else if k2 > k {
                        assert(self.flows@[k as int].key() != self.flows@[k2].key());
                    }
                }
                let ghost c = choose|k2: int| self.exact(encode_utf8(id@), k2);
                assert(self.exact(encode_utf8(id@), c));
                assert(c == k);
                return Some(k);
            },
            None => {},
        }
        let mut i: usize = 0;
        while i < self.flows.len()
            invariant
                i <= self.flows@.len(),
                idb@ == encode_utf8(id@),
                forall|k: int| !self.exact(encode_utf8(id@), k),
                forall|k: int| 0 <= k < i ==> !is_prefix(encode_utf8(id@), (#[trigger] self.flows@[k]).hash_key()),
            decreases self.flows@.len() - i,
        {
            if starts_with(self.flows[i].info_hash.as_str().as_bytes(), idb) {
                assert(self.first_by_hash(encode_utf8(id@), i as int));
                assert(forall|k2: int| self.first_by_hash(encode_utf8(id@), k2) ==> k2 == i) by {
                    assert forall|k2: int| self.first_by_hash(encode_utf8(id@), k2) implies k2 == i by {
                        if k2 < i {
                        } else if k2 > i {
                            assert(!is_prefix(encode_utf8(id@), self.flows@[i as int].hash_key()));
                        }
                    }
                }
                let ghost c = choose|k2: int| self.first_by_hash(encode_utf8(id@), k2);
                assert(self.first_by_hash(encode_utf8(id@), c));
                assert(c == i);
                return Some(i);
            }
            i = i + 1;
        }
        None
    }

    /// Adds a flow, replacing the one with the same id if there is one.
    pub fn add(&mut self, entry: FlowEntry)
        requires
            old(self).wf(),
        ensures
            final(self).wf(),
            (exists|k: int| old(self).exact(entry.key(), k)) ==> exists|k: int|
                old(self).exact(entry.key(), k) && final(self).flows@ == old(self).flows@.update(k, entry),
            !(exists|k: int| old(self).exact(entry.key(), k)) ==> final(self).flows@ == old(self).flows@.push(entry),
    {
        match self.position_exact(entry.id.as_str()) {
            Some(k) => {
                let ghost before = self.flows@;
                self.flows.set(k, entry);
                assert(self.exact(entry.key(), k as int));
                assert forall|i: int, j: int| 0 <= i < j < self.flows@.len() implies (#[trigger] self.flows@[i]).key() != (#[trigger] self.flows@[j]).key() by {
                    if i != k && j != k {
                        assert(before[i].key() != before[j].key());
                    } else if i == k {
                        assert(before[j].key() != before[k as int].key());
                    } else {
                        assert(before[i].key() != before[k as int].key());
                    }
                }
            },
            None => {
                let ghost before = self.flows@;
                self.flows.push(entry);
                assert forall|i: int, j: int| 0 <= i < j < self.flows@.len() implies (#[trigger] self.flows@[i]).key() != (#[trigger] self.flows@[j]).key() by {
                    if j < before.len() {
                        assert(before[i].key() != before[j].key());
                    } else {
                        assert(!old(self).exact(entry.key(), i));
                    }
                }
            },
        }
    }

    /// The flow `id` names: the one with that id, else the first whose info
    /// hash starts with it.
    pub fn get(&self, id: &str) -> (res: Option<&FlowEntry>)
        requires
            self.wf(),
        ensures
            match self.lookup(encode_utf8(id@)) {
                Some(k) => res == Some(&self.flows@[k]),
                None => res is None,
            },
    {
        match self.position(id) {
            Some(k) => {
                let r = &self.flows[k];
                Some(r)
            },
            None => None,
        }
    }

    /// The flow `id` names, for changing it in place; see
    /// [`ClientState::get`].
    pub fn get_mut(&mut self, id: &str) -> (res: Option<&mut FlowEntry>)
        requires
            old(self).wf(),
        ensures
            match old(self).lookup(encode_utf8(id@)) {
                Some(k) => res matches Some(r) && *r == old(self).flows@[k]
                    && final(self).flows@ == old(self).flows@.update(k, *final(r)),
                None => res is None && final(self).flows@ == old(self).flows@,
            },
    {
        match self.position(id) {
            Some(k) => Some(&mut self.flows[k]),
            None => None,
        }
    }

    /// Sets the state of the flow `id` names; an unknown id is an error and
    /// changes nothing.
    pub fn set_state(&mut self, id: &str, new_state: DownloadState) -> (res: Result<(), ClientError>)
        requires
            old(self).wf(),
        ensures
            final(self).wf(),
            match old(self).lookup(encode_utf8(id@)) {
                Some(k) => res is Ok && final(self).flows@ == old(self).flows@.update(
                    k,
                    old(self).flows@[k].with_state(new_state),
                ),
                None => (res matches Err(ClientError::FlowNotFound(s)) && s@ == id@)
                    && final(self).flows@ == old(self).flows@,
            },
    {
        match self.position(id) {
            Some(k) => {
                let ghost before = self.flows@;
                let e = &self.flows[k];
                let updated = FlowEntry {
                    id: e.id.clone(),
                    info_hash: e.info_hash.clone(),
                    name: e.name.clone(),
                    save_path: e.save_path.clone(),
                    metainfo_path: e.metainfo_path.clone(),
                    state: new_state,
                    downloaded: e.downloaded,
                    total_size: e.total_size,
                    peers: e.peers,
                };
                assert(updated == before[k as int].with_state(new_state));
                self.flows.set(k, updated);
                assert forall|i: int, j: int| 0 <= i < j < self.flows@.len() implies (#[trigger] self.flows@[i]).key() != (#[trigger] self.flows@[j]).key() by {
                    assert(before[i].key() != before[j].key());
                }
                Ok(())
            },
            None => Err(ClientError::FlowNotFound(id.to_string())),
        }
    }

    /// Removes every flow with this id or whose info hash starts with it; an
    /// id naming no flow is an error and changes nothing.
    pub fn remove_flow(&mut self, id: &str) -> (res: Result<(), ClientError>)
        requires
            old(self).wf(),
        ensures
            final(self).wf(),
            old(self).lookup(encode_utf8(id@)) is None ==> (res matches Err(ClientError::FlowNotFound(s)) && s@ == id@)
                && final(self).flows@ == old(self).flows@,
            old(self).lookup(encode_utf8(id@)) is Some ==> res is Ok
                && final(self).flows@ == kept_entries(old(self).flows@, encode_utf8(id@)),
    {
        if self.position(id).is_none() {
            return Err(ClientError::FlowNotFound(id.to_string()));
        }
        let idb = id.as_bytes();
        let mut rest: Vec<FlowEntry> = Vec::new();
        std::mem::swap(&mut self.flows, &mut rest);
        let ghost all = rest@;
        let mut kept: Vec<FlowEntry> = Vec::new();
        let ghost mut n: int = 0;
        while rest.len() > 0
            invariant
                0 <= n <= all.len(),
                rest@ == all.subrange(n, all.len() as int),
                old(self).flows@ == all,
                old(self).wf(),
                idb@ == encode_utf8(id@),
                kept@ == kept_entries(all.take(n), encode_utf8(id@)),
                forall|a: int| 0 <= a < kept@.len() ==> exists|b: int| 0 <= b < n && #[trigger] kept@[a] == all[b],
                forall|a: int, c: int| 0 <= a < c < kept@.len() ==> exists|b: int, d: int| 0 <= b < d < n && #[trigger] kept@[a] == all[b] && #[trigger] kept@[c] == all[d],
            decreases rest@.len(),
        {
            assert(all.take(n + 1).drop_last() =~= all.take(n));
            assert(rest@[0] == all[n]);
            let e = rest.remove(0);
            let same = bytes_equal(e.id.as_str().as_bytes(), idb);
            let by_hash = starts_with(e.info_hash.as_str().as_bytes(), idb);
            if !same && !by_hash {
                let ghost before = kept@;
                kept.push(e);
                assert forall|a: int| 0 <= a < kept@.len() implies exists|b: int| 0 <= b < n + 1 && #[trigger] kept@[a] == all[b] by {
                    if a < before.len() {
                        assert(kept@[a] == before[a]);
                    } else {
                        assert(kept@[a] == all[n]);
                    }
                }
                assert forall|a: int, c: int| 0 <= a < c < kept@.len() implies exists|b: int, d: int| 0 <= b < d < n + 1 && #[trigger] kept@[a] == all[b] && #[trigger] kept@[c] == all[d] by {
                    if c < before.len() {
                        assert(kept@[a] == before[a] && kept@[c] == before[c]);
                    } else {
                        assert(kept@[a] == before[a]);
                        let b = choose|b: int| 0 <= b < n && #[trigger] before[a] == all[b];
                        assert(kept@[c] == all[n]);
                        assert(0 <= b < n && kept@[a] == all[b] && kept@[c] == all[n]);
                    }
                }
            }
            proof {
                n = n + 1;
            }
            assert(rest@ =~= all.subrange(n, all.len() as int));
        }
        assert(n == all.len());
        assert(all.take(n) =~= all);
        assert forall|a: int, c: int| 0 <= a < c < kept@.len() implies (#[trigger] kept@[a]).key() != (#[trigger] kept@[c]).key() by {
            let (b, d) = choose|b: int, d: int| 0 <= b < d < all.len() && #[trigger] kept@[a] == all[b] && #[trigger] kept@[c] == all[d];
            assert(all[b].key() != all[d].key());
        }
        self.flows = kept;
        Ok(())
    }
}

impl Default for ClientState {
    fn default() -> (res: Self)
        ensures
            res.flows@.len() == 0,
    {
        ClientState { flows: Vec::new() }
    }
}

impl ClientState {
    /// The flow `id` names finished: a downloading flow becomes seeding with
    /// `downloaded` bytes; `true` when it changed (and the table should be
    /// saved).
    pub fn mark_seeding(&mut self, id: &str, downloaded: u64) -> (res: bool)
        requires
            old(self).wf(),
        ensures
            final(self).wf(),
            match old(self).lookup(encode_utf8(id@)) {
                Some(k) => if old(self).flows@[k].state is Downloading {
                    res && final(self).flows@ == old(self).flows@.update(
                        k,
                        old(self).flows@[k].with_progress(DownloadState::Seeding, downloaded, old(self).flows@[k].peers),
                    )
                } else {
                    !res && final(self).flows@ == old(self).flows@
                },
                None => !res && final(self).flows@ == old(self).flows@,
            },
    {
        match self.position(id) {
            Some(k) => {
                if matches!(self.flows[k].state, DownloadState::Downloading) {
                    let ghost before = self.flows@;
                    let e = self.flows[k].updated(DownloadState::Seeding, downloaded, self.flows[k].peers);
                    self.flows.set(k, e);
                    assert forall|i: int, j: int| 0 <= i < j < self.flows@.len() implies (#[trigger] self.flows@[i]).key() != (#[trigger] self.flows@[j]).key() by {
                        assert(before[i].key() != before[j].key());
                    }
                    true
                } else {
                    false
                }
            },
            None => false,
        }
    }

    /// Periodic sync of the flow `id` names: its downloaded bytes and peer
    /// count, and seeding once complete if it was downloading.
    pub fn sync_progress(&mut self, id: &str, downloaded: u64, peers: usize, complete: bool)
        requires
            old(self).wf(),
        ensures
            final(self).wf(),
            match old(self).lookup(encode_utf8(id@)) {
                Some(k) => final(self).flows@ == old(self).flows@.update(
                    k,
                    old(self).flows@[k].with_progress(
                        if complete && old(self).flows@[k].state is Downloading {
                            DownloadState::Seeding
                        } else {
                            old(self).flows@[k].state
                        },
                        downloaded,
                        peers,
                    ),
                ),
                None => final(self).flows@ == old(self).flows@,
            },
    {
        match self.position(id) {
            Some(k) => {
                let ghost before = self.flows@;
                let state = if complete && matches!(self.flows[k].state, DownloadState::Downloading) {
                    DownloadState::Seeding
                } else {
                    self.flows[k].state.duplicate()
                };
                let e = self.flows[k].updated(state, downloaded, peers);
                self.flows.set(k, e);
                assert forall|i: int, j: int| 0 <= i < j < self.flows@.len() implies (#[trigger] self.flows@[i]).key() != (#[trigger] self.flows@[j]).key() by {
                    assert(before[i].key() != before[j].key());
                }
            },
            None => {},
        }
    }
}

/// The daemon starts a flow that is downloading or seeding and has a
/// metadata path.
pub open spec fn startable(e: FlowEntry) -> bool {
    (e.state is Downloading || e.state is Seeding) && e.metainfo_path@.len() > 0
}

/// The flows among the first `n` the daemon starts: their positions, and
/// whether each seeds.
pub open spec fn start_list(s: Seq<FlowEntry>, n: int) -> Seq<(usize, bool)>
    decreases n,
{
    if n <= 0 {
        Seq::empty()
    } else {
        let r = start_list(s, n - 1);
        if startable(s[n - 1]) {
            r.push(((n - 1) as usize, s[n - 1].state is Seeding))
        } else {
            r
        }
    }
}

impl ClientState {
    /// The flows the daemon starts, in table order: the position of each and
    /// whether it seeds.
    pub fn flows_to_start(&self) -> (res: Vec<(usize, bool)>)
        ensures
            res@ == start_list(self.flows@, self.flows@.len() as int),
            // Each entry names a flow that is downloading or seeding and has a
            // metadata path, with `true` exactly when it seeds; positions rise.
            forall|q: int|
                0 <= q < res@.len() ==> {
                    let k = (#[trigger] res@[q]).0 as int;
                    &&& 0 <= k < self.flows@.len()
                    &&& res@[q].1 == (self.flows@[k].state is Seeding)
                    &&& (self.flows@[k].state is Downloading || self.flows@[k].state is Seeding)
                    &&& self.flows@[k].metainfo_path@.len() > 0
                },
            forall|q1: int, q2: int| 0 <= q1 < q2 < res@.len() ==> (#[trigger] res@[q1]).0 < (#[trigger] res@[q2]).0,
            // Every downloading or seeding flow with a metadata path is started.
            forall|k: int|
                0 <= k < self.flows@.len() && ((#[trigger] self.flows@[k]).state is Downloading || self.flows@[k].state is Seeding)
                    && self.flows@[k].metainfo_path@.len() > 0 ==> exists|q: int| 0 <= q < res@.len() && res@[q] == (k as usize, self.flows@[k].state is Seeding),
    {
        let mut out: Vec<(usize, bool)> = Vec::new();
        let mut i: usize = 0;
        while i < self.flows.len()
            invariant
                i <= self.flows@.len(),
                out@ == start_list(self.flows@, i as int),
                forall|q: int|
                    0 <= q < out@.len() ==> {
                        let k = (#[trigger] out@[q]).0 as int;
                        &&& 0 <= k < i
                        &&& out@[q].1 == (self.flows@[k].state is Seeding)
                        &&& (self.flows@[k].state is Downloading || self.flows@[k].state is Seeding)
                        &&& self.flows@[k].metainfo_path@.len() > 0
                    },
                forall|q1: int, q2: int| 0 <= q1 < q2 < out@.len() ==> (#[trigger] out@[q1]).0 < (#[trigger] out@[q2]).0,
                forall|k: int|
                    0 <= k < i && ((#[trigger] self.flows@[k]).state is Downloading || self.flows@[k].state is Seeding)
                        && self.flows@[k].metainfo_path@.len() > 0 ==> exists|q: int| 0 <= q < out@.len() && out@[q] == (k as usize, self.flows@[k].state is Seeding),
            decreases self.flows@.len() - i,
        {
            let e = &self.flows[i];
            let active = matches!(e.state, DownloadState::Downloading) || matches!(e.state, DownloadState::Seeding);
            let ghost before = out@;
            if active && !e.metainfo_path.as_str().is_empty() {
                out.push((i, matches!(e.state, DownloadState::Seeding)));
                assert(out@[before.len() as int] == (i, self.flows@[i as int].state is Seeding));
            }
            proof {
                assert forall|k: int|
                    0 <= k < i + 1 && ((#[trigger] self.flows@[k]).state is Downloading || self.flows@[k].state is Seeding)
                        && self.flows@[k].metainfo_path@.len() > 0 implies exists|q: int| 0 <= q < out@.len() && out@[q] == (k as usize, self.flows@[k].state is Seeding) by {
                    if k < i {
                        let q = choose|q: int| 0 <= q < before.len() && before[q] == (k as usize, self.flows@[k].state is Seeding);
                        assert(out@[q] == before[q]);
                    } else {
                        assert(out@[before.len() as int] == (k as usize, self.flows@[k].state is Seeding));
                    }
                }
            }
            i = i + 1;
        }
        out
    }
}

/// What starting a flow did.
#[derive(Debug, Clone, Copy, PartialEq, Eq, Structural)]
pub enum StartOutcome {
    AlreadySeeding,
    AlreadyDownloading,
    Started,
}

impl ClientState {
    /// Starts the flow `id` names: a seeding or downloading flow is left as
    /// it is, any other becomes downloading; an unknown id is an error.
    pub fn start_flow(&mut self, id: &str) -> (res: Result<StartOutcome, ClientError>)
        requires
            old(self).wf(),
        ensures
            final(self).wf(),
            match old(self).lookup(encode_utf8(id@)) {
                Some(k) => if old(self).flows@[k].state is Seeding {
                    res == Ok::<StartOutcome, ClientError>(StartOutcome::AlreadySeeding) && final(self).flows@ == old(self).flows@
                } else if old(self).flows@[k].state is Downloading {
                    res == Ok::<StartOutcome, ClientError>(StartOutcome::AlreadyDownloading) && final(self).flows@ == old(self).flows@
                } else {
                    res == Ok::<StartOutcome, ClientError>(StartOutcome::Started) && final(self).flows@ == old(self).flows@.update(
                        k,
                        old(self).flows@[k].with_state(DownloadState::Downloading),
                    )
                },
                None => (res matches Err(ClientError::FlowNotFound(s)) && s@ == id@) && final(self).flows@ == old(self).flows@,
            },
    {
        match self.position(id) {
            Some(k) => {
                if matches!(self.flows[k].state, DownloadState::Seeding) {
                    Ok(StartOutcome::AlreadySeeding)
                } else if matches!(self.flows[k].state, DownloadState::Downloading) {
                    Ok(StartOutcome::AlreadyDownloading)
                } else {
                    let r = self.set_state(id, DownloadState::Downloading);
                    assert(r is Ok);
                    Ok(StartOutcome::Started)
                }
            },
            None => Err(ClientError::FlowNotFound(id.to_string())),
        }
    }
}

/// The entry of a newly added flow: its id is the first 8 hex digits of the
/// info hash, it is queued, nothing is downloaded and no peer connected.
pub fn new_flow_entry(meta: &Metainfo, save_path: String, metainfo_path: String) -> (res: FlowEntry)
    requires
        sizes_sum(meta.files@, meta.files@.len() as int) <= u64::MAX,
    ensures
        res.id@ == hex_encode_spec(meta.info_hash@.take(4)),
        res.info_hash@ == hex_encode_spec(meta.info_hash@),
        res.name == meta.name,
        res.save_path == save_path,
        res.metainfo_path == metainfo_path,
        res.state == DownloadState::Queued,
        res.downloaded == 0,
        res.total_size == sizes_sum(meta.files@, meta.files@.len() as int),
        res.peers == 0,
{
    let prefix = copy_range(&meta.info_hash, 0, 4);
    assert(meta.info_hash@.subrange(0, 4) =~= meta.info_hash@.take(4));
    FlowEntry {
        id: hex_encode(prefix.as_slice()),
        info_hash: hex_encode(&meta.info_hash),
        name: meta.name.clone(),
        save_path,
        metainfo_path,
        state: DownloadState::Queued,
        downloaded: 0,
        total_size: meta.total_size(),
        peers: 0,
    }
}


/// After removing `id`, no flow has that id or an info hash starting with
/// it, and the others stay.
pub proof fn lemma_removed_flows_gone(s: Seq<FlowEntry>, id: Seq<u8>)
    ensures
        forall|i: int| 0 <= i < kept_entries(s, id).len() ==> (#[trigger] kept_entries(s, id)[i]).key() != id
            && !is_prefix(id, kept_entries(s, id)[i].hash_key()),
        forall|i: int|
            0 <= i < s.len() && (#[trigger] s[i]).key() != id && !is_prefix(id, s[i].hash_key()) ==> kept_entries(
                s,
                id,
            ).contains(s[i]),
    decreases s.len(),
{
    if s.len() > 0 {
        lemma_removed_flows_gone(s.drop_last(), id);
        let r = kept_entries(s.drop_last(), id);
        assert forall|i: int|
            0 <= i < s.len() && (#[trigger] s[i]).key() != id && !is_prefix(id, s[i].hash_key()) implies kept_entries(
                s,
                id,
            ).contains(s[i]) by {
            if i < s.len() - 1 {
                assert(s.drop_last()[i] == s[i]);
                let w = choose|w: int| 0 <= w < r.len() && r[w] == s[i];
                assert(kept_entries(s, id)[w] == s[i]);
            } else {
                assert(kept_entries(s, id)[r.len() as int] == s[i]);
            }
        }
    }
}

} // verus!
