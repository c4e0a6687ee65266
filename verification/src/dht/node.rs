//! A DHT node: its settings, the write tokens it hands out (a peer may
//! announce or store only with the token it was last given), and how it
//! answers each message.
use vstd::prelude::*;

use rand::RngCore;

use crate::pieces::verify::hashes_equal;
use super::message::DhtMessage;
use super::node_id::NodeId;
use super::store::{
    announced, live_peers, live_values, addrs_for, store_clock, PeerEntry, ValueEntry, ValueStore, PEER_TTL_SECS,
    VALUE_TTL_SECS,
};
use super::table::{distinct_ids, has_id, is_closest, upsert_all, upsert_spec, NodeInfo, RoutingTable};

verus! {

broadcast use vstd::string::group_string_axioms;

/// Nodes per answer: the `K` of Kademlia.
pub const K: usize = 20;

/// DHT node settings.
#[derive(Debug, Clone)]
pub struct DhtConfig {
    /// Listening address, `ip:port`.
    pub bind_addr: String,
    /// Bootstrap nodes given by the user.
    pub bootstrap_nodes: Vec<String>,
    /// Where the routing table is kept; `None`: not kept.
    pub routing_table_path: Option<String>,
}

impl Default for DhtConfig {
    fn default() -> (res: Self)
        ensures
            res.bind_addr@ == "0.0.0.0:6881"@,
            res.bootstrap_nodes@.len() == 0,
            res.routing_table_path is None,
    {
        DhtConfig { bind_addr: "0.0.0.0:6881".to_string(), bootstrap_nodes: Vec::new(), routing_table_path: None }
    }
}

/// Calls `rand::thread_rng().fill_bytes`: 8 random bytes. Nothing is
/// promised of their value.
#[verifier::external_body]
fn random_token() -> (res: [u8; 8]) {
    let mut token = [0u8; 8];
    rand::thread_rng().fill_bytes(&mut token);
    token
}

/// The token last handed to each node, one entry per node.
#[derive(Debug)]
pub struct TokenTable {
    pub entries: Vec<(NodeId, [u8; 8])>,
}

impl TokenTable {
    /// No node has two entries.
    pub open spec fn wf(&self) -> bool {
        forall|i: int, j: int|
            0 <= i < j < self.entries@.len() ==> (#[trigger] self.entries@[i]).0.0@ != (#[trigger] self.entries@[j]).0.0@
    }

    /// The token of `node`, if it was given one.
    pub open spec fn token_of(&self, node: Seq<u8>) -> Option<Seq<u8>> {
        if exists|k: int| 0 <= k < self.entries@.len() && (#[trigger] self.entries@[k]).0.0@ == node {
            let k = choose|k: int| 0 <= k < self.entries@.len() && (#[trigger] self.entries@[k]).0.0@ == node;
            Some(self.entries@[k].1@)
        } else {
            None
        }
    }

    /// No token given.
    pub fn new() -> (res: Self)
        ensures
            res.wf(),
            res.entries@.len() == 0,
    {
        TokenTable { entries: Vec::new() }
    }

    fn position(&self, node: &NodeId) -> (res: Option<usize>)
        requires
            self.wf(),
        ensures
            match res {
                Some(k) => k < self.entries@.len() && self.entries@[k as int].0.0@ == node.0@,
                None => forall|k: int| 0 <= k < self.entries@.len() ==> (#[trigger] self.entries@[k]).0.0@ != node.0@,
            },
    {
        let mut i: usize = 0;
        while i < self.entries.len()
            invariant
                i <= self.entries@.len(),
                forall|k: int| 0 <= k < i ==> (#[trigger] self.entries@[k]).0.0@ != node.0@,
            decreases self.entries@.len() - i,
        {
            if hashes_equal(&self.entries[i].0.0, &node.0) {
                return Some(i);
            }
            i = i + 1;
        }
        None
    }

    /// Hands `node` a fresh random token, replacing its previous one.
    pub fn issue_token(&mut self, node: &NodeId) -> (res: [u8; 8])
        requires
            old(self).wf(),
        ensures
            final(self).wf(),
            final(self).token_of(node.0@) == Some(res@),
            forall|other: Seq<u8>| other != node.0@ ==> #[trigger] final(self).token_of(other) == old(self).token_of(other),
    {
        let token = random_token();
        let ghost before = self.entries@;
        match self.position(node) {
            Some(k) => {
                self.entries.set(k, (*node, token));
                assert forall|i: int, j: int| 0 <= i < j < self.entries@.len() implies (#[trigger] self.entries@[i]).0.0@ != (#[trigger] self.entries@[j]).0.0@ by {
                    assert(before[i].0.0@ != before[j].0.0@);
                }
                assert(self.entries@[k as int].0.0@ == node.0@);
                assert forall|other: Seq<u8>| other != node.0@ implies #[trigger] self.token_of(other) == old(self).token_of(other) by {
                    if exists|q: int| 0 <= q < before.len() && (#[trigger] before[q]).0.0@ == other {
                        let q = choose|q: int| 0 <= q < before.len() && (#[trigger] before[q]).0.0@ == other;
                        assert(self.entries@[q] == before[q]);
                        let q2 = choose|q2: int| 0 <= q2 < self.entries@.len() && (#[trigger] self.entries@[q2]).0.0@ == other;
                        assert(q2 == q) by {
                            if q2 != q {
                                assert(before[q2].0.0@ == other);
                            }
                        }
                    } else {
                        assert forall|q: int| 0 <= q < self.entries@.len() implies (#[trigger] self.entries@[q]).0.0@ != other by {
                            if q != k {
                                assert(self.entries@[q] == before[q]);
                            }
                        }
                    }
                }
                let ghost c = choose|q: int| 0 <= q < self.entries@.len() && (#[trigger] self.entries@[q]).0.0@ == node.0@;
                assert(c == k) by {
                    if c != k {
                        assert(before[c].0.0@ == node.0@);
                        assert(before[c].0.0@ != before[k as int].0.0@);
                    }
                }
            },
            None => {
                self.entries.push((*node, token));
                assert forall|i: int, j: int| 0 <= i < j < self.entries@.len() implies (#[trigger] self.entries@[i]).0.0@ != (#[trigger] self.entries@[j]).0.0@ by {
                    if j < before.len() {
                        assert(before[i].0.0@ != before[j].0.0@);
                    }
                }
                let ghost n = before.len() as int;
                assert(self.entries@[n].0.0@ == node.0@);
                assert forall|other: Seq<u8>| other != node.0@ implies #[trigger] self.token_of(other) == old(self).token_of(other) by {
                    if exists|q: int| 0 <= q < before.len() && (#[trigger] before[q]).0.0@ == other {
                        let q = choose|q: int| 0 <= q < before.len() && (#[trigger] before[q]).0.0@ == other;
                        assert(self.entries@[q] == before[q]);
                        let q2 = choose|q2: int| 0 <= q2 < self.entries@.len() && (#[trigger] self.entries@[q2]).0.0@ == other;
                        assert(q2 == q) by {
                            if q2 != q && q2 < n {
                                assert(before[q2].0.0@ == other);
                            }
                        }
                    } else {
                        assert forall|q: int| 0 <= q < self.entries@.len() implies (#[trigger] self.entries@[q]).0.0@ != other by {
                            if q < n {
                                assert(self.entries@[q] == before[q]);
                            }
                        }
                    }
                }
                let ghost c = choose|q: int| 0 <= q < self.entries@.len() && (#[trigger] self.entries@[q]).0.0@ == node.0@;
                assert(c == n);
            },
        }
        token
    }

    /// `token` is the one last handed to `node`.
    pub fn verify_token(&self, node: &NodeId, token: &[u8; 8]) -> (res: bool)
        requires
            self.wf(),
        ensures
            res == (self.token_of(node.0@) == Some(token@)),
    {
        match self.position(node) {
            Some(k) => {
                let ghost c = choose|q: int| 0 <= q < self.entries@.len() && (#[trigger] self.entries@[q]).0.0@ == node.0@;
                assert(c == k as int) by {
                    if c != k {
                        if c < k {
                            assert(self.entries@[c].0.0@ != self.entries@[k as int].0.0@);
                        } else {
                            assert(self.entries@[k as int].0.0@ != self.entries@[c].0.0@);
                        }
                    }
                }
                let t = &self.entries[k].1;
                let mut same = true;
                let mut i: usize = 0;
                while i < 8
                    invariant
                        i <= 8,
                        same == forall|q: int| 0 <= q < i ==> t@[q] == token@[q],
                    decreases 8 - i,
                {
                    if t[i] != token[i] {
                        same = false;
                    }
                    i = i + 1;
                }
                assert(same ==> t@ =~= token@);
                same
            },
            None => false,
        }
    }
}

/// A DHT node: its identifier, settings, known nodes, stored values and
/// peers, and the tokens it handed out.
#[derive(Debug)]
pub struct DhtNode {
    pub local_id: NodeId,
    pub config: DhtConfig,
    pub table: RoutingTable,
    pub store: ValueStore,
    pub tokens: TokenTable,
}

/// The tokens of `new` are those of `old` with `t` handed to `node`.
pub open spec fn token_issued(old: TokenTable, new: TokenTable, node: Seq<u8>, t: Seq<u8>) -> bool {
    &&& new.token_of(node) == Some(t)
    &&& forall|other: Seq<u8>| other != node ==> #[trigger] new.token_of(other) == old.token_of(other)
}

/// The store did not change.
pub open spec fn store_same(old: ValueStore, new: ValueStore) -> bool {
    new.values@ == old.values@ && new.peers@ == old.peers@
}

/// Everything but the known nodes is as it was.
pub open spec fn only_table(old: DhtNode, new: DhtNode) -> bool {
    store_same(old.store, new.store) && new.tokens.entries@ == old.tokens.entries@
}

impl DhtNode {
    /// The tables are well formed.
    pub open spec fn wf(&self) -> bool {
        &&& self.table.wf()
        &&& self.store.wf()
        &&& self.tokens.wf()
    }

    /// `new` is `self` after answering `msg` at time `now` with `res`, `n`
    /// being the sender at the address the message came from. The sender
    /// is recorded first; then: a ping is answered; `FindNode` gets the `K`
    /// closest nodes; `GetPeers` gets a fresh token and the live peers of
    /// the flow, or when there are none the `K` nodes closest to its hash;
    /// `AnnouncePeer` and `Store` are carried out and acknowledged only
    /// with the token last handed to the sender, else ignored; the nodes
    /// of `Nodes` are recorded; answers get no answer.
    pub open spec fn step(&self, new: &Self, msg: DhtMessage, n: NodeInfo, now: u64, res: Option<DhtMessage>) -> bool {
        let t1 = upsert_spec(self.table.nodes@, n);
        &&& new.local_id == self.local_id
        &&& new.config == self.config
        &&& new.table.local_id == self.table.local_id
        &&& match msg {
            DhtMessage::Ping { .. } => new.table.nodes@ == t1 && only_table(*self, *new)
                && res == Some(DhtMessage::Pong { sender: self.local_id }),
            DhtMessage::FindNode { target, .. } => new.table.nodes@ == t1 && only_table(*self, *new)
                && (res matches Some(DhtMessage::Nodes { sender, nodes }) && sender == self.local_id
                && is_closest(t1, target.0@, K as nat, nodes@)),
            DhtMessage::GetPeers { sender: from, info_hash } => {
                &&& new.table.nodes@ == t1
                &&& new.store.values@ == live_values(self.store.values@, now)
                &&& new.store.peers@ == live_peers(self.store.peers@, now)
                &&& res matches Some(DhtMessage::GotPeers { sender, token, peers, nodes }) && {
                    &&& sender == self.local_id
                    &&& token_issued(self.tokens, new.tokens, from.0@, token@)
                    &&& peers@.map_values(|a: String| a@) == addrs_for(new.store.peers@, info_hash@)
                    &&& peers@.len() == 0 ==> is_closest(t1, info_hash@, K as nat, nodes@)
                    &&& peers@.len() > 0 ==> nodes@.len() == 0
                }
            },
            DhtMessage::AnnouncePeer { sender: from, info_hash, token, addr } => {
                &&& new.table.nodes@ == t1
                &&& new.tokens.entries@ == self.tokens.entries@
                &&& if self.tokens.token_of(from.0@) == Some(token@) {
                    &&& new.store.values@ == live_values(self.store.values@, now)
                    &&& new.store.peers@ == announced(
                        live_peers(self.store.peers@, now),
                        PeerEntry { info_hash, addr, expires: (now + PEER_TTL_SECS) as u64 },
                    )
                    &&& res == Some(DhtMessage::AnnounceAck { sender: self.local_id })
                } else {
                    store_same(self.store, new.store) && res is None
                }
            },
            DhtMessage::Store { sender: from, key, value, token } => {
                &&& new.table.nodes@ == t1
                &&& new.tokens.entries@ == self.tokens.entries@
                &&& if self.tokens.token_of(from.0@) == Some(token@) {
                    &&& new.store.values@ == live_values(self.store.values@, now).push(
                        ValueEntry { key, value, expires: (now + VALUE_TTL_SECS) as u64 },
                    )
                    &&& new.store.peers@ == live_peers(self.store.peers@, now)
                    &&& res == Some(DhtMessage::StoreAck { sender: self.local_id })
                } else {
                    store_same(self.store, new.store) && res is None
                }
            },
            DhtMessage::Nodes { nodes, .. } => new.table.nodes@ == upsert_all(t1, nodes@) && only_table(*self, *new)
                && res is None,
            _ => new.table.nodes@ == t1 && only_table(*self, *new) && res is None,
        }
    }

    /// A node with a random identifier that knows nothing yet.
    pub fn new(config: DhtConfig) -> (res: Self)
        ensures
            res.wf(),
            res.config == config,
            res.table.local_id == res.local_id,
            res.table.nodes@.len() == 0,
            res.store.values@.len() == 0,
            res.store.peers@.len() == 0,
            res.tokens.entries@.len() == 0,
    {
        let local_id = NodeId::random();
        DhtNode {
            local_id,
            config,
            table: RoutingTable::new(local_id),
            store: ValueStore::new(),
            tokens: TokenTable::new(),
        }
    }

    /// A node with a random identifier whose table holds the nodes an
    /// earlier run saved, recorded in turn; it has no values, peers or
    /// tokens yet.
    pub fn with_saved_nodes(config: DhtConfig, saved: &Vec<NodeInfo>) -> (res: Self)
        ensures
            res.wf(),
            res.config == config,
            res.table.local_id == res.local_id,
            res.table.nodes@ == upsert_all(Seq::empty(), saved@),
            res.store.values@.len() == 0,
            res.store.peers@.len() == 0,
            res.tokens.entries@.len() == 0,
    {
        let mut node = DhtNode::new(config);
        let mut i: usize = 0;
        while i < saved.len()
            invariant
                i <= saved@.len(),
                node.wf(),
                node.config == config,
                node.table.local_id == node.local_id,
                node.table.nodes@ == upsert_all(Seq::empty(), saved@.take(i as int)),
                node.store.values@.len() == 0,
                node.store.peers@.len() == 0,
                node.tokens.entries@.len() == 0,
            decreases saved@.len() - i,
        {
            assert(saved@.take(i + 1).drop_last() =~= saved@.take(i as int));
            node.table.upsert(saved[i].duplicate());
            i = i + 1;
        }
        assert(saved@.take(saved@.len() as int) =~= saved@);
        node
    }

    /// The known nodes, in the order they were first recorded: what is
    /// saved for the next run.
    pub fn saved_nodes(&self) -> (res: Vec<NodeInfo>)
        ensures
            res@ == self.table.nodes@,
    {
        self.table.all_nodes()
    }

    /// The settings.
    pub fn config(&self) -> (res: &DhtConfig)
        ensures
            *res == self.config,
    {
        &self.config
    }

    /// Number of known nodes.
    pub fn routing_table_size(&self) -> (res: usize)
        ensures
            res == self.table.nodes@.len(),
    {
        self.table.len()
    }

    /// The `K` known nodes closest to `target`, nearest first.
    pub fn closest_nodes(&self, target: &NodeId) -> (res: Vec<NodeInfo>)
        requires
            self.wf(),
        ensures
            is_closest(self.table.nodes@, target.0@, K as nat, res@),
    {
        self.table.closest(target, K)
    }

    /// Records the node `id` at `addr`.
    pub fn add_node(&mut self, id: NodeId, addr: String)
        requires
            old(self).wf(),
        ensures
            final(self).wf(),
            final(self).local_id == old(self).local_id,
            final(self).config == old(self).config,
            final(self).table.local_id == old(self).table.local_id,
            final(self).table.nodes@ == upsert_spec(old(self).table.nodes@, NodeInfo { id, addr }),
            only_table(*old(self), *final(self)),
    {
        self.table.upsert(NodeInfo::new(id, addr));
    }

    /// Answers `msg`, which came from `from_addr`, at time `now`; see
    /// [`DhtNode::step`].
    pub fn handle_message_at(&mut self, msg: DhtMessage, from_addr: &str, now: u64) -> (res: Option<DhtMessage>)
        requires
            old(self).wf(),
            now <= u64::MAX - VALUE_TTL_SECS,
        ensures
            final(self).wf(),
            exists|n: NodeInfo|
                n.id == msg.sender_spec() && n.addr@ == from_addr@ && #[trigger] old(self).step(final(self), msg, n, now, res),
    {
        let info = NodeInfo::new(*msg.sender(), from_addr.to_string());
        let ghost n = info;
        self.table.upsert(info);
        let ghost t1 = self.table.nodes@;
        let res = match msg {
            DhtMessage::Ping { .. } => Some(DhtMessage::Pong { sender: self.local_id }),
            DhtMessage::FindNode { target, .. } => {
                let nodes = self.table.closest(&target, K);
                Some(DhtMessage::Nodes { sender: self.local_id, nodes })
            },
            DhtMessage::GetPeers { sender, info_hash } => {
                let token = self.tokens.issue_token(&sender);
                let peers = self.store.get_peers_at(&info_hash, now);
                let nodes = if peers.len() == 0 {
                    self.table.closest(&NodeId(info_hash), K)
                } else {
                    Vec::new()
                };
                Some(DhtMessage::GotPeers { sender: self.local_id, token, peers, nodes })
            },
            DhtMessage::AnnouncePeer { sender, info_hash, token, addr } => {
                if self.tokens.verify_token(&sender, &token) {
                    self.store.announce_peer_at(info_hash, addr, now);
                    Some(DhtMessage::AnnounceAck { sender: self.local_id })
                } else {
                    None
                }
            },
            DhtMessage::Store { sender, key, value, token } => {
                if self.tokens.verify_token(&sender, &token) {
                    self.store.put_at(key, value, now);
                    Some(DhtMessage::StoreAck { sender: self.local_id })
                } else {
                    None
                }
            },
            DhtMessage::Nodes { nodes, .. } => {
                let mut i: usize = 0;
                while i < nodes.len()
                    invariant
                        i <= nodes@.len(),
                        self.table.wf(),
                        self.table.local_id == old(self).table.local_id,
                        self.local_id == old(self).local_id,
                        self.config == old(self).config,
                        self.store == old(self).store,
                        self.tokens == old(self).tokens,
                        self.table.nodes@ == upsert_all(t1, nodes@.take(i as int)),
                    decreases nodes@.len() - i,
                {
                    assert(nodes@.take(i + 1).drop_last() =~= nodes@.take(i as int));
                    self.table.upsert(nodes[i].duplicate());
                    i = i + 1;
                }
                assert(nodes@.take(nodes@.len() as int) =~= nodes@);
                None
            },
            _ => None,
        };
        assert(old(self).step(self, msg, n, now, res));
        res
    }

    /// Answers `msg`, which came from `from_addr`, now; see
    /// [`DhtNode::handle_message_at`].
    pub fn handle_message(&mut self, msg: DhtMessage, from_addr: &str) -> (res: Option<DhtMessage>)
        requires
            old(self).wf(),
        ensures
            final(self).wf(),
            exists|now: u64, n: NodeInfo|
                n.id == msg.sender_spec() && n.addr@ == from_addr@ && #[trigger] old(self).step(final(self), msg, n, now, res),
    {
        let now = store_clock();
        self.handle_message_at(msg, from_addr, now)
    }
}

/// A peer that announces itself with the token a `GetPeers` just handed it
/// is accepted: the announce is acknowledged and the peer recorded.
pub proof fn lemma_announce_with_issued_token(
    s0: DhtNode,
    s1: DhtNode,
    s2: DhtNode,
    sender: NodeId,
    info_hash: [u8; 32],
    n1: NodeInfo,
    now1: u64,
    r1: Option<DhtMessage>,
    info_hash2: [u8; 32],
    addr: String,
    n2: NodeInfo,
    now2: u64,
    r2: Option<DhtMessage>,
)
    requires
        s0.step(&s1, DhtMessage::GetPeers { sender, info_hash }, n1, now1, r1),
        r1 matches Some(DhtMessage::GotPeers { token, .. }) && s1.step(
            &s2,
            DhtMessage::AnnouncePeer { sender, info_hash: info_hash2, token, addr },
            n2,
            now2,
            r2,
        ),
    ensures
        r2 == Some(DhtMessage::AnnounceAck { sender: s0.local_id }),
        s2.store.peers@ == announced(
            live_peers(s1.store.peers@, now2),
            PeerEntry { info_hash: info_hash2, addr, expires: (now2 + PEER_TTL_SECS) as u64 },
        ),
{
}

/// A node started from the nodes another node saved knows exactly those
/// nodes, in the same order.
pub proof fn lemma_saved_nodes_restore(saved: Seq<NodeInfo>)
    requires
        distinct_ids(saved),
    ensures
        upsert_all(Seq::empty(), saved) == saved,
    decreases saved.len(),
{
    if saved.len() > 0 {
        let init = saved.drop_last();
        assert(distinct_ids(init)) by {
            assert forall|i: int, j: int| 0 <= i < j < init.len() implies (#[trigger] init[i]).id.0@ != (#[trigger] init[j]).id.0@ by {
                assert(init[i] == saved[i] && init[j] == saved[j]);
            }
        }
        lemma_saved_nodes_restore(init);
        assert(!exists|k: int| has_id(init, saved.last().id.0@, k)) by {
            if exists|k: int| has_id(init, saved.last().id.0@, k) {
                let k = choose|k: int| has_id(init, saved.last().id.0@, k);
                assert(saved[k].id.0@ == saved[saved.len() - 1].id.0@);
            }
        }
        assert(init.push(saved.last()) =~= saved);
    }
}

} // verus!
