//! The nodes a DHT node knows, and the search for those closest to a target
//! by XOR distance.
use vstd::prelude::*;

use crate::pieces::verify::hashes_equal;
use super::node_id::{bytes_less, lex_lt, xor_bytes, NodeId};

verus! {

/// A known node: its identifier and address.
#[derive(Debug, Clone)]
pub struct NodeInfo {
    pub id: NodeId,
    pub addr: String,
}

impl NodeInfo {
    /// The node `id` at `addr`.
    pub fn new(id: NodeId, addr: String) -> (res: NodeInfo)
        ensures
            res.id == id,
            res.addr == addr,
    {
        NodeInfo { id, addr }
    }

    /// A copy of the entry.
    pub fn duplicate(&self) -> (res: NodeInfo)
        ensures
            res == *self,
    {
        NodeInfo { id: self.id, addr: self.addr.clone() }
    }
}

/// The XOR distance from node `n` to `target`.
pub open spec fn dist(n: NodeInfo, target: Seq<u8>) -> Seq<u8> {
    xor_bytes(n.id.0@, target)
}

/// `k` is the position of the node with identifier `id`.
pub open spec fn has_id(s: Seq<NodeInfo>, id: Seq<u8>, k: int) -> bool {
    0 <= k < s.len() && s[k].id.0@ == id
}

/// The nodes with `n` recorded: it replaces the entry with its identifier,
/// or is added at the end.
pub open spec fn upsert_spec(s: Seq<NodeInfo>, n: NodeInfo) -> Seq<NodeInfo> {
    if exists|k: int| has_id(s, n.id.0@, k) {
        s.update(choose|k: int| has_id(s, n.id.0@, k), n)
    } else {
        s.push(n)
    }
}

/// The nodes with each of `ns` recorded in turn.
pub open spec fn upsert_all(s: Seq<NodeInfo>, ns: Seq<NodeInfo>) -> Seq<NodeInfo>
    decreases ns.len(),
{
    if ns.len() == 0 {
        s
    } else {
        upsert_spec(upsert_all(s, ns.drop_last()), ns.last())
    }
}

/// No identifier occurs twice.
pub open spec fn distinct_ids(s: Seq<NodeInfo>) -> bool {
    forall|i: int, j: int| 0 <= i < j < s.len() ==> (#[trigger] s[i]).id.0@ != (#[trigger] s[j]).id.0@
}

/// `r` holds the `min(k, |s|)` nodes of `s` closest to `target`, nearest
/// first: each is a node of `s`, none twice, in order of distance, and no
/// node left out is closer than one taken.
pub open spec fn is_closest(s: Seq<NodeInfo>, target: Seq<u8>, k: nat, r: Seq<NodeInfo>) -> bool {
    &&& r.len() == if k < s.len() { k } else { s.len() }
    &&& forall|i: int| 0 <= i < r.len() ==> s.contains(#[trigger] r[i])
    &&& distinct_ids(r)
    &&& forall|i: int, j: int| 0 <= i < j < r.len() ==> !lex_lt(dist(#[trigger] r[j], target), dist(#[trigger] r[i], target))
    &&& forall|j: int, i: int|
        0 <= j < s.len() && 0 <= i < r.len() && (forall|q: int| 0 <= q < r.len() ==> (#[trigger] r[q]).id.0@ != s[j].id.0@)
            ==> !lex_lt(dist(#[trigger] s[j], target), dist(#[trigger] r[i], target))
}

/// Entries of `t` still `false`.
pub open spec fn count_open(t: Seq<bool>) -> nat
    decreases t.len(),
{
    if t.len() == 0 {
        0
    } else {
        count_open(t.drop_last()) + if t.last() { 0nat } else { 1nat }
    }
}

proof fn lemma_count_open_take(t: Seq<bool>, j: int)
    requires
        0 <= j < t.len(),
        !t[j],
    ensures
        count_open(t.update(j, true)) + 1 == count_open(t),
    decreases t.len(),
{
    if j < t.len() - 1 {
        assert(t.update(j, true).drop_last() =~= t.drop_last().update(j, true));
        lemma_count_open_take(t.drop_last(), j);
    } else {
        assert(t.update(j, true).drop_last() =~= t.drop_last());
    }
}

proof fn lemma_count_open_some(t: Seq<bool>)
    requires
        count_open(t) > 0,
    ensures
        exists|j: int| 0 <= j < t.len() && !t[j],
    decreases t.len(),
{
    if !t.last() {
        assert(!t[t.len() - 1]);
    } else {
        lemma_count_open_some(t.drop_last());
        let j = choose|j: int| 0 <= j < t.drop_last().len() && !t.drop_last()[j];
        assert(!t[j]);
    }
}

proof fn lemma_count_open_all(n: nat)
    ensures
        count_open(Seq::new(n, |i: int| false)) == n,
    decreases n,
{
    if n > 0 {
        assert(Seq::new(n, |i: int| false).drop_last() =~= Seq::new((n - 1) as nat, |i: int| false));
        lemma_count_open_all((n - 1) as nat);
    }
}

/// The nodes a DHT node knows.
#[derive(Debug)]
pub struct RoutingTable {
    /// The identifier of the node that owns the table.
    pub local_id: NodeId,
    pub nodes: Vec<NodeInfo>,
}

impl RoutingTable {
    /// No identifier occurs twice.
    pub open spec fn wf(&self) -> bool {
        distinct_ids(self.nodes@)
    }

    /// An empty table for the node `local_id`.
    pub fn new(local_id: NodeId) -> (res: Self)
        ensures
            res.wf(),
            res.local_id == local_id,
            res.nodes@.len() == 0,
    {
        RoutingTable { local_id, nodes: Vec::new() }
    }

    /// Number of known nodes.
    pub fn len(&self) -> (res: usize)
        ensures
            res == self.nodes@.len(),
    {
        self.nodes.len()
    }

    /// A copy of every known node, in order.
    pub fn all_nodes(&self) -> (res: Vec<NodeInfo>)
        ensures
            res@ == self.nodes@,
    {
        let mut out: Vec<NodeInfo> = Vec::new();
        let mut i: usize = 0;
        while i < self.nodes.len()
            invariant
                i <= self.nodes@.len(),
                out@ == self.nodes@.take(i as int),
            decreases self.nodes@.len() - i,
        {
            out.push(self.nodes[i].duplicate());
            i = i + 1;
            assert(out@ =~= self.nodes@.take(i as int));
        }
        assert(self.nodes@.take(self.nodes@.len() as int) =~= self.nodes@);
        out
    }

    /// Records node `n`: it replaces the entry with the same identifier, or
    /// is added at the end.
    pub fn upsert(&mut self, n: NodeInfo)
        requires
            old(self).wf(),
        ensures
            final(self).wf(),
            final(self).local_id == old(self).local_id,
            final(self).nodes@ == upsert_spec(old(self).nodes@, n),
    {
        let mut i: usize = 0;
        while i < self.nodes.len()
            invariant
                i <= self.nodes@.len(),
                *self == *old(self),
                self.wf(),
                forall|j: int| 0 <= j < i ==> (#[trigger] self.nodes@[j]).id.0@ != n.id.0@,
            decreases self.nodes@.len() - i,
        {
            if hashes_equal(&self.nodes[i].id.0, &n.id.0) {
                assert(has_id(self.nodes@, n.id.0@, i as int));
                assert forall|k: int| has_id(self.nodes@, n.id.0@, k) implies k == i by {
                    if k > i {
                        assert(self.nodes@[i as int].id.0@ != self.nodes@[k].id.0@);
                    }
                }
                let ghost before = self.nodes@;
                self.nodes.set(i, n);
                assert(self.nodes@ == before.update(i as int, n));
                assert forall|a: int, b: int| 0 <= a < b < self.nodes@.len() implies (#[trigger] self.nodes@[a]).id.0@
                    != (#[trigger] self.nodes@[b]).id.0@ by {
                    assert(before[a].id.0@ != before[b].id.0@);
                }
                return;
            }
            i = i + 1;
        }
        assert(!(exists|k: int| has_id(self.nodes@, n.id.0@, k)));
        let ghost before = self.nodes@;
        self.nodes.push(n);
        assert forall|a: int, b: int| 0 <= a < b < self.nodes@.len() implies (#[trigger] self.nodes@[a]).id.0@
            != (#[trigger] self.nodes@[b]).id.0@ by {
            if b < before.len() {
                assert(before[a].id.0@ != before[b].id.0@);
            }
        }
    }

    /// The `k` known nodes closest to `target`, nearest first; see
    /// [`is_closest`].
    #[verifier::rlimit(50)]
    pub fn closest(&self, target: &NodeId, k: usize) -> (res: Vec<NodeInfo>)
        requires
            self.wf(),
        ensures
            is_closest(self.nodes@, target.0@, k as nat, res@),
    {
        let n = self.nodes.len();
        let m = if k < n { k } else { n };
        let mut dists: Vec<[u8; 32]> = Vec::new();
        let mut taken: Vec<bool> = Vec::new();
        let mut q: usize = 0;
        while q < n
            invariant
                q <= n,
                n == self.nodes@.len(),
                dists@.len() == q,
                taken@ == Seq::new(q as nat, |i: int| false),
                forall|i: int| 0 <= i < q ==> (#[trigger] dists@[i])@ == dist(self.nodes@[i], target.0@),
            decreases n - q,
        {
            let d = self.nodes[q].id.distance(target);
            dists.push(d.0);
            taken.push(false);
            q = q + 1;
            assert(taken@ =~= Seq::new(q as nat, |i: int| false));
        }
        proof {
            lemma_count_open_all(n as nat);
        }
        let mut out: Vec<NodeInfo> = Vec::new();
        let ghost mut idx: Seq<int> = Seq::empty();
        let mut r: usize = 0;
        while r < m
            invariant
                r <= m,
                m <= n,
                m == if k < n { k } else { n },
                n == self.nodes@.len(),
                self.wf(),
                dists@.len() == n,
                taken@.len() == n,
                forall|i: int| 0 <= i < n ==> (#[trigger] dists@[i])@ == dist(self.nodes@[i], target.0@),
                count_open(taken@) == n - r,
                out@.len() == r,
                idx.len() == r,
                forall|i: int| 0 <= i < r ==> 0 <= #[trigger] idx[i] < n && taken@[idx[i]] && out@[i] == self.nodes@[idx[i]],
                forall|j: int| 0 <= j < n && #[trigger] taken@[j] ==> exists|i: int| 0 <= i < r && idx[i] == j,
                forall|i: int, i2: int| 0 <= i < i2 < r ==> #[trigger] idx[i] != #[trigger] idx[i2],
                forall|i: int, i2: int|
                    0 <= i < i2 < r ==> !lex_lt(dist(#[trigger] out@[i2], target.0@), dist(#[trigger] out@[i], target.0@)),
                forall|j: int, i: int|
                    0 <= j < n && 0 <= i < r && !#[trigger] taken@[j] ==> !lex_lt(
                        dist(self.nodes@[j], target.0@),
                        dist(#[trigger] out@[i], target.0@),
                    ),
            decreases m - r,
        {
            proof {
                lemma_count_open_some(taken@);
            }
            let mut best: usize = n;
            let mut j: usize = 0;
            while j < n
                invariant
                    j <= n,
                    n == self.nodes@.len(),
                    dists@.len() == n,
                    taken@.len() == n,
                    forall|i: int| 0 <= i < n ==> (#[trigger] dists@[i])@ == dist(self.nodes@[i], target.0@),
                    best == n || (best < j && !taken@[best as int]),
                    best == n ==> forall|q2: int| 0 <= q2 < j ==> #[trigger] taken@[q2],
                    best < n ==> forall|q2: int|
                        0 <= q2 < j && !#[trigger] taken@[q2] ==> !lex_lt(
                            dist(self.nodes@[q2], target.0@),
                            dist(self.nodes@[best as int], target.0@),
                        ),
                decreases n - j,
            {
                if !taken[j] {
                    if best == n {
                        best = j;
                        proof {
                            lemma_lex_lt_irreflexive_here(dist(self.nodes@[j as int], target.0@));
                        }
                    } else if bytes_less(&dists[j], &dists[best]) {
                        proof {
                            assert forall|q2: int|
                                0 <= q2 < j && !#[trigger] taken@[q2] implies !lex_lt(
                                dist(self.nodes@[q2], target.0@),
                                dist(self.nodes@[j as int], target.0@),
                            ) by {
                                if lex_lt(dist(self.nodes@[q2], target.0@), dist(self.nodes@[j as int], target.0@)) {
                                    super::node_id::lemma_lex_lt_transitive(
                                        dist(self.nodes@[q2], target.0@),
                                        dist(self.nodes@[j as int], target.0@),
                                        dist(self.nodes@[best as int], target.0@),
                                    );
                                }
                            }
                            lemma_lex_lt_irreflexive_here(dist(self.nodes@[j as int], target.0@));
                        }
                        best = j;
                    }
                }
                j = j + 1;
            }
            assert(best < n);
            let ghost old_taken = taken@;
            proof {
                lemma_count_open_take(taken@, best as int);
            }
            taken.set(best, true);
            out.push(self.nodes[best].duplicate());
            let ghost old_idx = idx;
            proof {
                idx = idx.push(best as int);
                assert forall|j2: int| 0 <= j2 < n && #[trigger] taken@[j2] implies exists|i: int|
                    0 <= i < r + 1 && idx[i] == j2 by {
                    if j2 != best {
                        assert(old_taken[j2]);
                        let i = choose|i: int| 0 <= i < r && old_idx[i] == j2;
                        assert(idx[i] == j2);
                    } else {
                        assert(idx[r as int] == j2);
                    }
                }
                assert forall|i: int, i2: int| 0 <= i < i2 < r + 1 implies #[trigger] idx[i] != #[trigger] idx[i2] by {
                    if i2 == r {
                        assert(old_taken[idx[i]]);
                    }
                }
            }
            r = r + 1;
        }
        proof {
            let s = self.nodes@;
            let rr = out@;
            assert forall|i: int| 0 <= i < rr.len() implies s.contains(#[trigger] rr[i]) by {
                assert(s[idx[i]] == rr[i]);
            }
            assert forall|a: int, b: int| 0 <= a < b < rr.len() implies (#[trigger] rr[a]).id.0@ != (#[trigger] rr[b]).id.0@ by {
                assert(idx[a] != idx[b]);
                if idx[a] < idx[b] {
                    assert(s[idx[a]].id.0@ != s[idx[b]].id.0@);
                } else {
                    assert(s[idx[b]].id.0@ != s[idx[a]].id.0@);
                }
            }
            assert forall|j: int, i: int|
                0 <= j < s.len() && 0 <= i < rr.len() && (forall|q: int| 0 <= q < rr.len() ==> (#[trigger] rr[q]).id.0@ != s[j].id.0@)
                implies !lex_lt(dist(#[trigger] s[j], target.0@), dist(#[trigger] rr[i], target.0@)) by {
                if taken@[j] {
                    let i2 = choose|i2: int| 0 <= i2 < r && idx[i2] == j;
                    assert(rr[i2] == s[j]);
                    assert(rr[i2].id.0@ != s[j].id.0@);
                }
            }
        }
        out
    }
}

proof fn lemma_lex_lt_irreflexive_here(a: Seq<u8>)
    ensures
        !lex_lt(a, a),
{
    super::node_id::lemma_lex_lt_irreflexive(a);
}

} // verus!
