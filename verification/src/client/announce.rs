//! Decisions of a tier's announce loop: which tracker goes first, what is
//! left to download, which event to announce, and which peers are new.
use vstd::prelude::*;

use rand::seq::SliceRandom;

use crate::tracker::types::{AnnounceEvent, PeerInfo};

verus! {

/// Calls `SliceRandom::shuffle` with the thread's generator: the same
/// trackers, each as often, in an order left to chance.
#[verifier::external_body]
fn shuffle_trackers(tier: &mut Vec<String>)
    ensures
        final(tier)@.to_multiset() == old(tier)@.to_multiset(),
        final(tier)@.len() == old(tier)@.len(),
{
    tier.shuffle(&mut rand::thread_rng());
}

/// A tier as its announce loop starts with it: its trackers in random
/// order (BEP 12).
pub fn shuffled_tier(tier: Vec<String>) -> (res: Vec<String>)
    ensures
        res@.to_multiset() == tier@.to_multiset(),
        res@.len() == tier@.len(),
{
    let mut t = tier;
    shuffle_trackers(&mut t);
    t
}

/// A tier after tracker `idx` answered: it moves to the front, the others
/// keep their order.
pub open spec fn promoted(tier: Seq<String>, idx: int) -> Seq<String> {
    seq![tier[idx]] + tier.remove(idx)
}

/// Moves the tracker that answered to the front of its tier.
pub fn promote(tier: &mut Vec<String>, idx: usize)
    requires
        idx < old(tier)@.len(),
    ensures
        final(tier)@ == promoted(old(tier)@, idx as int),
{
    if idx == 0 {
        assert(old(tier)@ =~= promoted(old(tier)@, 0));
        return;
    }
    let url = tier.remove(idx);
    tier.insert(0, url);
    assert(tier@ =~= promoted(old(tier)@, idx as int));
}

/// A promotion only reorders the tier: the same trackers, each as often.
pub proof fn lemma_promote_permutes(tier: Seq<String>, idx: int)
    requires
        0 <= idx < tier.len(),
    ensures
        promoted(tier, idx).len() == tier.len(),
        promoted(tier, idx).to_multiset() == tier.to_multiset(),
        promoted(tier, idx)[0] == tier[idx],
{
    let r = tier.remove(idx);
    vstd::seq_lib::lemma_seq_union_to_multiset_commutative(seq![tier[idx]], r);
    assert(tier =~= tier.subrange(0, idx) + seq![tier[idx]] + tier.subrange(idx + 1, tier.len() as int));
    assert(r =~= tier.subrange(0, idx) + tier.subrange(idx + 1, tier.len() as int));
    vstd::seq_lib::lemma_multiset_commutative(tier.subrange(0, idx), seq![tier[idx]]);
    vstd::seq_lib::lemma_multiset_commutative(tier.subrange(0, idx) + seq![tier[idx]], tier.subrange(idx + 1, tier.len() as int));
    vstd::seq_lib::lemma_multiset_commutative(tier.subrange(0, idx), tier.subrange(idx + 1, tier.len() as int));
    vstd::seq_lib::lemma_multiset_commutative(seq![tier[idx]], r);
}

/// Bytes left to download: the total less what is downloaded, never below
/// zero.
pub fn bytes_left(total: u64, downloaded: u64) -> (res: u64)
    ensures
        res == if downloaded <= total { total - downloaded } else { 0 },
{
    total.saturating_sub(downloaded)
}

/// The event of the next announce: `Completed` once the flow is complete,
/// else `Update`.
pub fn next_event(complete: bool) -> (res: AnnounceEvent)
    ensures
        res == if complete { AnnounceEvent::Completed } else { AnnounceEvent::Update },
{
    if complete {
        AnnounceEvent::Completed
    } else {
        AnnounceEvent::Update
    }
}

/// The addresses already connected to or tried, none twice.
pub struct KnownPeers {
    pub addrs: Vec<String>,
}

impl KnownPeers {
    /// No address occurs twice.
    pub open spec fn wf(&self) -> bool {
        forall|i: int, j: int| 0 <= i < j < self.addrs@.len() ==> (#[trigger] self.addrs@[i])@ != (#[trigger] self.addrs@[j])@
    }

    /// The address is known.
    pub open spec fn knows(&self, addr: Seq<char>) -> bool {
        exists|i: int| 0 <= i < self.addrs@.len() && (#[trigger] self.addrs@[i])@ == addr
    }

    /// No address known.
    pub fn new() -> (res: Self)
        ensures
            res.wf(),
            res.addrs@.len() == 0,
    {
        KnownPeers { addrs: Vec::new() }
    }

    /// Records the address; `true` when it was not known before.
    #[verifier::loop_isolation(false)]
    pub fn insert(&mut self, addr: &String) -> (res: bool)
        requires
            old(self).wf(),
        ensures
            final(self).wf(),
            res == !old(self).knows(addr@),
            res ==> final(self).addrs@ == old(self).addrs@.push(*addr),
            !res ==> final(self).addrs@ == old(self).addrs@,
    {
        let mut i: usize = 0;
        while i < self.addrs.len()
            invariant
                i <= self.addrs@.len(),
                forall|k: int| 0 <= k < i ==> (#[trigger] self.addrs@[k])@ != addr@,
            decreases self.addrs@.len() - i,
        {
            if self.addrs[i] == *addr {
                return false;
            }
            i = i + 1;
        }
        let ghost before = self.addrs@;
        self.addrs.push(addr.clone());
        assert forall|a: int, b: int| 0 <= a < b < self.addrs@.len() implies (#[trigger] self.addrs@[a])@ != (#[trigger] self.addrs@[b])@ by {
            if b < before.len() {
                assert(before[a]@ != before[b]@);
            }
        }
        true
    }

    /// The addresses of `peers` not known yet, in order and each once; they
    /// become known.
    pub fn take_new(&mut self, peers: &Vec<PeerInfo>) -> (res: Vec<String>)
        requires
            old(self).wf(),
        ensures
            final(self).wf(),
            final(self).addrs@ == old(self).addrs@ + res@,
            forall|i: int| 0 <= i < res@.len() ==> !old(self).knows((#[trigger] res@[i])@),
            forall|i: int| 0 <= i < peers@.len() ==> final(self).knows((#[trigger] peers@[i]).addr@),
    {
        let mut out: Vec<String> = Vec::new();
        let mut i: usize = 0;
        while i < peers.len()
            invariant
                i <= peers@.len(),
                self.wf(),
                old(self).wf(),
                self.addrs@ == old(self).addrs@ + out@,
                forall|k: int| 0 <= k < out@.len() ==> !old(self).knows((#[trigger] out@[k])@),
                forall|k: int| 0 <= k < i ==> self.knows((#[trigger] peers@[k]).addr@),
            decreases peers@.len() - i,
        {
            let ghost before = self.addrs@;
            let addr = &peers[i].addr;
            if self.insert(addr) {
                out.push(addr.clone());
                proof {
                    assert forall|k: int| 0 <= k < out@.len() implies !old(self).knows((#[trigger] out@[k])@) by {
                        if k == out@.len() - 1 {
                            if old(self).knows(addr@) {
                                let w = choose|w: int| 0 <= w < old(self).addrs@.len() && (#[trigger] old(self).addrs@[w])@ == addr@;
                                assert(before[w] == old(self).addrs@[w]);
                            }
                        }
                    }
                    assert(self.addrs@[before.len() as int] == *addr);
                }
            }
            proof {
                assert forall|k: int| 0 <= k < i + 1 implies self.knows((#[trigger] peers@[k]).addr@) by {
                    if k < i {
                        let w = choose|w: int| 0 <= w < before.len() && (#[trigger] before[w])@ == peers@[k].addr@;
                        assert(self.addrs@[w] == before[w]);
                    } else {
                        if !self.knows(addr@) {
                            assert(self.addrs@ == before);
                        }
                    }
                }
            }
            i = i + 1;
        }
        out
    }
}

} // verus!
