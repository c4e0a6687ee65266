//! Rarest-first piece selection: the pieces that fewest peers have go first.
use vstd::prelude::*;

use super::scheduler::blocks::count_true;
use super::scheduler::pick::peer_has;

verus! {

/// Availability after a peer with `bits` joins: each of its pieces gains one.
pub open spec fn with_peer(avail: Seq<u32>, bits: Seq<bool>) -> Seq<u32> {
    Seq::new(avail.len(), |i: int| if i < bits.len() && bits[i] { (avail[i] + 1) as u32 } else { avail[i] })
}

/// Availability after a peer with `bits` leaves: each of its pieces loses
/// one, never going below zero.
pub open spec fn without_peer(avail: Seq<u32>, bits: Seq<bool>) -> Seq<u32> {
    Seq::new(
        avail.len(),
        |i: int| if i < bits.len() && bits[i] && avail[i] > 0 { (avail[i] - 1) as u32 } else { avail[i] },
    )
}

/// Piece picker for one file.
pub struct PiecePicker {
    num_pieces: usize,
    /// Pieces we have, complete and verified.
    have: Vec<bool>,
    /// Pieces being downloaded.
    in_progress: Vec<bool>,
    /// How many peers have each piece.
    availability: Vec<u32>,
}

impl PiecePicker {
    /// Number of pieces.
    pub closed spec fn size(&self) -> nat {
        self.num_pieces as nat
    }

    /// Which pieces we have.
    pub closed spec fn have(&self) -> Seq<bool> {
        self.have@
    }

    /// Which pieces are being downloaded.
    pub closed spec fn in_progress(&self) -> Seq<bool> {
        self.in_progress@
    }

    /// How many peers have each piece.
    pub closed spec fn availability(&self) -> Seq<u32> {
        self.availability@
    }

    /// Every table has one entry per piece.
    pub open spec fn wf(&self) -> bool {
        &&& self.have().len() == self.size()
        &&& self.in_progress().len() == self.size()
        &&& self.availability().len() == self.size()
    }

    /// Piece `i` may be picked for this peer.
    pub open spec fn pickable(&self, peer: Seq<bool>, i: int) -> bool {
        &&& 0 <= i < self.size()
        &&& !self.have()[i]
        &&& !self.in_progress()[i]
        &&& peer_has(peer, i)
    }

    /// `i` is the rarest pickable piece, the first one on a tie.
    pub open spec fn is_rarest(&self, peer: Seq<bool>, i: int) -> bool {
        &&& self.pickable(peer, i)
        &&& forall|q: int| 0 <= q < i && self.pickable(peer, q) ==> #[trigger] self.availability()[q] > self.availability()[i]
        &&& forall|q: int| i < q < self.size() && self.pickable(peer, q) ==> #[trigger] self.availability()[q] >= self.availability()[i]
    }

    /// A picker for `num_pieces` pieces: nothing owned, nothing in progress,
    /// no availability.
    pub fn new(num_pieces: usize) -> (res: Self)
        ensures
            res.wf(),
            res.size() == num_pieces,
            res.have() == Seq::new(num_pieces as nat, |i: int| false),
            res.in_progress() == Seq::new(num_pieces as nat, |i: int| false),
            res.availability() == Seq::new(num_pieces as nat, |i: int| 0u32),
    {
        let mut have: Vec<bool> = Vec::new();
        let mut in_progress: Vec<bool> = Vec::new();
        let mut availability: Vec<u32> = Vec::new();
        let mut i: usize = 0;
        while i < num_pieces
            invariant
                i <= num_pieces,
                have@ == Seq::new(i as nat, |k: int| false),
                in_progress@ == Seq::new(i as nat, |k: int| false),
                availability@ == Seq::new(i as nat, |k: int| 0u32),
            decreases num_pieces - i,
        {
            have.push(false);
            in_progress.push(false);
            availability.push(0);
            i = i + 1;
            assert(have@ =~= Seq::new(i as nat, |k: int| false));
            assert(in_progress@ =~= Seq::new(i as nat, |k: int| false));
            assert(availability@ =~= Seq::new(i as nat, |k: int| 0u32));
        }
        PiecePicker { num_pieces, have, in_progress, availability }
    }

    /// A new peer's pieces each gain one availability.
    pub fn add_peer_bitfield(&mut self, bitfield: &[bool])
        requires
            old(self).wf(),
            forall|i: int|
                0 <= i < bitfield@.len() && i < old(self).size() && bitfield@[i]
                    ==> #[trigger] old(self).availability()[i] < u32::MAX,
        ensures
            final(self).wf(),
            final(self).size() == old(self).size(),
            final(self).have() == old(self).have(),
            final(self).in_progress() == old(self).in_progress(),
            final(self).availability() == with_peer(old(self).availability(), bitfield@),
    {
        let n = bitfield.len();
        let mut i: usize = 0;
        while i < n
            invariant
                n == bitfield@.len(),
                i <= n,
                self.wf(),
                self.num_pieces == old(self).num_pieces,
                self.have@ == old(self).have@,
                self.in_progress@ == old(self).in_progress@,
                forall|k: int|
                    0 <= k < old(self).num_pieces ==> #[trigger] self.availability@[k] == if k < i
                        && bitfield@[k] {
                        (old(self).availability@[k] + 1) as u32
                    } else {
                        old(self).availability@[k]
                    },
                forall|k: int|
                    0 <= k < bitfield@.len() && k < old(self).size() && bitfield@[k]
                        ==> #[trigger] old(self).availability()[k] < u32::MAX,
            decreases n - i,
        {
            if i < self.num_pieces && bitfield[i] {
                assert(old(self).availability()[i as int] < u32::MAX);
                assert(self.availability@[i as int] == old(self).availability@[i as int]);
                self.availability[i] = self.availability[i] + 1;
            }
            i = i + 1;
        }
        assert(self.availability@ =~= Seq::new(
            old(self).num_pieces as nat,
            |i: int|
                if i < bitfield@.len() && bitfield@[i] {
                    (old(self).availability@[i] + 1) as u32
                } else {
                    old(self).availability@[i]
                },
        ));
    }

    /// A peer announces piece `index`.
    pub fn add_peer_have(&mut self, index: usize)
        requires
            old(self).wf(),
            index < old(self).size() ==> old(self).availability()[index as int] < u32::MAX,
        ensures
            final(self).wf(),
            final(self).size() == old(self).size(),
            final(self).have() == old(self).have(),
            final(self).in_progress() == old(self).in_progress(),
            final(self).availability() == if index < old(self).size() {
                old(self).availability().update(index as int, (old(self).availability()[index as int] + 1) as u32)
            } else {
                old(self).availability()
            },
    {
        if index < self.num_pieces {
            self.availability[index] = self.availability[index] + 1;
        }
    }

    /// A peer leaves: each piece it had loses one availability (never below 0).
    pub fn remove_peer_bitfield(&mut self, bitfield: &[bool])
        requires
            old(self).wf(),
        ensures
            final(self).wf(),
            final(self).size() == old(self).size(),
            final(self).have() == old(self).have(),
            final(self).in_progress() == old(self).in_progress(),
            final(self).availability() == without_peer(old(self).availability(), bitfield@),
    {
        let n = bitfield.len();
        let mut i: usize = 0;
        while i < n
            invariant
                n == bitfield@.len(),
                i <= n,
                self.wf(),
                self.num_pieces == old(self).num_pieces,
                self.have@ == old(self).have@,
                self.in_progress@ == old(self).in_progress@,
                forall|k: int|
                    0 <= k < old(self).num_pieces ==> #[trigger] self.availability@[k] == if k < i
                        && bitfield@[k] && old(self).availability@[k] > 0 {
                        (old(self).availability@[k] - 1) as u32
                    } else {
                        old(self).availability@[k]
                    },
            decreases n - i,
        {
            if i < self.num_pieces && bitfield[i] && self.availability[i] > 0 {
                self.availability[i] = self.availability[i] - 1;
            }
            i = i + 1;
        }
        assert(self.availability@ =~= Seq::new(
            old(self).num_pieces as nat,
            |i: int|
                if i < bitfield@.len() && bitfield@[i] && old(self).availability@[i] > 0 {
                    (old(self).availability@[i] - 1) as u32
                } else {
                    old(self).availability@[i]
                },
        ));
    }

    /// Piece `index` is complete and verified.
    pub fn mark_complete(&mut self, index: usize)
        requires
            old(self).wf(),
        ensures
            final(self).wf(),
            final(self).size() == old(self).size(),
            final(self).availability() == old(self).availability(),
            index < old(self).size() ==> final(self).have() == old(self).have().update(index as int, true)
                && final(self).in_progress() == old(self).in_progress().update(index as int, false),
            index < old(self).size() ==> count_true(final(self).have()) == count_true(old(self).have()) + if old(
                self,
            ).have()[index as int] {
                0nat
            } else {
                1nat
            },
            index >= old(self).size() ==> final(self).have() == old(self).have()
                && final(self).in_progress() == old(self).in_progress(),
    {
        if index < self.num_pieces {
            proof {
                lemma_count_true_set(self.have@, index as int);
            }
            self.have[index] = true;
            self.in_progress[index] = false;
        }
    }

    /// Piece `index` failed: it goes back to the pool.
    pub fn mark_failed(&mut self, index: usize)
        requires
            old(self).wf(),
        ensures
            final(self).wf(),
            final(self).size() == old(self).size(),
            final(self).availability() == old(self).availability(),
            final(self).have() == old(self).have(),
            index < old(self).size() ==> final(self).in_progress() == old(self).in_progress().update(index as int, false),
            index >= old(self).size() ==> final(self).in_progress() == old(self).in_progress(),
    {
        if index < self.num_pieces {
            self.in_progress[index] = false;
        }
    }

    /// Picks the rarest piece the peer has that we neither have nor are
    /// downloading (the first one on a tie) and marks it in progress.
    pub fn pick(&mut self, peer_pieces: &[bool]) -> (res: Option<usize>)
        requires
            old(self).wf(),
        ensures
            final(self).wf(),
            final(self).size() == old(self).size(),
            final(self).have() == old(self).have(),
            final(self).availability() == old(self).availability(),
            match res {
                Some(i) => old(self).is_rarest(peer_pieces@, i as int)
                    && final(self).in_progress() == old(self).in_progress().update(i as int, true),
                None => (forall|i: int| !old(self).pickable(peer_pieces@, i))
                    && final(self).in_progress() == old(self).in_progress(),
            },
    {
        let mut best: Option<(usize, u32)> = None;
        let mut i: usize = 0;
        while i < self.num_pieces
            invariant
                self.wf(),
                *self == *old(self),
                i <= self.num_pieces,
                match best {
                    None => forall|q: int| 0 <= q < i ==> !self.pickable(peer_pieces@, q),
                    Some((b, a)) => {
                        &&& b < i
                        &&& self.pickable(peer_pieces@, b as int)
                        &&& a == self.availability()[b as int]
                        &&& forall|q: int| 0 <= q < i && self.pickable(peer_pieces@, q) ==> #[trigger] self.availability()[q] >= a
                        &&& forall|q: int| 0 <= q < b && self.pickable(peer_pieces@, q) ==> #[trigger] self.availability()[q] > a
                    },
                },
            decreases self.num_pieces - i,
        {
            if !self.have[i] && !self.in_progress[i] && i < peer_pieces.len() && peer_pieces[i] {
                let avail = self.availability[i];
                match best {
                    None => {
                        best = Some((i, avail));
                    },
                    Some((_, ba)) => {
                        if avail < ba {
                            best = Some((i, avail));
                        }
                    },
                }
            }
            i = i + 1;
        }
        match best {
            Some((index, _)) => {
                self.in_progress[index] = true;
                Some(index)
            },
            None => None,
        }
    }

    /// Every piece is complete.
    pub fn is_complete(&self) -> (res: bool)
        requires
            self.wf(),
        ensures
            res == forall|i: int| 0 <= i < self.size() ==> #[trigger] self.have()[i],
    {
        let mut i: usize = 0;
        while i < self.have.len()
            invariant
                self.wf(),
                i <= self.num_pieces,
                forall|q: int| 0 <= q < i ==> #[trigger] self.have@[q],
            decreases self.num_pieces - i,
        {
            if !self.have[i] {
                assert(!self.have()[i as int]);
                return false;
            }
            i = i + 1;
        }
        true
    }

    /// Number of complete pieces.
    pub fn num_complete(&self) -> (res: usize)
        requires
            self.wf(),
        ensures
            res == count_true(self.have()),
    {
        let mut count: usize = 0;
        let mut i: usize = 0;
        while i < self.have.len()
            invariant
                self.wf(),
                i <= self.num_pieces,
                count == count_true(self.have@.take(i as int)),
                count <= i,
            decreases self.num_pieces - i,
        {
            assert(self.have@.take(i + 1).drop_last() =~= self.have@.take(i as int));
            if self.have[i] {
                count = count + 1;
            }
            i = i + 1;
        }
        assert(self.have@.take(i as int) =~= self.have@);
        count
    }
}


/// Setting one entry to `true` counts one more, unless it already was.
proof fn lemma_count_true_set(s: Seq<bool>, i: int)
    requires
        0 <= i < s.len(),
    ensures
        count_true(s.update(i, true)) == count_true(s) + if s[i] { 0nat } else { 1nat },
    decreases s.len(),
{
    let u = s.update(i, true);
    if i == s.len() - 1 {
        assert(u.drop_last() =~= s.drop_last());
    } else {
        lemma_count_true_set(s.drop_last(), i);
        assert(u.drop_last() =~= s.drop_last().update(i, true));
    }
}

/// A peer that joins and then leaves with the same pieces leaves every
/// availability count as it found it (no count was at its maximum).
pub proof fn lemma_join_then_leave(avail: Seq<u32>, bits: Seq<bool>)
    requires
        forall|i: int| 0 <= i < avail.len() && i < bits.len() && bits[i] ==> #[trigger] avail[i] < u32::MAX,
    ensures
        without_peer(with_peer(avail, bits), bits) == avail,
{
    assert(without_peer(with_peer(avail, bits), bits) =~= avail);
}

/// A piece just picked is not picked again until it completes or fails.
pub proof fn lemma_picked_not_pickable(old: PiecePicker, new: PiecePicker, peer: Seq<bool>, i: int)
    requires
        old.wf(),
        old.is_rarest(peer, i),
        new.size() == old.size(),
        new.have() == old.have(),
        new.in_progress() == old.in_progress().update(i, true),
    ensures
        !new.pickable(peer, i),
{
}

} // verus!
