//! A filler's answers to block requests: the cancelled requests it holds and
//! the two checks around reading a block.
use vstd::prelude::*;

use super::worker::{ServeAction, ServeReply};

verus! {

/// A requested block: file, piece and byte offset in the piece.
#[derive(Debug, Clone, Copy, PartialEq, Eq, Structural)]
pub struct BlockKey {
    pub fi: u16,
    pub pi: u32,
    pub begin: u32,
}

/// Requests that the downloader cancelled and that have not been answered
/// yet; each request appears once.
pub struct CancelSet {
    entries: Vec<BlockKey>,
}

impl View for CancelSet {
    type V = Set<BlockKey>;

    closed spec fn view(&self) -> Set<BlockKey> {
        self.entries@.to_set()
    }
}

impl CancelSet {
    /// No request appears twice.
    pub closed spec fn wf(&self) -> bool {
        self.entries@.no_duplicates()
    }

    /// No cancelled request.
    pub fn new() -> (res: Self)
        ensures
            res.wf(),
            res@ == Set::<BlockKey>::empty(),
    {
        let res = CancelSet { entries: Vec::new() };
        assert(res@ =~= Set::<BlockKey>::empty());
        res
    }

    /// Whether `key` was cancelled.
    pub fn contains(&self, key: BlockKey) -> (res: bool)
        ensures
            res == self@.contains(key),
    {
        let mut i: usize = 0;
        while i < self.entries.len()
            invariant
                i <= self.entries@.len(),
                forall|k: int| 0 <= k < i ==> self.entries@[k] != key,
            decreases self.entries@.len() - i,
        {
            if self.entries[i] == key {
                assert(self.entries@.contains(key));
                return true;
            }
            i = i + 1;
        }
        assert(!self.entries@.contains(key));
        false
    }

    /// The downloader cancels `key`. Returns whether it was not yet there.
    pub fn insert(&mut self, key: BlockKey) -> (res: bool)
        requires
            old(self).wf(),
        ensures
            final(self).wf(),
            final(self)@ == old(self)@.insert(key),
            res == !old(self)@.contains(key),
    {
        if self.contains(key) {
            assert(self@.insert(key) =~= self@);
            false
        } else {
            let ghost before = self.entries@;
            self.entries.push(key);
            proof {
                before.lemma_push_to_set_commute(key);
            }
            true
        }
    }

    /// Takes `key` out of the set. Returns whether it was there.
    pub fn take(&mut self, key: BlockKey) -> (res: bool)
        requires
            old(self).wf(),
        ensures
            final(self).wf(),
            final(self)@ == old(self)@.remove(key),
            res == old(self)@.contains(key),
    {
        let mut i: usize = 0;
        while i < self.entries.len()
            invariant
                self.entries@ == old(self).entries@,
                self.wf(),
                i <= self.entries@.len(),
                forall|k: int| 0 <= k < i ==> self.entries@[k] != key,
            decreases self.entries@.len() - i,
        {
            if self.entries[i] == key {
                let ghost before = self.entries@;
                self.entries.remove(i);
                assert(self.entries@ == before.remove(i as int));
                assert(self.entries@.no_duplicates()) by {
                    assert forall|x: int, y: int|
                        0 <= x < self.entries@.len() && 0 <= y < self.entries@.len() && x != y
                        implies self.entries@[x] != self.entries@[y] by {
                        let bx = if x < i { x } else { x + 1 };
                        let by_ = if y < i { y } else { y + 1 };
                        assert(self.entries@[x] == before[bx]);
                        assert(self.entries@[y] == before[by_]);
                    }
                }
                assert(self@ =~= before.to_set().remove(key)) by {
                    assert forall|k: BlockKey| #[trigger] self@.contains(k) <==> (before.contains(k) && k != key) by {
                        if self.entries@.contains(k) {
                            let j = choose|j: int| 0 <= j < self.entries@.len() && self.entries@[j] == k;
                            if j < i {
                                assert(before[j] == k);
                                assert(before[i as int] == key);
                            } else {
                                assert(before[j + 1] == k);
                                assert(j + 1 != i);
                                assert(before[i as int] == key);
                            }
                        }
                        if before.contains(k) && k != key {
                            let j = choose|j: int| 0 <= j < before.len() && before[j] == k;
                            assert(j != i);
                            if j < i {
                                assert(self.entries@[j] == k);
                            } else {
                                assert(self.entries@[j - 1] == k);
                            }
                        }
                    }
                }
                assert(before.contains(key)) by {
                    assert(before[i as int] == key);
                }
                return true;
            }
            i = i + 1;
        }
        assert(!self.entries@.contains(key));
        assert(self@.remove(key) =~= self@);
        false
    }
}

/// We hold piece `pi` of file `fi`: both are in range and the piece is
/// marked.
pub open spec fn holds(have: Seq<Seq<bool>>, fi: int, pi: int) -> bool {
    &&& 0 <= fi < have.len()
    &&& 0 <= pi < have[fi].len()
    &&& have[fi][pi]
}

/// First check of a block request, before the block is read: a request that
/// was cancelled, or that names a file or piece we do not hold (a file index
/// past the files included), is rejected; otherwise the block is read. The
/// request leaves the cancelled set either way.
pub fn serve_check(have: &Vec<Vec<bool>>, cancels: &mut CancelSet, key: BlockKey) -> (res: ServeAction)
    requires
        old(cancels).wf(),
    ensures
        final(cancels).wf(),
        final(cancels)@ == old(cancels)@.remove(key),
        res == if old(cancels)@.contains(key) || !holds(have@.map_values(|r: Vec<bool>| r@), key.fi as int, key.pi as int) {
            ServeAction::Reject
        } else {
            ServeAction::ReadBlock
        },
{
    let cancelled = cancels.take(key);
    if cancelled {
        return ServeAction::Reject;
    }
    let fi = key.fi as usize;
    let pi = key.pi as usize;
    let held = fi < have.len() && pi < have[fi].len() && have[fi][pi];
    if held {
        ServeAction::ReadBlock
    } else {
        ServeAction::Reject
    }
}

/// Second check, once the block was read: a failed read is rejected and
/// leaves the set as it is; after a good read the request is taken out of
/// the cancelled set, and the block is sent unless it was cancelled while it
/// was read.
pub fn serve_reply(cancels: &mut CancelSet, key: BlockKey, read_ok: bool) -> (res: ServeReply)
    requires
        old(cancels).wf(),
    ensures
        final(cancels).wf(),
        final(cancels)@ == if read_ok { old(cancels)@.remove(key) } else { old(cancels)@ },
        res == if read_ok && !old(cancels)@.contains(key) { ServeReply::Piece } else { ServeReply::Reject },
{
    if !read_ok {
        return ServeReply::Reject;
    }
    let cancelled = cancels.take(key);
    if cancelled {
        ServeReply::Reject
    } else {
        ServeReply::Piece
    }
}

} // verus!
