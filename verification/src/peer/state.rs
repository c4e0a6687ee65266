//! What a connected peer has of each file, and the requests in flight to it.
use std::collections::HashMap;

use vstd::prelude::*;

use crate::protocol::bitmap::{bit_of, decode_bitmap};

verus! {

broadcast use vstd::std_specs::hash::group_hash_axioms;

/// A block request in flight.
#[derive(Debug, Clone, Copy, PartialEq, Eq, Structural)]
pub struct PendingRequest {
    pub file_index: u16,
    pub piece_index: u32,
    pub begin: u32,
    pub length: u32,
}

/// What a remote peer has of one file.
#[derive(Debug, Clone)]
pub enum FileAvailability {
    Unknown,
    HaveAll,
    HaveNone,
    Bitmap(Vec<bool>),
}

/// A [`FileAvailability`] by value.
pub enum AvailabilityView {
    Unknown,
    HaveAll,
    HaveNone,
    Bitmap(Seq<bool>),
}

impl View for FileAvailability {
    type V = AvailabilityView;

    open spec fn view(&self) -> AvailabilityView {
        match self {
            FileAvailability::Unknown => AvailabilityView::Unknown,
            FileAvailability::HaveAll => AvailabilityView::HaveAll,
            FileAvailability::HaveNone => AvailabilityView::HaveNone,
            FileAvailability::Bitmap(bits) => AvailabilityView::Bitmap(bits@),
        }
    }
}

/// The peer has piece `index`: every piece under `HaveAll`, the set entries
/// of a bitmap, nothing otherwise.
pub open spec fn has_piece_spec(a: AvailabilityView, index: int) -> bool {
    match a {
        AvailabilityView::HaveAll => true,
        AvailabilityView::Bitmap(bits) => 0 <= index < bits.len() && bits[index],
        _ => false,
    }
}

/// A bitmap with piece `index` set: grown with `false` to cover it.
pub open spec fn with_piece(bits: Seq<bool>, index: nat) -> Seq<bool> {
    let len = if bits.len() > index { bits.len() } else { index + 1 };
    Seq::new(len, |i: int| i == index || (i < bits.len() && bits[i]))
}

/// The availability after the peer announced piece `index`: unchanged under
/// `HaveAll`, else a bitmap with the piece set.
pub open spec fn after_have_piece(a: Option<AvailabilityView>, index: nat) -> AvailabilityView {
    match a {
        Some(AvailabilityView::HaveAll) => AvailabilityView::HaveAll,
        Some(AvailabilityView::Bitmap(bits)) => AvailabilityView::Bitmap(with_piece(bits, index)),
        _ => AvailabilityView::Bitmap(with_piece(Seq::empty(), index)),
    }
}

/// The requests left after removing every one for `(file_index,
/// piece_index, begin)`, in order.
pub open spec fn without_request(s: Seq<PendingRequest>, file_index: u16, piece_index: u32, begin: u32) -> Seq<PendingRequest>
    decreases s.len(),
{
    if s.len() == 0 {
        s
    } else {
        let r = without_request(s.drop_last(), file_index, piece_index, begin);
        let x = s.last();
        if x.file_index == file_index && x.piece_index == piece_index && x.begin == begin {
            r
        } else {
            r.push(x)
        }
    }
}

impl FileAvailability {
    /// The peer has piece `index`.
    pub fn has_piece(&self, index: u32) -> (res: bool)
        ensures
            res == has_piece_spec(self@, index as int),
    {
        match self {
            FileAvailability::HaveAll => true,
            FileAvailability::HaveNone => false,
            FileAvailability::Unknown => false,
            FileAvailability::Bitmap(bits) => (index as usize) < bits.len() && bits[index as usize],
        }
    }
}

/// The session state with one peer.
#[derive(Debug, Clone)]
pub struct SessionState {
    /// Availability by file index.
    pub files: HashMap<u16, FileAvailability>,
    /// Number of files of the flow.
    pub num_files: usize,
    /// Requests in flight.
    pub pending: Vec<PendingRequest>,
}

impl SessionState {
    /// The availability of each file by value.
    pub open spec fn avail(&self) -> Map<u16, AvailabilityView> {
        self.files@.map_values(|a: FileAvailability| a@)
    }

    /// A session with nothing known and nothing in flight.
    pub fn new(num_files: usize) -> (res: Self)
        ensures
            res.avail() == Map::<u16, AvailabilityView>::empty(),
            res.num_files == num_files,
            res.pending@ == Seq::<PendingRequest>::empty(),
    {
        let files: HashMap<u16, FileAvailability> = HashMap::new();
        let res = SessionState { files, num_files, pending: Vec::new() };
        assert(res.avail() =~= Map::<u16, AvailabilityView>::empty());
        res
    }

    /// The peer has every piece of the file.
    pub fn apply_have_all(&mut self, file_index: u16)
        ensures
            final(self).avail() == old(self).avail().insert(file_index, AvailabilityView::HaveAll),
            final(self).num_files == old(self).num_files,
            final(self).pending@ == old(self).pending@,
    {
        self.files.insert(file_index, FileAvailability::HaveAll);
        assert(self.avail() =~= old(self).avail().insert(file_index, AvailabilityView::HaveAll));
    }

    /// The peer has no piece of the file.
    pub fn apply_have_none(&mut self, file_index: u16)
        ensures
            final(self).avail() == old(self).avail().insert(file_index, AvailabilityView::HaveNone),
            final(self).num_files == old(self).num_files,
            final(self).pending@ == old(self).pending@,
    {
        self.files.insert(file_index, FileAvailability::HaveNone);
        assert(self.avail() =~= old(self).avail().insert(file_index, AvailabilityView::HaveNone));
    }

    /// The peer announced piece `piece_index` of the file.
    pub fn apply_have_piece(&mut self, file_index: u16, piece_index: u32)
        requires
            piece_index < usize::MAX,
        ensures
            final(self).avail() == old(self).avail().insert(
                file_index,
                after_have_piece(
                    if old(self).avail().contains_key(file_index) { Some(old(self).avail()[file_index]) } else { None },
                    piece_index as nat,
                ),
            ),
            final(self).num_files == old(self).num_files,
            final(self).pending@ == old(self).pending@,
    {
        let ghost before = self.avail();
        let idx = piece_index as usize;
        let current = self.files.remove(&file_index);
        let next = match current {
            Some(FileAvailability::HaveAll) => FileAvailability::HaveAll,
            Some(FileAvailability::Bitmap(bits)) => {
                let mut bits = bits;
                let ghost old_bits = bits@;
                while bits.len() <= idx
                    invariant
                        idx < usize::MAX,
                        old_bits.len() <= bits@.len(),
                        bits@.len() <= (if old_bits.len() > idx { old_bits.len() } else { idx as nat + 1 }),
                        forall|i: int| 0 <= i < bits@.len() ==> #[trigger] bits@[i] == (i < old_bits.len() && old_bits[i]),
                    decreases idx + 1 - bits@.len(),
                {
                    bits.push(false);
                }
                bits.set(idx, true);
                assert(bits@ =~= with_piece(old_bits, idx as nat));
                FileAvailability::Bitmap(bits)
            },
            _ => {
                let mut bits: Vec<bool> = Vec::new();
                while bits.len() <= idx
                    invariant
                        idx < usize::MAX,
                        bits@.len() <= idx + 1,
                        forall|i: int| 0 <= i < bits@.len() ==> !#[trigger] bits@[i],
                    decreases idx + 1 - bits@.len(),
                {
                    bits.push(false);
                }
                bits.set(idx, true);
                assert(bits@ =~= with_piece(Seq::empty(), idx as nat));
                FileAvailability::Bitmap(bits)
            },
        };
        self.files.insert(file_index, next);
        assert(self.avail() =~= before.insert(
            file_index,
            after_have_piece(if before.contains_key(file_index) { Some(before[file_index]) } else { None }, piece_index as nat),
        ));
    }

    /// The peer sent its bitmap of the file: `8 * bitmap.len()` entries, MSB
    /// first.
    pub fn apply_have_bitmap(&mut self, file_index: u16, bitmap: &[u8])
        requires
            8 * bitmap@.len() <= usize::MAX,
        ensures
            final(self).avail() == old(self).avail().insert(
                file_index,
                AvailabilityView::Bitmap(decode_bitmap(bitmap@, 8 * bitmap@.len())),
            ),
            final(self).num_files == old(self).num_files,
            final(self).pending@ == old(self).pending@,
    {
        let mut bits: Vec<bool> = Vec::new();
        let mut j: usize = 0;
        while j < bitmap.len()
            invariant
                j <= bitmap@.len(),
                8 * bitmap@.len() <= usize::MAX,
                bits@ == decode_bitmap(bitmap@, 8 * bitmap@.len()).take(8 * j),
            decreases bitmap@.len() - j,
        {
            let byte = bitmap[j];
            let mut k: u8 = 0;
            while k < 8
                invariant
                    j < bitmap@.len(),
                    byte == bitmap@[j as int],
                    k <= 8,
                    8 * bitmap@.len() <= usize::MAX,
                    bits@ == decode_bitmap(bitmap@, 8 * bitmap@.len()).take(8 * j + k),
                decreases 8 - k,
            {
                let has = (byte >> (7 - k)) & 1 == 1;
                proof {
                    let i = 8 * j + k;
                    assert(i / 8 == j && i % 8 == k) by (nonlinear_arith)
                        requires
                            i == 8 * j + k,
                            0 <= k < 8,
                    ;
                    assert(has == bit_of(byte, k));
                }
                bits.push(has);
                k = k + 1;
                assert(bits@ =~= decode_bitmap(bitmap@, 8 * bitmap@.len()).take(8 * j + k));
            }
            j = j + 1;
        }
        assert(bits@ =~= decode_bitmap(bitmap@, 8 * bitmap@.len()));
        self.files.insert(file_index, FileAvailability::Bitmap(bits));
        assert(self.avail() =~= old(self).avail().insert(
            file_index,
            AvailabilityView::Bitmap(decode_bitmap(bitmap@, 8 * bitmap@.len())),
        ));
    }

    /// The peer has piece `piece_index` of the file (nothing known: no).
    pub fn peer_has_piece(&self, file_index: u16, piece_index: u32) -> (res: bool)
        ensures
            res == (self.avail().contains_key(file_index) && has_piece_spec(
                self.avail()[file_index],
                piece_index as int,
            )),
    {
        match self.files.get(&file_index) {
            Some(a) => a.has_piece(piece_index),
            None => false,
        }
    }

    /// Records a request in flight.
    pub fn add_pending(&mut self, req: PendingRequest)
        ensures
            final(self).pending@ == old(self).pending@.push(req),
            final(self).avail() == old(self).avail(),
            final(self).num_files == old(self).num_files,
    {
        self.pending.push(req);
    }

    /// Drops every request in flight for block `(file_index, piece_index,
    /// begin)`, keeping the others in order.
    pub fn remove_pending(&mut self, file_index: u16, piece_index: u32, begin: u32)
        ensures
            final(self).pending@ == without_request(old(self).pending@, file_index, piece_index, begin),
            final(self).avail() == old(self).avail(),
            final(self).num_files == old(self).num_files,
    {
        let mut kept: Vec<PendingRequest> = Vec::new();
        let mut i: usize = 0;
        while i < self.pending.len()
            invariant
                i <= self.pending@.len(),
                kept@ == without_request(self.pending@.take(i as int), file_index, piece_index, begin),
            decreases self.pending@.len() - i,
        {
            let r = self.pending[i];
            assert(self.pending@.take(i + 1).drop_last() =~= self.pending@.take(i as int));
            if !(r.file_index == file_index && r.piece_index == piece_index && r.begin == begin) {
                kept.push(r);
            }
            i = i + 1;
        }
        assert(self.pending@.take(self.pending@.len() as int) =~= self.pending@);
        self.pending = kept;
    }
}


/// After a peer announces piece `i`, it has piece `i`, and every other
/// piece it had before it still has.
pub proof fn lemma_have_piece_sets(a: Option<AvailabilityView>, i: nat, j: int)
    ensures
        has_piece_spec(after_have_piece(a, i), i as int),
        j != i && (a matches Some(v) && has_piece_spec(v, j)) ==> has_piece_spec(after_have_piece(a, i), j),
{
}

/// Piece `i` is had under a decoded bitmap exactly when its bit is set.
pub proof fn lemma_bitmap_bits(bitmap: Seq<u8>, i: int)
    requires
        0 <= i < 8 * bitmap.len(),
    ensures
        has_piece_spec(AvailabilityView::Bitmap(decode_bitmap(bitmap, 8 * bitmap.len())), i) == bit_of(
            bitmap[i / 8],
            (i % 8) as u8,
        ),
{
}

} // verus!
