//! File and flow metadata: piece sizing, piece counts, tracker tiers and the
//! info hash.
use vstd::prelude::*;

use crate::crypto::{sha256, sha256_digest};
use crate::math::{is_pow2, lemma_next_pow2, lemma_next_pow2_monotone, lemma_pow2_multiple, next_pow2, next_power_of_two_u64};
use crate::pieces::verify::{hash_views, merkle_root, merkle_root_spec, zero_hash};
use super::priority::Priority;

verus! {

/// Transfer block size: 16 KiB, the unit of a request on the wire.
pub const BLOCK_SIZE: u32 = 16384;

/// Smallest piece length chosen for a file of 64 KiB or more: 64 KiB.
pub const MIN_PIECE: u64 = 65536;

/// Largest piece length: 1 GiB, used from 1 TiB on.
pub const MAX_PIECE: u64 = 1073741824;

/// 1 TiB.
pub const TIB: u64 = 1099511627776;

/// `x` brought into `[lo, hi]`.
pub open spec fn clamp(x: nat, lo: nat, hi: nat) -> nat {
    if x < lo {
        lo
    } else if x > hi {
        hi
    } else {
        x
    }
}

/// The piece length of a file of `size` bytes: `next_pow2(size / 2048)`
/// brought into `[64 KiB, 512 MiB]` and never above the file size; 64 KiB
/// for an empty file and 1 GiB from 1 TiB on.
pub open spec fn piece_length_spec(size: nat) -> nat {
    if size == 0 {
        MIN_PIECE as nat
    } else if size >= TIB {
        MAX_PIECE as nat
    } else {
        let raw: nat = if size / 2048 >= 1 { size / 2048 } else { 1 };
        let piece = clamp(next_pow2(raw), MIN_PIECE as nat, (MAX_PIECE / 2) as nat);
        if piece <= size {
            piece
        } else {
            size
        }
    }
}

/// `size` divided by `d`, rounded up.
pub open spec fn ceil_div(size: nat, d: nat) -> nat {
    ((size + d - 1) as nat) / d
}

/// The piece count of a file, as a `u32` (modulo 2^32): the size divided by
/// the piece length, rounded up; 0 for an empty file.
pub open spec fn num_pieces_spec(size: nat, piece_length: nat) -> nat {
    if size == 0 {
        0
    } else {
        ceil_div(size, piece_length) % 0x1_0000_0000
    }
}

/// Computes the piece length for a file of `file_size` bytes; see
/// [`piece_length_spec`].
pub fn piece_length_for_size(file_size: u64) -> (res: u32)
    ensures
        res == piece_length_spec(file_size as nat),
{
    if file_size == 0 {
        return MIN_PIECE as u32;
    }
    if file_size >= TIB {
        return MAX_PIECE as u32;
    }
    let raw: u64 = if file_size / 2048 >= 1 { file_size / 2048 } else { 1 };
    let p = next_power_of_two_u64(raw);
    let piece: u64 = if p < MIN_PIECE {
        MIN_PIECE
    } else if p > MAX_PIECE / 2 {
        MAX_PIECE / 2
    } else {
        p
    };
    let r: u64 = if piece <= file_size { piece } else { file_size };
    r as u32
}

/// The piece length is positive, never above a non-empty file's size, and
/// for a file of 64 KiB or more a power of two, a multiple of
/// [`BLOCK_SIZE`] and between 64 KiB and 1 GiB.
pub proof fn lemma_piece_length_properties(size: nat)
    ensures
        piece_length_spec(size) > 0,
        size > 0 ==> piece_length_spec(size) <= size,
        size >= MIN_PIECE ==> {
            &&& is_pow2(piece_length_spec(size))
            &&& piece_length_spec(size) % (BLOCK_SIZE as nat) == 0
            &&& MIN_PIECE <= piece_length_spec(size) <= MAX_PIECE
        },
{
    assert(is_pow2(16384)) by {
        reveal_with_fuel(is_pow2, 15);
    }
    assert(is_pow2(65536)) by {
        reveal_with_fuel(is_pow2, 17);
    }
    assert(is_pow2(536870912)) by {
        reveal_with_fuel(is_pow2, 30);
    }
    assert(is_pow2(1073741824)) by {
        reveal_with_fuel(is_pow2, 31);
    }
    let pl = piece_length_spec(size);
    if size > 0 && size < TIB {
        let raw: nat = if size / 2048 >= 1 { size / 2048 } else { 1 };
        lemma_next_pow2(raw);
        let np = next_pow2(raw);
        let piece = clamp(np, MIN_PIECE as nat, (MAX_PIECE / 2) as nat);
        if size >= MIN_PIECE {
            assert(raw == size / 2048);
            assert(raw >= 32);
            assert(np < 2 * raw || np == 1);
            assert(2 * raw <= size);
            assert(piece <= size);
            assert(pl == piece);
            assert(is_pow2(piece));
        }
    }
    if size >= MIN_PIECE {
        lemma_pow2_multiple(pl, 16384);
    }
}

/// A file smaller than 64 KiB is a single piece of its own size.
pub proof fn lemma_small_file_one_piece(size: nat)
    requires
        0 < size < MIN_PIECE,
    ensures
        piece_length_spec(size) == size,
        num_pieces_spec(size, piece_length_spec(size)) == 1,
{
    let raw: nat = if size / 2048 >= 1 { size / 2048 } else { 1 };
    assert(raw < 32);
    lemma_next_pow2(raw);
    assert(next_pow2(raw) < 64);
    assert(ceil_div(size, size) == 1) by {
        assert((size + size - 1) as nat / size == 1) by (nonlinear_arith)
            requires
                size > 0,
        ;
    }
}

/// The piece length grows with the file size.
pub proof fn lemma_piece_length_monotone(a: nat, b: nat)
    requires
        1 <= a <= b,
    ensures
        piece_length_spec(a) <= piece_length_spec(b),
{
    lemma_piece_length_properties(a);
    lemma_piece_length_properties(b);
    if b >= TIB {
        if a < MIN_PIECE {
            assert(piece_length_spec(a) <= a);
        }
    } else {
        let ra: nat = if a / 2048 >= 1 { a / 2048 } else { 1 };
        let rb: nat = if b / 2048 >= 1 { b / 2048 } else { 1 };
        assert(ra <= rb) by {
            vstd::arithmetic::div_mod::lemma_div_is_ordered(a as int, b as int, 2048);
        }
        lemma_next_pow2_monotone(ra, rb);
    }
}

/// A file of 128 MiB up to 1 TiB is cut into about 2048 pieces: more than
/// 1024 and at most 2049.
pub proof fn lemma_about_2048_pieces(size: nat)
    requires
        2048 * MIN_PIECE <= size < TIB,
    ensures
        1024 < num_pieces_spec(size, piece_length_spec(size)) <= 2049,
{
    let raw: nat = size / 2048;
    assert(65536 <= raw < 536870912);
    lemma_next_pow2(raw);
    let np = next_pow2(raw);
    let pl = piece_length_spec(size);
    assert(raw <= pl < 2 * raw);
    let q = ceil_div(size, pl);
    assert(q <= 2049) by {
        assert(size + pl - 1 <= 2050 * pl - 1);
        vstd::arithmetic::div_mod::lemma_div_is_ordered(size + pl - 1, 2050 * pl - 1, pl as int);
        assert((2050 * pl - 1) / (pl as int) == 2049) by (nonlinear_arith)
            requires
                pl > 0,
        ;
    }
    assert(q >= 1025) by {
        assert(1025 * pl <= size + pl - 1) by (nonlinear_arith)
            requires
                pl < 2 * raw,
                raw == size / 2048,
                pl > 0,
        ;
        vstd::arithmetic::div_mod::lemma_div_is_ordered((1025 * pl) as int, size + pl - 1, pl as int);
        assert(((1025 * pl) as int) / (pl as int) == 1025) by (nonlinear_arith)
            requires
                pl > 0,
        ;
    }
}

/// The number of pieces of a file of `file_size` bytes cut into pieces of
/// `piece_length` bytes, as a `u32`.
pub fn num_pieces(file_size: u64, piece_length: u32) -> (res: u32)
    requires
        file_size == 0 || piece_length > 0,
    ensures
        res == num_pieces_spec(file_size as nat, piece_length as nat),
{
    if file_size == 0 {
        return 0;
    }
    let pl = piece_length as u64;
    let q: u64 = file_size / pl;
    let r: u64 = file_size % pl;
    proof {
        assert(file_size == pl * q + r) by (nonlinear_arith)
            requires
                pl > 0,
                q == file_size / pl,
                r == file_size % pl,
        ;
    }
    let n: u64 = if r != 0 {
        proof {
            assert(q < u64::MAX) by (nonlinear_arith)
                requires
                    file_size == pl * q + r,
                    0 < r < pl,
                    file_size <= u64::MAX,
            ;
        }
        q + 1
    } else {
        q
    };
    proof {
        assert(n == ceil_div(file_size as nat, pl as nat)) by (nonlinear_arith)
            requires
                pl > 0,
                file_size == pl * q + r,
                0 <= r < pl,
                n == (if r != 0 { q + 1 } else { q as int }),
        ;
        assert(n as u32 == n % 0x1_0000_0000) by (bit_vector);
    }
    n as u32
}

/// A file of the flow.
#[derive(Debug, Clone)]
pub struct FileEntry {
    /// Path relative to the flow's root directory, one component per entry.
    pub path: Vec<String>,
    /// Size in bytes.
    pub size: u64,
    /// The Merkle root of each piece's block hashes.
    pub piece_hashes: Vec<[u8; 32]>,
    /// Initial download priority.
    pub priority: Priority,
}

/// The piece count of a file with `n` piece hashes, as a `u32`.
pub open spec fn count_u32(n: nat) -> nat {
    n % 0x1_0000_0000
}

/// Length of the last piece: the remainder of the size by the piece length,
/// or a whole piece when it divides evenly; 0 without pieces.
pub open spec fn last_piece_length_spec(size: nat, n: nat) -> nat {
    if count_u32(n) == 0 {
        0
    } else {
        let pl = piece_length_spec(size);
        if size % pl == 0 {
            pl
        } else {
            size % pl
        }
    }
}

/// Length of piece `i` of a file of `size` bytes with `n` piece hashes: the
/// last piece's length for the last index, the piece length otherwise.
pub open spec fn piece_len_spec(size: nat, n: nat, i: nat) -> nat {
    if i + 1 == count_u32(n) {
        last_piece_length_spec(size, n)
    } else {
        piece_length_spec(size)
    }
}

/// The lengths of the first `k` pieces added up.
pub open spec fn pieces_total(size: nat, n: nat, k: nat) -> nat
    decreases k,
{
    if k == 0 {
        0
    } else {
        pieces_total(size, n, (k - 1) as nat) + piece_len_spec(size, n, (k - 1) as nat)
    }
}

/// The pieces of a file cover it exactly: every piece but the last is a
/// whole piece length, the last holds what remains and is never empty, and
/// the lengths of all pieces add up to the size. An empty file has no
/// pieces. Stated for piece counts that fit in a `u32`.
pub proof fn lemma_pieces_cover_file(size: nat)
    requires
        ceil_div(size, piece_length_spec(size)) < 0x1_0000_0000,
    ensures
        ({
            let pl = piece_length_spec(size);
            let n = num_pieces_spec(size, pl);
            let last = last_piece_length_spec(size, n);
            &&& size == 0 ==> n == 0 && last == 0
            &&& size > 0 ==> 0 < last <= pl && (n - 1) * pl + last == size
            &&& pieces_total(size, n, count_u32(n)) == size
        }),
{
    let pl = piece_length_spec(size);
    lemma_piece_length_properties(size);
    let n = num_pieces_spec(size, pl);
    if size > 0 {
        let q = size / pl;
        let r = size % pl;
        assert(size == pl * q + r && r < pl) by (nonlinear_arith)
            requires
                pl > 0,
                q == size / pl,
                r == size % pl,
        ;
        let c = ceil_div(size, pl);
        assert(c == if r == 0 { q } else { q + 1 }) by (nonlinear_arith)
            requires
                pl > 0,
                size == pl * q + r,
                0 <= r < pl,
                c == ((size + pl - 1) as nat) / pl,
        ;
        assert(n == c);
        assert(count_u32(n) == n);
        assert(n >= 1) by (nonlinear_arith)
            requires
                pl > 0,
                size > 0,
                size == pl * q + r,
                n == (if r == 0 { q } else { q + 1 }),
        ;
        let last = last_piece_length_spec(size, n);
        assert((n - 1) * pl + last == size) by (nonlinear_arith)
            requires
                size == pl * q + r,
                n == (if r == 0 { q } else { q + 1 }),
                last == (if r == 0 { pl } else { r }),
        ;
        lemma_pieces_total_whole(size, n, (n - 1) as nat);
        assert(pieces_total(size, n, n) == pieces_total(size, n, (n - 1) as nat) + last);
    } else {
        assert(n == 0);
    }
}

/// Before the last piece, the first `k` pieces are `k` whole piece lengths.
proof fn lemma_pieces_total_whole(size: nat, n: nat, k: nat)
    requires
        k + 1 <= count_u32(n),
    ensures
        pieces_total(size, n, k) == k * piece_length_spec(size),
    decreases k,
{
    if k > 0 {
        lemma_pieces_total_whole(size, n, (k - 1) as nat);
        assert(pieces_total(size, n, k) == (k - 1) * piece_length_spec(size) + piece_length_spec(size));
        assert((k - 1) * piece_length_spec(size) + piece_length_spec(size) == k * piece_length_spec(size)) by (nonlinear_arith);
    } else {
        assert(0 * piece_length_spec(size) == 0);
    }
}

impl FileEntry {
    /// The file's Merkle root: the root of its piece roots.
    pub open spec fn file_root_spec(&self) -> Seq<u8> {
        merkle_root_spec(hash_views(self.piece_hashes@))
    }

    /// A file of `size` bytes with all-zero piece hashes, one per piece.
    pub fn new(path: Vec<String>, size: u64, priority: Priority) -> (res: Self)
        ensures
            res.path@ == path@,
            res.size == size,
            res.priority == priority,
            hash_views(res.piece_hashes@) == Seq::new(
                num_pieces_spec(size as nat, piece_length_spec(size as nat)),
                |i: int| zero_hash(),
            ),
    {
        let pl = piece_length_for_size(size);
        proof {
            lemma_piece_length_properties(size as nat);
        }
        let n = num_pieces(size, pl) as usize;
        let mut piece_hashes: Vec<[u8; 32]> = Vec::new();
        let mut i: usize = 0;
        while i < n
            invariant
                i <= n,
                piece_hashes@.len() == i,
                forall|k: int| 0 <= k < i ==> (#[trigger] piece_hashes@[k])@ == zero_hash(),
            decreases n - i,
        {
            let z = [0u8; 32];
            assert(z@ =~= zero_hash());
            piece_hashes.push(z);
            i = i + 1;
        }
        assert(hash_views(piece_hashes@) =~= Seq::new(n as nat, |k: int| zero_hash()));
        FileEntry { path, size, piece_hashes, priority }
    }

    /// Piece length, computed from the size.
    pub fn piece_length(&self) -> (res: u32)
        ensures
            res == piece_length_spec(self.size as nat),
    {
        piece_length_for_size(self.size)
    }

    /// Number of pieces, the number of piece hashes as a `u32`.
    pub fn num_pieces(&self) -> (res: u32)
        ensures
            res == count_u32(self.piece_hashes@.len()),
    {
        let n = self.piece_hashes.len() as u64;
        proof {
            assert(n as u32 == n % 0x1_0000_0000) by (bit_vector);
        }
        n as u32
    }

    /// Length of the last piece, which may be shorter than the others.
    pub fn last_piece_length(&self) -> (res: u32)
        ensures
            res == last_piece_length_spec(self.size as nat, self.piece_hashes@.len()),
    {
        if self.num_pieces() == 0 {
            return 0;
        }
        let pl = self.piece_length();
        proof {
            lemma_piece_length_properties(self.size as nat);
        }
        let rem = (self.size % pl as u64) as u32;
        if rem == 0 {
            pl
        } else {
            rem
        }
    }

    /// The file's Merkle root.
    pub fn file_root(&self) -> (res: [u8; 32])
        requires
            self.piece_hashes@.len() <= usize::MAX / 2,
        ensures
            res@ == self.file_root_spec(),
    {
        merkle_root(self.piece_hashes.as_slice())
    }

    /// Length of piece `index`: the last piece may be shorter.
    pub fn piece_len(&self, index: u32) -> (res: u32)
        requires
            index < u32::MAX,
        ensures
            res == piece_len_spec(self.size as nat, self.piece_hashes@.len(), index as nat),
    {
        if index + 1 == self.num_pieces() {
            self.last_piece_length()
        } else {
            self.piece_length()
        }
    }
}

/// The trackers of each tier, by value.
pub open spec fn tiers_view(tiers: Seq<Vec<String>>) -> Seq<Seq<String>> {
    tiers.map_values(|t: Vec<String>| t@)
}

/// Sum of the sizes of the first `n` files.
pub open spec fn sizes_sum(files: Seq<FileEntry>, n: int) -> nat
    decreases n,
{
    if n <= 0 {
        0
    } else {
        sizes_sum(files, n - 1) + files[n - 1].size as nat
    }
}

/// Sum of the piece counts of the first `n` files.
pub open spec fn pieces_sum(files: Seq<FileEntry>, n: int) -> nat
    decreases n,
{
    if n <= 0 {
        0
    } else {
        pieces_sum(files, n - 1) + count_u32(files[n - 1].piece_hashes@.len())
    }
}

/// The file roots of the first `n` files, concatenated.
pub open spec fn roots_concat(files: Seq<FileEntry>, n: int) -> Seq<u8>
    decreases n,
{
    if n <= 0 {
        Seq::empty()
    } else {
        roots_concat(files, n - 1) + files[n - 1].file_root_spec()
    }
}

proof fn lemma_sum_monotone(files: Seq<FileEntry>, a: int, b: int)
    requires
        0 <= a <= b,
    ensures
        sizes_sum(files, a) <= sizes_sum(files, b),
        pieces_sum(files, a) <= pieces_sum(files, b),
    decreases b - a,
{
    if a < b {
        lemma_sum_monotone(files, a, b - 1);
    }
}

/// The metadata of a flow.
#[derive(Debug, Clone)]
pub struct Metainfo {
    /// Name of the flow (the root directory of a multi-file flow).
    pub name: String,
    /// SHA-256 info hash of the flow.
    pub info_hash: [u8; 32],
    /// The files, each with its own piece length.
    pub files: Vec<FileEntry>,
    /// Flat tracker list, used when `tracker_tiers` is empty.
    pub trackers: Vec<String>,
    /// Trackers grouped in tiers, tried tier by tier.
    pub tracker_tiers: Vec<Vec<String>>,
    /// Optional comment.
    pub comment: Option<String>,
}

impl Metainfo {
    /// The tracker tiers in use: `tracker_tiers` when not empty, else each
    /// flat tracker as a tier of its own.
    pub open spec fn effective_tiers_spec(&self) -> Seq<Seq<String>> {
        if self.tracker_tiers@.len() > 0 {
            tiers_view(self.tracker_tiers@)
        } else {
            self.trackers@.map_values(|t: String| seq![t])
        }
    }

    /// The info hash of the files: SHA-256 of their file roots, in order.
    pub open spec fn info_hash_spec(&self) -> Seq<u8> {
        sha256_digest(roots_concat(self.files@, self.files@.len() as int))
    }

    /// The tracker tiers in use; see [`Metainfo::effective_tiers_spec`].
    pub fn effective_tiers(&self) -> (res: Vec<Vec<String>>)
        ensures
            tiers_view(res@) == self.effective_tiers_spec(),
    {
        let mut out: Vec<Vec<String>> = Vec::new();
        if self.tracker_tiers.len() > 0 {
            let mut i: usize = 0;
            while i < self.tracker_tiers.len()
                invariant
                    i <= self.tracker_tiers@.len(),
                    out@.len() == i,
                    forall|j: int| 0 <= j < i ==> (#[trigger] out@[j])@ == self.tracker_tiers@[j]@,
                decreases self.tracker_tiers@.len() - i,
            {
                let tier = &self.tracker_tiers[i];
                let mut copy: Vec<String> = Vec::new();
                let mut k: usize = 0;
                while k < tier.len()
                    invariant
                        k <= tier@.len(),
                        copy@ == tier@.take(k as int),
                    decreases tier@.len() - k,
                {
                    copy.push(tier[k].clone());
                    k = k + 1;
                    assert(copy@ =~= tier@.take(k as int));
                }
                assert(copy@ =~= tier@);
                out.push(copy);
                i = i + 1;
            }
            assert(tiers_view(out@) =~= tiers_view(self.tracker_tiers@));
        } else {
            let mut i: usize = 0;
            while i < self.trackers.len()
                invariant
                    i <= self.trackers@.len(),
                    out@.len() == i,
                    forall|j: int| 0 <= j < i ==> (#[trigger] out@[j])@ == seq![self.trackers@[j]],
                decreases self.trackers@.len() - i,
            {
                let mut tier: Vec<String> = Vec::new();
                tier.push(self.trackers[i].clone());
                assert(tier@ =~= seq![self.trackers@[i as int]]);
                out.push(tier);
                i = i + 1;
            }
            assert(tiers_view(out@) =~= self.trackers@.map_values(|t: String| seq![t]));
        }
        out
    }

    /// Total size of all files.
    pub fn total_size(&self) -> (res: u64)
        requires
            sizes_sum(self.files@, self.files@.len() as int) <= u64::MAX,
        ensures
            res == sizes_sum(self.files@, self.files@.len() as int),
    {
        let mut total: u64 = 0;
        let mut i: usize = 0;
        while i < self.files.len()
            invariant
                i <= self.files@.len(),
                total == sizes_sum(self.files@, i as int),
                sizes_sum(self.files@, self.files@.len() as int) <= u64::MAX,
            decreases self.files@.len() - i,
        {
            proof {
                lemma_sum_monotone(self.files@, i + 1, self.files@.len() as int);
            }
            total = total + self.files[i].size;
            i = i + 1;
        }
        total
    }

    /// Total number of pieces over all files.
    pub fn total_pieces(&self) -> (res: u64)
        requires
            pieces_sum(self.files@, self.files@.len() as int) <= u64::MAX,
        ensures
            res == pieces_sum(self.files@, self.files@.len() as int),
    {
        let mut total: u64 = 0;
        let mut i: usize = 0;
        while i < self.files.len()
            invariant
                i <= self.files@.len(),
                total == pieces_sum(self.files@, i as int),
                pieces_sum(self.files@, self.files@.len() as int) <= u64::MAX,
            decreases self.files@.len() - i,
        {
            proof {
                lemma_sum_monotone(self.files@, i + 1, self.files@.len() as int);
            }
            total = total + self.files[i].num_pieces() as u64;
            i = i + 1;
        }
        total
    }

    /// Computes the info hash from the files: SHA-256 of the concatenated
    /// file roots.
    pub fn compute_info_hash(&self) -> (res: [u8; 32])
        requires
            forall|i: int| 0 <= i < self.files@.len() ==> (#[trigger] self.files@[i]).piece_hashes@.len() <= usize::MAX / 2,
        ensures
            res@ == self.info_hash_spec(),
    {
        let mut buf: Vec<u8> = Vec::new();
        let mut i: usize = 0;
        while i < self.files.len()
            invariant
                i <= self.files@.len(),
                buf@ == roots_concat(self.files@, i as int),
                forall|j: int| 0 <= j < self.files@.len() ==> (#[trigger] self.files@[j]).piece_hashes@.len() <= usize::MAX / 2,
            decreases self.files@.len() - i,
        {
            let root = self.files[i].file_root();
            let mut k: usize = 0;
            let ghost before = buf@;
            while k < 32
                invariant
                    k <= 32,
                    buf@ == before + root@.take(k as int),
                decreases 32 - k,
            {
                buf.push(root[k]);
                k = k + 1;
                assert(buf@ =~= before + root@.take(k as int));
            }
            assert(root@.take(32) =~= root@);
            i = i + 1;
        }
        sha256(buf.as_slice())
    }
}

} // verus!
