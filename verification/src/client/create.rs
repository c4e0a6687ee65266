//! Building flow metadata from file contents.
use vstd::prelude::*;

use crate::pieces::verify::{hash_views, piece_root, piece_root_spec};
use crate::protocol::bytes::copy_range;
use crate::protocol::metainfo::{piece_length_for_size, piece_length_spec, lemma_piece_length_properties, FileEntry, Metainfo};
use crate::protocol::priority::Priority;

verus! {

/// Piece `i` of `data` cut into pieces of `pl` bytes (the last may be
/// shorter).
pub open spec fn piece_chunk(data: Seq<u8>, pl: nat, i: int) -> Seq<u8> {
    let start = i * pl;
    let end = if (i + 1) * pl <= data.len() { (i + 1) * pl } else { data.len() as int };
    data.subrange(start, end)
}

/// Number of pieces of `len` bytes cut into pieces of `pl` bytes.
pub open spec fn chunk_count(len: nat, pl: nat) -> nat {
    if len % pl == 0 {
        len / pl
    } else {
        len / pl + 1
    }
}

/// The piece roots of `data` for its piece length.
pub open spec fn piece_roots_of(data: Seq<u8>) -> Seq<Seq<u8>> {
    let pl = piece_length_spec(data.len());
    Seq::new(chunk_count(data.len(), pl), |i: int| piece_root_spec(piece_chunk(data, pl, i)))
}

/// The metadata entry of a file with contents `data`: its size, and the
/// Merkle root of each piece for the file's piece length.
pub fn build_file_entry(path: Vec<String>, data: &[u8], priority: Priority) -> (res: FileEntry)
    requires
        data@.len() <= u64::MAX,
    ensures
        res.path@ == path@,
        res.size == data@.len(),
        res.priority == priority,
        hash_views(res.piece_hashes@) == piece_roots_of(data@),
{
    let len = data.len();
    let size = len as u64;
    let pl32 = piece_length_for_size(size);
    proof {
        lemma_piece_length_properties(size as nat);
    }
    let pl = pl32 as usize;
    let mut piece_hashes: Vec<[u8; 32]> = Vec::new();
    let ghost plg = pl as nat;
    proof {
        lemma_chunk_count_basics(len as nat, plg);
    }
    let mut start: usize = 0;
    let mut i: usize = 0;
    while start < len
        invariant
            len == data@.len(),
            pl > 0,
            plg == pl,
            plg == piece_length_spec(data@.len()),
            start <= len,
            start < len ==> start == i * pl,
            i <= chunk_count(len as nat, plg),
            chunk_count(len as nat, plg) <= len,
            start < len ==> i < chunk_count(len as nat, plg),
            start >= len ==> i == chunk_count(len as nat, plg),
            piece_hashes@.len() == i,
            forall|k: int| 0 <= k < i ==> (#[trigger] piece_hashes@[k])@ == piece_root_spec(piece_chunk(data@, plg, k)),
        decreases len - start,
    {
        let end: usize = if len - start >= pl { start + pl } else { len };
        let chunk = copy_range(data, start, end);
        assert(chunk@ == piece_chunk(data@, plg, i as int)) by {
            assert((i + 1) * pl == start + pl) by (nonlinear_arith)
                requires
                    start == i * pl,
            ;
        }
        let root = piece_root(chunk.as_slice());
        piece_hashes.push(root);
        proof {
            assert((i + 1) * pl == start + pl) by (nonlinear_arith)
                requires
                    start == i * pl,
            ;
            lemma_chunk_count_step(len as nat, plg, i as nat);
        }
        start = end;
        i = i + 1;
    }
    assert(hash_views(piece_hashes@) =~= piece_roots_of(data@));
    FileEntry { path, size, piece_hashes, priority }
}

/// No bytes, no pieces; some bytes, some pieces, never more than bytes.
proof fn lemma_chunk_count_basics(len: nat, pl: nat)
    requires
        pl > 0,
    ensures
        len == 0 ==> chunk_count(len, pl) == 0,
        len > 0 ==> chunk_count(len, pl) > 0,
        chunk_count(len, pl) <= len,
{
    let q = len / pl;
    let r = len % pl;
    assert(len == q * pl + r && 0 <= r < pl) by (nonlinear_arith)
        requires
            pl > 0,
            q == len / pl,
            r == len % pl,
    ;
    assert(q <= len) by (nonlinear_arith)
        requires
            len == q * pl + r,
            pl > 0,
            r >= 0,
            q >= 0,
    ;
    if r > 0 {
        assert(q + 1 <= len) by (nonlinear_arith)
            requires
                len == q * pl + r,
                pl > 0,
                0 < r < pl,
                q >= 0,
        ;
    }
    if len > 0 && r == 0 {
        assert(q > 0) by (nonlinear_arith)
            requires
                len == q * pl,
                len > 0,
        ;
    }
}

/// Where the cutting stands after piece `i`: more pieces follow exactly
/// when bytes are left.
proof fn lemma_chunk_count_step(len: nat, pl: nat, i: nat)
    requires
        pl > 0,
        i * pl < len,
    ensures
        (i + 1) * pl < len ==> i + 1 < chunk_count(len, pl),
        (i + 1) * pl >= len ==> i + 1 == chunk_count(len, pl),
{
    let q = len / pl;
    let r = len % pl;
    assert(len == q * pl + r) by (nonlinear_arith)
        requires
            pl > 0,
            q == len / pl,
            r == len % pl,
    ;
    assert(i < q + 1) by (nonlinear_arith)
        requires
            i * pl < len,
            len == q * pl + r,
            0 <= r < pl,
    ;
    if (i + 1) * pl < len {
        assert(i + 1 <= q) by (nonlinear_arith)
            requires
                (i + 1) * pl < len,
                len == q * pl + r,
                0 <= r < pl,
        ;
        if i + 1 == q {
            assert(r > 0) by (nonlinear_arith)
                requires
                    (i + 1) * pl < len,
                    len == q * pl + r,
                    i + 1 == q,
            ;
        }
    } else {
        if r == 0 {
            assert(i + 1 >= q) by (nonlinear_arith)
                requires
                    (i + 1) * pl >= len,
                    len == q * pl,
                    pl > 0,
            ;
            assert(i + 1 <= q) by (nonlinear_arith)
                requires
                    i * pl < len,
                    len == q * pl,
                    pl > 0,
            ;
        } else {
            assert(i + 1 >= q + 1) by (nonlinear_arith)
                requires
                    (i + 1) * pl >= len,
                    len == q * pl + r,
                    0 < r < pl,
            ;
        }
    }
}

/// The metadata of a new flow: each tracker becomes a tier of its own, and
/// the info hash is computed from the files.
pub fn build_metainfo(name: String, files: Vec<FileEntry>, trackers: Vec<String>, comment: Option<String>) -> (res: Metainfo)
    requires
        forall|i: int| 0 <= i < files@.len() ==> (#[trigger] files@[i]).piece_hashes@.len() <= usize::MAX / 2,
    ensures
        res.name == name,
        res.files@ == files@,
        res.trackers@ == trackers@,
        res.comment == comment,
        res.tracker_tiers@.len() == trackers@.len(),
        forall|i: int| 0 <= i < trackers@.len() ==> (#[trigger] res.tracker_tiers@[i])@ == seq![trackers@[i]],
        res.info_hash@ == res.info_hash_spec(),
{
    let mut tiers: Vec<Vec<String>> = Vec::new();
    let mut i: usize = 0;
    while i < trackers.len()
        invariant
            i <= trackers@.len(),
            tiers@.len() == i,
            forall|k: int| 0 <= k < i ==> (#[trigger] tiers@[k])@ == seq![trackers@[k]],
        decreases trackers@.len() - i,
    {
        let mut tier: Vec<String> = Vec::new();
        tier.push(trackers[i].clone());
        assert(tier@ =~= seq![trackers@[i as int]]);
        tiers.push(tier);
        i = i + 1;
    }
    let mut meta = Metainfo { name, info_hash: [0u8; 32], files, trackers, tracker_tiers: tiers, comment };
    let h = meta.compute_info_hash();
    meta.info_hash = h;
    meta
}

} // verus!
