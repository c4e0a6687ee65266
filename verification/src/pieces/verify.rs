//! Block, piece and file verification with SHA-256 Merkle trees.
//!
//! A block (16 KiB) is hashed with SHA-256; a piece's root is the Merkle root
//! of its block hashes; a file's root is the Merkle root of its piece roots.
//! Lists whose length is not a power of two are padded with all-zero hashes.
use vstd::prelude::*;

use crate::crypto::{sha256, sha256_digest};
use crate::math::{is_pow2, lemma_next_pow2, lemma_next_pow2_of_pow2, next_pow2, next_power_of_two_usize};
use crate::protocol::metainfo::BLOCK_SIZE;

verus! {

/// The all-zero 32-byte hash used as padding.
pub open spec fn zero_hash() -> Seq<u8> {
    Seq::new(32, |i: int| 0u8)
}

/// A Merkle tree node: the SHA-256 of the two children concatenated.
pub open spec fn parent_hash(left: Seq<u8>, right: Seq<u8>) -> Seq<u8> {
    sha256_digest(left + right)
}

/// One layer up: pairs of adjacent nodes combined.
pub open spec fn reduce_layer(layer: Seq<Seq<u8>>) -> Seq<Seq<u8>> {
    Seq::new(layer.len() / 2, |i: int| parent_hash(layer[2 * i], layer[2 * i + 1]))
}

/// Reduces a layer until one node is left.
pub open spec fn fold_layers(layer: Seq<Seq<u8>>) -> Seq<u8>
    decreases layer.len(),
{
    if layer.len() <= 1 {
        layer[0]
    } else {
        fold_layers(reduce_layer(layer))
    }
}

/// The leaves padded with zero hashes up to length `n`.
pub open spec fn pad_leaves(leaves: Seq<Seq<u8>>, n: nat) -> Seq<Seq<u8>> {
    Seq::new(n, |i: int| if i < leaves.len() { leaves[i] } else { zero_hash() })
}

/// The Merkle root of a list of hashes: zero hash for none, the hash itself
/// for one, otherwise the root of the list padded to a power of two.
pub open spec fn merkle_root_spec(leaves: Seq<Seq<u8>>) -> Seq<u8> {
    if leaves.len() == 0 {
        zero_hash()
    } else if leaves.len() == 1 {
        leaves[0]
    } else {
        fold_layers(pad_leaves(leaves, next_pow2(leaves.len())))
    }
}

/// The byte contents of a list of 32-byte hashes.
pub open spec fn hash_views(hs: Seq<[u8; 32]>) -> Seq<Seq<u8>> {
    hs.map_values(|h: [u8; 32]| h@)
}

/// The `i`-th block of a piece (the last one may be shorter).
pub open spec fn block_of(data: Seq<u8>, i: int) -> Seq<u8> {
    let start = i * BLOCK_SIZE;
    let end = if (i + 1) * BLOCK_SIZE <= data.len() { (i + 1) * BLOCK_SIZE } else { data.len() as int };
    data.subrange(start, end)
}

/// The number of blocks in a piece of `len` bytes.
pub open spec fn num_blocks_of(len: nat) -> nat {
    if len % (BLOCK_SIZE as nat) == 0 { len / (BLOCK_SIZE as nat) } else { len / (BLOCK_SIZE as nat) + 1 }
}

/// The hash of each block of a piece.
pub open spec fn block_hashes_of(data: Seq<u8>) -> Seq<Seq<u8>> {
    Seq::new(num_blocks_of(data.len()), |i: int| sha256_digest(block_of(data, i)))
}

/// The Merkle root of a piece's block hashes.
pub open spec fn piece_root_spec(data: Seq<u8>) -> Seq<u8> {
    merkle_root_spec(block_hashes_of(data))
}

/// SHA-256 of arbitrary data.
pub fn hash_block(data: &[u8]) -> (res: [u8; 32])
    ensures
        res@ == sha256_digest(data@),
{
    sha256(data)
}

/// The same as [`hash_block`].
pub fn hash_piece(data: &[u8]) -> (res: [u8; 32])
    ensures
        res@ == sha256_digest(data@),
{
    hash_block(data)
}

/// A Merkle tree node: SHA-256(left || right).
pub fn merkle_parent(left: &[u8; 32], right: &[u8; 32]) -> (res: [u8; 32])
    ensures
        res@ == parent_hash(left@, right@),
{
    let mut buf: Vec<u8> = Vec::with_capacity(64);
    let mut i: usize = 0;
    while i < 32
        invariant
            i <= 32,
            buf@ == left@.subrange(0, i as int),
        decreases 32 - i,
    {
        buf.push(left[i]);
        i = i + 1;
    }
    let mut j: usize = 0;
    while j < 32
        invariant
            j <= 32,
            buf@ == left@ + right@.subrange(0, j as int),
        decreases 32 - j,
    {
        buf.push(right[j]);
        j = j + 1;
    }
    assert(right@.subrange(0, 32) =~= right@);
    sha256(buf.as_slice())
}

/// Two hashes are equal byte for byte.
pub fn hashes_equal(a: &[u8; 32], b: &[u8; 32]) -> (res: bool)
    ensures
        res == (a@ == b@),
{
    let mut i: usize = 0;
    while i < 32
        invariant
            i <= 32,
            forall|k: int| 0 <= k < i ==> a@[k] == b@[k],
        decreases 32 - i,
    {
        if a[i] != b[i] {
            return false;
        }
        i = i + 1;
    }
    assert(a@ =~= b@);
    true
}

proof fn lemma_reduce_pow2(layer: Seq<Seq<u8>>)
    requires
        is_pow2(layer.len()),
        layer.len() > 1,
    ensures
        is_pow2(reduce_layer(layer).len()),
        reduce_layer(layer).len() < layer.len(),
        layer.len() == 2 * reduce_layer(layer).len(),
{
}

/// A full layer whose length is a power of two folds to the parent of the
/// folds of its two halves.
proof fn lemma_fold_halves(layer: Seq<Seq<u8>>)
    requires
        is_pow2(layer.len()),
        layer.len() >= 2,
    ensures
        fold_layers(layer) == parent_hash(
            fold_layers(layer.take((layer.len() / 2) as int)),
            fold_layers(layer.skip((layer.len() / 2) as int)),
        ),
    decreases layer.len(),
{
    let n = layer.len();
    let h = n / 2;
    let l = layer.take(h as int);
    let r = layer.skip(h as int);
    lemma_reduce_pow2(layer);
    let up = reduce_layer(layer);
    if n == 2 {
        assert(up.len() == 1);
        assert(fold_layers(up) == up[0]);
        assert(fold_layers(layer) == fold_layers(up));
        assert(l.len() == 1 && r.len() == 1);
        assert(l[0] == layer[0] && r[0] == layer[1]);
    } else {
        lemma_fold_halves(up);
        lemma_reduce_pow2(l);
        lemma_reduce_pow2(r);
        assert(up.take((up.len() / 2) as int) =~= reduce_layer(l)) by {
            assert forall|i: int| 0 <= i < up.len() / 2 implies up[i] == reduce_layer(l)[i] by {
                assert(l[2 * i] == layer[2 * i] && l[2 * i + 1] == layer[2 * i + 1]);
            }
        }
        assert(up.skip((up.len() / 2) as int) =~= reduce_layer(r)) by {
            assert forall|i: int| 0 <= i < up.len() / 2 implies up.skip((up.len() / 2) as int)[i] == reduce_layer(r)[i] by {
                assert(r[2 * i] == layer[h + 2 * i] && r[2 * i + 1] == layer[h + 2 * i + 1]);
                assert(up.skip((up.len() / 2) as int)[i] == up[up.len() / 2 + i]);
                assert(2 * (up.len() / 2 + i) == h + 2 * i);
            }
        }
    }
}

/// The Merkle root of two or more hashes is the parent of the roots of the
/// two halves of the leaves padded with zero hashes to a power of two.
pub proof fn lemma_merkle_root_halves(leaves: Seq<Seq<u8>>)
    requires
        leaves.len() >= 2,
    ensures
        ({
            let n = next_pow2(leaves.len());
            let padded = pad_leaves(leaves, n);
            merkle_root_spec(leaves) == parent_hash(
                merkle_root_spec(padded.take((n / 2) as int)),
                merkle_root_spec(padded.skip((n / 2) as int)),
            )
        }),
{
    let n = next_pow2(leaves.len());
    lemma_next_pow2(leaves.len());
    let padded = pad_leaves(leaves, n);
    lemma_fold_halves(padded);
    let l = padded.take((n / 2) as int);
    let r = padded.skip((n / 2) as int);
    lemma_reduce_pow2(padded);
    assert(is_pow2(n / 2));
    if n / 2 > 1 {
        lemma_next_pow2_of_pow2(n / 2);
        assert(pad_leaves(l, n / 2) =~= l);
        assert(pad_leaves(r, n / 2) =~= r);
    }
}

/// The Merkle root of a list of hashes, padded with zero hashes to the next
/// power of two.
pub fn merkle_root(leaves: &[[u8; 32]]) -> (res: [u8; 32])
    requires
        leaves@.len() <= usize::MAX / 2,
    ensures
        res@ == merkle_root_spec(hash_views(leaves@)),
{
    let len = leaves.len();
    if len == 0 {
        let z = [0u8; 32];
        assert(z@ =~= zero_hash());
        return z;
    }
    if len == 1 {
        return leaves[0];
    }
    let n = next_power_of_two_usize(len);
    proof {
        lemma_next_pow2(len as nat);
    }
    let ghost padded = pad_leaves(hash_views(leaves@), n as nat);
    let mut layer: Vec<[u8; 32]> = Vec::with_capacity(n);
    let mut i: usize = 0;
    while i < n
        invariant
            i <= n,
            n == next_pow2(len as nat),
            n >= len,
            len == leaves@.len(),
            padded == pad_leaves(hash_views(leaves@), n as nat),
            layer@.len() == i,
            forall|k: int| 0 <= k < i ==> (#[trigger] layer@[k])@ == padded[k],
        decreases n - i,
    {
        if i < len {
            layer.push(leaves[i]);
        } else {
            let z = [0u8; 32];
            assert(z@ =~= zero_hash());
            layer.push(z);
        }
        i = i + 1;
    }
    assert(hash_views(layer@) =~= padded);
    while layer.len() > 1
        invariant
            layer@.len() >= 1,
            is_pow2(layer@.len() as nat),
            fold_layers(hash_views(layer@)) == fold_layers(padded),
        decreases layer@.len(),
    {
        let ghost old_views = hash_views(layer@);
        proof {
            lemma_reduce_pow2(old_views);
        }
        let half = layer.len() / 2;
        let mut next: Vec<[u8; 32]> = Vec::with_capacity(half);
        let mut k: usize = 0;
        while k < half
            invariant
                k <= half,
                half == layer@.len() / 2,
                layer@.len() == 2 * half,
                2 * half <= usize::MAX,
                old_views == hash_views(layer@),
                next@.len() == k,
                forall|m: int| 0 <= m < k ==> (#[trigger] next@[m])@ == reduce_layer(old_views)[m],
            decreases half - k,
        {
            let p = merkle_parent(&layer[2 * k], &layer[2 * k + 1]);
            next.push(p);
            k = k + 1;
        }
        assert(hash_views(next@) =~= reduce_layer(old_views));
        layer = next;
    }
    assert(padded.len() > 1);
    layer[0]
}

/// Checks a block against its expected SHA-256.
pub fn verify_block(data: &[u8], expected_hash: &[u8; 32]) -> (res: bool)
    ensures
        res == (sha256_digest(data@) == expected_hash@),
{
    let h = hash_block(data);
    hashes_equal(&h, expected_hash)
}

/// The SHA-256 of each 16 KiB block of a piece, in order.
pub fn block_hashes(piece_data: &[u8]) -> (res: Vec<[u8; 32]>)
    ensures
        hash_views(res@) == block_hashes_of(piece_data@),
        res@.len() == num_blocks_of(piece_data@.len()),
{
    let len = piece_data.len();
    let mut out: Vec<[u8; 32]> = Vec::new();
    let mut start: usize = 0;
    let ghost nb = num_blocks_of(len as nat);
    while start < len
        invariant
            len == piece_data@.len(),
            nb == num_blocks_of(len as nat),
            out@.len() <= nb,
            start == (if 16384 * out@.len() <= len { 16384 * out@.len() as int } else { len as int }),
            start < len <==> out@.len() < nb,
            forall|k: int| 0 <= k < out@.len() ==> (#[trigger] out@[k])@ == sha256_digest(block_of(piece_data@, k)),
        decreases len - start,
    {
        let end = if len - start >= 16384 { start + 16384 } else { len };
        let h = hash_block(&piece_data[start..end]);
        proof {
            let k = out@.len() as int;
            assert(piece_data@.subrange(start as int, end as int) == block_of(piece_data@, k));
        }
        out.push(h);
        start = end;
    }
    assert(hash_views(out@) =~= block_hashes_of(piece_data@));
    out
}

/// The Merkle root of a piece: the root of the SHA-256 of each 16 KiB block
/// (the last block may be shorter).
pub fn piece_root(piece_data: &[u8]) -> (res: [u8; 32])
    ensures
        res@ == piece_root_spec(piece_data@),
{
    let hs = block_hashes(piece_data);
    let l = piece_data.len();
    proof {
        assert(l / 16384 + 1 <= usize::MAX / 2) by (nonlinear_arith)
            requires
                l <= usize::MAX,
                usize::MAX >= 0xffff_ffff,
        ;
        assert(hs@.len() <= usize::MAX / 2);
    }
    merkle_root(hs.as_slice())
}

/// The Merkle root of a piece from its block hashes.
pub fn piece_root_from_block_hashes(block_hashes: &[[u8; 32]]) -> (res: [u8; 32])
    requires
        block_hashes@.len() <= usize::MAX / 2,
    ensures
        res@ == merkle_root_spec(hash_views(block_hashes@)),
{
    merkle_root(block_hashes)
}

/// Checks a whole piece against the expected root from the metainfo.
pub fn verify_piece(piece_data: &[u8], expected_root: &[u8; 32]) -> (res: bool)
    ensures
        res == (piece_root_spec(piece_data@) == expected_root@),
{
    let r = piece_root(piece_data);
    hashes_equal(&r, expected_root)
}

/// The Merkle root of a file: the root of its piece roots.
pub fn file_root(piece_roots: &[[u8; 32]]) -> (res: [u8; 32])
    requires
        piece_roots@.len() <= usize::MAX / 2,
    ensures
        res@ == merkle_root_spec(hash_views(piece_roots@)),
{
    merkle_root(piece_roots)
}

} // verus!
