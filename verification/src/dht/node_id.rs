//! 256-bit node identifiers and their XOR distance.
use vstd::prelude::*;
use vstd::std_specs::bits::u8_leading_zeros;

use crate::crypto::{sha256, sha256_digest};
use crate::protocol::bytes::copy_array32;
use super::error::DhtError;

use rand::RngCore;

verus! {

broadcast use vstd::std_specs::bits::axiom_u8_leading_zeros;

/// A DHT node identifier: 256 bits.
#[derive(Clone, Copy, PartialEq, Eq, Hash, Debug)]
pub struct NodeId(pub [u8; 32]);

/// The XOR distance between two identifiers.
#[derive(Clone, Copy, PartialEq, Eq, PartialOrd, Ord, Debug)]
pub struct Distance(pub [u8; 32]);

/// Byte-wise XOR of two 32-byte strings.
pub open spec fn xor_bytes(a: Seq<u8>, b: Seq<u8>) -> Seq<u8> {
    Seq::new(32, |i: int| a[i] ^ b[i])
}

/// Leading zero bits of a byte string, most significant byte first.
pub open spec fn leading_zero_bits(b: Seq<u8>) -> nat
    decreases b.len(),
{
    if b.len() == 0 {
        0
    } else if b[0] == 0 {
        8 + leading_zero_bits(b.drop_first())
    } else {
        u8_leading_zeros(b[0]) as nat
    }
}

/// Calls `rand::thread_rng().fill_bytes`: 32 random bytes. Nothing is
/// promised of their value.
#[verifier::external_body]
fn random_bytes32() -> (res: [u8; 32]) {
    let mut bytes = [0u8; 32];
    rand::thread_rng().fill_bytes(&mut bytes);
    bytes
}

impl NodeId {
    /// A random identifier.
    pub fn random() -> (res: NodeId) {
        NodeId(random_bytes32())
    }

    /// An identifier from exactly 32 bytes; any other length is an error.
    pub fn from_bytes(bytes: &[u8]) -> (res: Result<NodeId, DhtError>)
        ensures
            bytes@.len() == 32 ==> (res matches Ok(id) && id.0@ == bytes@),
            bytes@.len() != 32 ==> res == Err::<NodeId, DhtError>(DhtError::InvalidNodeId(bytes@.len() as usize)),
    {
        if bytes.len() != 32 {
            return Err(DhtError::InvalidNodeId(bytes.len()));
        }
        let arr = copy_array32(bytes, 0);
        assert(bytes@.subrange(0, 32) =~= bytes@);
        Ok(NodeId(arr))
    }

    /// The identifier derived from a seed: its SHA-256.
    pub fn from_seed(seed: &[u8]) -> (res: NodeId)
        ensures
            res.0@ == sha256_digest(seed@),
    {
        NodeId(sha256(seed))
    }

    /// The identifier's bytes.
    pub fn as_bytes(&self) -> (res: &[u8; 32])
        ensures
            *res == self.0,
    {
        &self.0
    }

    /// The XOR distance to `other`.
    pub fn distance(&self, other: &NodeId) -> (res: Distance)
        ensures
            res.0@ == xor_bytes(self.0@, other.0@),
    {
        let mut d = [0u8; 32];
        let mut i: usize = 0;
        while i < 32
            invariant
                i <= 32,
                forall|k: int| 0 <= k < i ==> d@[k] == self.0@[k] ^ other.0@[k],
            decreases 32 - i,
        {
            d.set(i, self.0[i] ^ other.0[i]);
            i = i + 1;
        }
        assert(d@ =~= xor_bytes(self.0@, other.0@));
        Distance(d)
    }

    /// The routing bucket of `other` relative to this node: the number of
    /// leading zero bits of their distance.
    pub fn bucket_index(&self, other: &NodeId) -> (res: usize)
        ensures
            res == leading_zero_bits(xor_bytes(self.0@, other.0@)),
            res <= 256,
    {
        let dist = self.distance(other);
        dist.leading_zeros()
    }
}

/// Leading zero bits never exceed eight per byte.
pub proof fn lemma_leading_zero_bits_bound(b: Seq<u8>)
    ensures
        leading_zero_bits(b) <= 8 * b.len(),
        leading_zero_bits(b) == 8 * b.len() <==> forall|i: int| 0 <= i < b.len() ==> #[trigger] b[i] == 0,
    decreases b.len(),
{
    if b.len() > 0 {
        lemma_leading_zero_bits_bound(b.drop_first());
        if b[0] == 0 {
            assert forall|i: int| 0 <= i < b.len() && (forall|j: int| 0 <= j < b.drop_first().len() ==> #[trigger] b.drop_first()[j] == 0) implies #[trigger] b[i] == 0 by {
                if i > 0 {
                    assert(b[i] == b.drop_first()[i - 1]);
                }
            }
            if leading_zero_bits(b) != 8 * b.len() {
                assert(exists|j: int| 0 <= j < b.drop_first().len() && #[trigger] b.drop_first()[j] != 0);
                let j = choose|j: int| 0 <= j < b.drop_first().len() && #[trigger] b.drop_first()[j] != 0;
                assert(b[j + 1] != 0);
            }
        } else {
            assert(u8_leading_zeros(b[0]) < 8);
        }
    }
}

impl Distance {
    /// The number of leading zero bits (the bucket index).
    pub fn leading_zeros(&self) -> (res: usize)
        ensures
            res == leading_zero_bits(self.0@),
            res <= 256,
    {
        proof {
            lemma_leading_zero_bits_bound(self.0@);
        }
        assert(self.0@.subrange(0, 32) =~= self.0@);
        let mut count: usize = 0;
        let mut i: usize = 0;
        while i < 32
            invariant
                i <= 32,
                count == 8 * i,
                count + leading_zero_bits(self.0@.subrange(i as int, 32)) == leading_zero_bits(self.0@),
            decreases 32 - i,
        {
            let ghost rest = self.0@.subrange(i as int, 32);
            assert(rest.drop_first() =~= self.0@.subrange(i + 1, 32));
            let byte = self.0[i];
            if byte == 0 {
                count = count + 8;
            } else {
                let r = count + byte.leading_zeros() as usize;
                return r;
            }
            i = i + 1;
        }
        assert(self.0@.subrange(32, 32) =~= Seq::<u8>::empty());
        count
    }
}

/// The distance from an identifier to itself is zero, with all 256 bits
/// leading zeros.
pub proof fn lemma_distance_self(a: NodeId)
    ensures
        xor_bytes(a.0@, a.0@) == Seq::new(32, |i: int| 0u8),
        leading_zero_bits(xor_bytes(a.0@, a.0@)) == 256,
{
    assert forall|i: int| 0 <= i < 32 implies #[trigger] xor_bytes(a.0@, a.0@)[i] == 0u8 by {
        let x = a.0@[i];
        assert(x ^ x == 0u8) by (bit_vector);
    }
    assert(xor_bytes(a.0@, a.0@) =~= Seq::new(32, |i: int| 0u8));
    lemma_leading_zero_bits_bound(xor_bytes(a.0@, a.0@));
}

/// The distance is symmetric.
pub proof fn lemma_distance_symmetric(a: NodeId, b: NodeId)
    ensures
        xor_bytes(a.0@, b.0@) == xor_bytes(b.0@, a.0@),
{
    assert forall|i: int| 0 <= i < 32 implies #[trigger] xor_bytes(a.0@, b.0@)[i] == xor_bytes(b.0@, a.0@)[i] by {
        let x = a.0@[i];
        let y = b.0@[i];
        assert(x ^ y == y ^ x) by (bit_vector);
    }
    assert(xor_bytes(a.0@, b.0@) =~= xor_bytes(b.0@, a.0@));
}

/// The distance is zero only between equal identifiers.
pub proof fn lemma_distance_zero_iff_equal(a: NodeId, b: NodeId)
    ensures
        leading_zero_bits(xor_bytes(a.0@, b.0@)) == 256 <==> a.0@ == b.0@,
{
    lemma_leading_zero_bits_bound(xor_bytes(a.0@, b.0@));
    if a.0@ == b.0@ {
        lemma_distance_self(a);
    }
    if leading_zero_bits(xor_bytes(a.0@, b.0@)) == 256 {
        assert forall|i: int| 0 <= i < 32 implies a.0@[i] == b.0@[i] by {
            let x = a.0@[i];
            let y = b.0@[i];
            assert(xor_bytes(a.0@, b.0@)[i] == 0);
            assert(x ^ y == 0u8 ==> x == y) by (bit_vector);
        }
        assert(a.0@ =~= b.0@);
    }
}

/// `a` comes before `b` in lexicographic byte order: as big-endian
/// numbers, `a < b`. For distances this is "closer".
pub open spec fn lex_lt(a: Seq<u8>, b: Seq<u8>) -> bool
    decreases a.len(),
{
    if a.len() == 0 || b.len() == 0 {
        false
    } else if a[0] < b[0] {
        true
    } else if a[0] == b[0] {
        lex_lt(a.drop_first(), b.drop_first())
    } else {
        false
    }
}

/// The byte order is transitive.
pub proof fn lemma_lex_lt_transitive(a: Seq<u8>, b: Seq<u8>, c: Seq<u8>)
    requires
        lex_lt(a, b),
        lex_lt(b, c),
    ensures
        lex_lt(a, c),
    decreases a.len(),
{
    if a[0] == b[0] && b[0] == c[0] {
        lemma_lex_lt_transitive(a.drop_first(), b.drop_first(), c.drop_first());
    }
}

/// The byte order is irreflexive.
pub proof fn lemma_lex_lt_irreflexive(a: Seq<u8>)
    ensures
        !lex_lt(a, a),
    decreases a.len(),
{
    if a.len() > 0 {
        lemma_lex_lt_irreflexive(a.drop_first());
    }
}

/// Two 32-byte strings in byte order: `true` when `a` comes first.
pub fn bytes_less(a: &[u8; 32], b: &[u8; 32]) -> (res: bool)
    ensures
        res == lex_lt(a@, b@),
{
    assert(a@.skip(0) =~= a@);
    assert(b@.skip(0) =~= b@);
    let mut i: usize = 0;
    while i < 32
        invariant
            i <= 32,
            a@.len() == 32,
            b@.len() == 32,
            lex_lt(a@, b@) == lex_lt(a@.skip(i as int), b@.skip(i as int)),
        decreases 32 - i,
    {
        let ghost sa = a@.skip(i as int);
        let ghost sb = b@.skip(i as int);
        assert(sa.drop_first() =~= a@.skip(i + 1));
        assert(sb.drop_first() =~= b@.skip(i + 1));
        assert(sa[0] == a@[i as int]);
        assert(sb[0] == b@[i as int]);
        if a[i] < b[i] {
            return true;
        }
        if a[i] > b[i] {
            return false;
        }
        i = i + 1;
    }
    false
}

} // verus!
