//! What a remote peer has of one file, and the MSB-first bitmap encoding of
//! piece sets used on the wire.
use vstd::prelude::*;

use crate::protocol::bitmap::{
    bitmap_bit, bitmap_len, decode_bitmap, is_bitmap_of, lemma_bit_set, lemma_bit_zero,
};

verus! {

/// What a peer has announced of one file.
#[derive(Clone, Debug)]
pub enum PeerAvail {
    /// Nothing announced yet.
    Unknown,
    /// Every piece.
    HaveAll,
    /// No piece.
    HaveNone,
    /// The pieces whose entry is `true`.
    Bitmap(Vec<bool>),
}

impl PeerAvail {
    /// The pieces the peer has, as a bitfield of `num` entries: a bitmap is
    /// cut or padded with `false`.
    pub open spec fn bits(&self, num: nat) -> Seq<bool> {
        match self {
            PeerAvail::Unknown => Seq::new(num, |i: int| false),
            PeerAvail::HaveNone => Seq::new(num, |i: int| false),
            PeerAvail::HaveAll => Seq::new(num, |i: int| true),
            PeerAvail::Bitmap(v) => Seq::new(num, |i: int| i < v@.len() && v@[i]),
        }
    }

    /// The peer's pieces as a bitfield of `num` entries.
    pub fn as_bitfield(&self, num: usize) -> (res: Vec<bool>)
        ensures
            res@ == self.bits(num as nat),
    {
        let mut out: Vec<bool> = Vec::new();
        let mut i: usize = 0;
        while i < num
            invariant
                i <= num,
                out@ == self.bits(num as nat).take(i as int),
            decreases num - i,
        {
            let has = match self {
                PeerAvail::Unknown => false,
                PeerAvail::HaveNone => false,
                PeerAvail::HaveAll => true,
                PeerAvail::Bitmap(v) => i < v.len() && v[i],
            };
            out.push(has);
            i = i + 1;
            assert(out@ =~= self.bits(num as nat).take(i as int));
        }
        assert(out@ =~= self.bits(num as nat));
        out
    }
}

/// Encodes a bitfield as an MSB-first bitmap: entry `i` is bit
/// `0x80 >> (i % 8)` of byte `i / 8`.
pub fn bitfield_to_bytes(bits: &[bool]) -> (res: Vec<u8>)
    ensures
        is_bitmap_of(res@, bits@),
{
    let n = bits.len();
    let nbytes: usize = n / 8 + if n % 8 != 0 { 1 } else { 0 };
    let mut bytes: Vec<u8> = Vec::new();
    let mut k: usize = 0;
    while k < nbytes
        invariant
            k <= nbytes,
            bytes@ == Seq::new(k as nat, |j: int| 0u8),
        decreases nbytes - k,
    {
        bytes.push(0u8);
        k = k + 1;
        assert(bytes@ =~= Seq::new(k as nat, |j: int| 0u8));
    }
    assert forall|j: int| 0 <= j < 8 * bytes@.len() implies !#[trigger] bitmap_bit(bytes@, j) by {
        lemma_bit_zero((j % 8) as u8);
    }
    let mut i: usize = 0;
    while i < n
        invariant
            n == bits@.len(),
            nbytes == bitmap_len(n as nat),
            bytes@.len() == nbytes,
            i <= n,
            forall|j: int| 0 <= j < 8 * bytes@.len() ==> #[trigger] bitmap_bit(bytes@, j) == (j < i && bits@[j]),
        decreases n - i,
    {
        if bits[i] {
            let k = i / 8;
            let s: u8 = (i % 8) as u8;
            let ghost old_bytes = bytes@;
            let nb = bytes[k] | (0x80u8 >> s);
            bytes.set(k, nb);
            assert forall|j: int| 0 <= j < 8 * bytes@.len() implies #[trigger] bitmap_bit(bytes@, j) == (j < i + 1 && bits@[j]) by {
                assert(bitmap_bit(old_bytes, j) == (j < i && bits@[j]));
                if j / 8 == k {
                    lemma_bit_set(old_bytes[k as int], s, (j % 8) as u8);
                    assert((j % 8 == i % 8) == (j == i));
                }
            }
        }
        i = i + 1;
    }
    bytes
}

/// Decodes the first `num` entries of an MSB-first bitmap; entries past its
/// end are `false`.
pub fn bytes_to_bitfield(bytes: &[u8], num: usize) -> (res: Vec<bool>)
    ensures
        res@ == decode_bitmap(bytes@, num as nat),
{
    let mut out: Vec<bool> = Vec::new();
    let mut i: usize = 0;
    while i < num
        invariant
            i <= num,
            out@ == decode_bitmap(bytes@, num as nat).take(i as int),
        decreases num - i,
    {
        let k = i / 8;
        let has = k < bytes.len() && (bytes[k] >> (7u8 - (i % 8) as u8)) & 1u8 == 1u8;
        out.push(has);
        i = i + 1;
        assert(out@ =~= decode_bitmap(bytes@, num as nat).take(i as int));
    }
    assert(out@ =~= decode_bitmap(bytes@, num as nat));
    out
}

/// Decoding the bitmap of a bitfield, to the bitfield's length, gives the
/// bitfield back.
pub proof fn lemma_bitmap_roundtrip(bits: Seq<bool>, bytes: Seq<u8>)
    requires
        is_bitmap_of(bytes, bits),
    ensures
        decode_bitmap(bytes, bits.len()) == bits,
{
    assert forall|i: int| 0 <= i < bits.len() implies #[trigger] decode_bitmap(bytes, bits.len())[i] == bits[i] by {
        assert(bitmap_bit(bytes, i) == (i < bits.len() && bits[i]));
    }
    assert(decode_bitmap(bytes, bits.len()) =~= bits);
}

} // verus!
