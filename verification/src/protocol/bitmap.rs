//! MSB-first bitmaps of piece sets: entry `i` is bit `i % 8`, counted from
//! the most significant bit, of byte `i / 8`.
use vstd::prelude::*;

verus! {

/// Bit `k` of a byte, counted from the most significant bit.
pub open spec fn bit_of(byte: u8, k: u8) -> bool {
    (byte >> ((7 - k) as u8)) & 1u8 == 1u8
}

/// Entry `i` of an MSB-first bitmap: bit `i % 8` of byte `i / 8`, `false`
/// past the end.
pub open spec fn bitmap_bit(bytes: Seq<u8>, i: int) -> bool {
    0 <= i && i / 8 < bytes.len() && bit_of(bytes[i / 8], (i % 8) as u8)
}

/// Number of bytes of the bitmap of `n` entries.
pub open spec fn bitmap_len(n: nat) -> nat {
    (n + 7) / 8
}

/// `bytes` is the bitmap of `bits`: one bit per entry, MSB first, the
/// padding bits of the last byte clear.
pub open spec fn is_bitmap_of(bytes: Seq<u8>, bits: Seq<bool>) -> bool {
    &&& bytes.len() == bitmap_len(bits.len())
    &&& forall|i: int| 0 <= i < 8 * bytes.len() ==> #[trigger] bitmap_bit(bytes, i) == (i < bits.len() && bits[i])
}

/// The first `num` entries of a bitmap.
pub open spec fn decode_bitmap(bytes: Seq<u8>, num: nat) -> Seq<bool> {
    Seq::new(num, |i: int| bitmap_bit(bytes, i))
}

/// Setting bit `k` of a byte sets that bit and leaves the others.
pub proof fn lemma_bit_set(b: u8, k: u8, j: u8)
    requires
        k < 8,
        j < 8,
    ensures
        bit_of(b | (0x80u8 >> k), j) == (j == k || bit_of(b, j)),
{
    assert(bit_of(b | (0x80u8 >> k), j) == (j == k || bit_of(b, j))) by (bit_vector)
        requires
            k < 8,
            j < 8,
    ;
}

/// The zero byte has no bit set.
pub proof fn lemma_bit_zero(j: u8)
    requires
        j < 8,
    ensures
        !bit_of(0u8, j),
{
    assert(!bit_of(0u8, j)) by (bit_vector)
        requires
            j < 8,
    ;
}

} // verus!
