//! Hexadecimal text, as the `hex` crate reads and writes it.
use vstd::prelude::*;

verus! {

/// The value of a hex digit, either case.
pub open spec fn hex_val(c: u8) -> Option<u8> {
    if 48 <= c <= 57 {
        Some((c - 48) as u8)
    } else if 97 <= c <= 102 {
        Some((c - 87) as u8)
    } else if 65 <= c <= 70 {
        Some((c - 55) as u8)
    } else {
        None
    }
}

/// Every byte is a hex digit.
pub open spec fn all_hex(s: Seq<u8>) -> bool {
    forall|i: int| 0 <= i < s.len() ==> (#[trigger] hex_val(s[i])) is Some
}

/// The bytes a hex string stands for: two digits per byte, high nibble
/// first; `None` for an odd length or a non-digit.
pub open spec fn hex_decode_spec(s: Seq<u8>) -> Option<Seq<u8>> {
    if s.len() % 2 == 0 && all_hex(s) {
        Some(Seq::new(s.len() / 2, |i: int| (hex_val(s[2 * i])->0 * 16 + hex_val(s[2 * i + 1])->0) as u8))
    } else {
        None
    }
}

/// The lowercase hex digit of `n < 16`.
pub open spec fn hex_digit(n: int) -> char {
    if n < 10 {
        (48 + n) as char
    } else {
        (87 + n) as char
    }
}

/// Lowercase hex text of bytes, two digits per byte, high nibble first.
pub open spec fn hex_encode_spec(b: Seq<u8>) -> Seq<char> {
    Seq::new(
        2 * b.len(),
        |i: int| if i % 2 == 0 { hex_digit(b[i / 2] as int / 16) } else { hex_digit(b[i / 2] as int % 16) },
    )
}

/// Why a text is not hex.
#[derive(Debug, Clone, Copy, PartialEq, Eq, Structural)]
pub enum HexFailure {
    /// The byte at `index`, read as a character, is not a hex digit.
    InvalidChar { c: char, index: usize },
    /// An odd number of digits.
    OddLength,
    /// A length the target cannot hold.
    InvalidStringLength,
}

/// The position of the first byte from `i` on that is not a hex digit, or
/// the length when there is none.
pub open spec fn first_non_hex(s: Seq<u8>, i: int) -> int
    decreases s.len() - i,
{
    if i < 0 || i >= s.len() {
        s.len() as int
    } else if hex_val(s[i]) is None {
        i
    } else {
        first_non_hex(s, i + 1)
    }
}

/// Why `hex::decode` refuses `s`: an odd length, else its first byte that
/// is not a hex digit.
pub open spec fn hex_failure_spec(s: Seq<u8>) -> HexFailure {
    if s.len() % 2 != 0 {
        HexFailure::OddLength
    } else {
        let k = first_non_hex(s, 0);
        HexFailure::InvalidChar { c: s[k] as char, index: k as usize }
    }
}

/// Calls `hex::decode`: the bytes the text stands for; for an odd length
/// `OddLength`, else the first byte that is not a hex digit, as a
/// character, and its position.
#[verifier::external_body]
pub(crate) fn hex_decode(data: &[u8]) -> (res: Result<Vec<u8>, HexFailure>)
    ensures
        match hex_decode_spec(data@) {
            Some(v) => res matches Ok(r) && r@ == v,
            None => res == Err::<Vec<u8>, HexFailure>(hex_failure_spec(data@)),
        },
{
    match ::hex::decode(data) {
        Ok(v) => Ok(v),
        Err(::hex::FromHexError::InvalidHexCharacter { c, index }) => Err(HexFailure::InvalidChar { c, index }),
        Err(::hex::FromHexError::OddLength) => Err(HexFailure::OddLength),
        Err(::hex::FromHexError::InvalidStringLength) => Err(HexFailure::InvalidStringLength),
    }
}

/// A text of even length that is not all hex digits has a first byte that
/// is not one.
pub proof fn lemma_first_non_hex(s: Seq<u8>, i: int)
    requires
        0 <= i <= s.len(),
        exists|j: int| i <= j < s.len() && hex_val(s[j]) is None,
    ensures
        i <= first_non_hex(s, i) < s.len(),
        hex_val(s[first_non_hex(s, i)]) is None,
    decreases s.len() - i,
{
    if hex_val(s[i]) is Some {
        let j = choose|j: int| i <= j < s.len() && hex_val(s[j]) is None;
        assert(j != i);
        lemma_first_non_hex(s, i + 1);
    }
}

/// Calls `hex::encode`: lowercase hex text, two digits per byte.
#[verifier::external_body]
pub(crate) fn hex_encode(data: &[u8]) -> (res: String)
    ensures
        res@ == hex_encode_spec(data@),
{
    ::hex::encode(data)
}

} // verus!
