use vstd::prelude::*;

verus! {

/// Errors raised while decoding protocol data.
#[derive(Debug, Clone, Copy, PartialEq, Eq, Structural)]
pub enum ProtocolError {
    UnknownMessageId(u8),
    InvalidMessageLength { expected: usize, got: usize },
    FrameTooLarge(usize),
    InvalidInfoHashLength(usize),
    InvalidPriority(u8),
    InvalidAuthTag(u8),
    /// A string field did not hold valid UTF-8.
    Utf8,
}

} // verus!
