use vstd::prelude::*;

verus! {

/// Errors of the DHT.
#[derive(Debug, Clone, Copy, PartialEq, Eq, Structural)]
pub enum DhtError {
    /// A node identifier of the wrong length (it must be 32 bytes).
    InvalidNodeId(usize),
}

} // verus!
