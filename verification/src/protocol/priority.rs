use vstd::prelude::*;

use super::error::ProtocolError;

verus! {

/// Download priority of a file: nine levels, carried as a `u8` on the wire.
#[derive(Debug, Clone, Copy, PartialEq, Eq, Structural, PartialOrd, Ord, Hash)]
pub enum Priority {
    Minimum,
    VeryLow,
    Lower,
    Low,
    Normal,
    High,
    Higher,
    VeryHigh,
    Maximum,
}

/// The wire value of each priority level.
pub open spec fn priority_value(p: Priority) -> u8 {
    match p {
        Priority::Minimum => 0,
        Priority::VeryLow => 1,
        Priority::Lower => 2,
        Priority::Low => 3,
        Priority::Normal => 4,
        Priority::High => 5,
        Priority::Higher => 6,
        Priority::VeryHigh => 7,
        Priority::Maximum => 8,
    }
}

/// The level a wire value names, if any.
pub open spec fn priority_from_value(v: u8) -> Option<Priority> {
    if v == 0 {
        Some(Priority::Minimum)
    } else if v == 1 {
        Some(Priority::VeryLow)
    } else if v == 2 {
        Some(Priority::Lower)
    } else if v == 3 {
        Some(Priority::Low)
    } else if v == 4 {
        Some(Priority::Normal)
    } else if v == 5 {
        Some(Priority::High)
    } else if v == 6 {
        Some(Priority::Higher)
    } else if v == 7 {
        Some(Priority::VeryHigh)
    } else if v == 8 {
        Some(Priority::Maximum)
    } else {
        None
    }
}

impl Priority {
    /// Decodes a wire value; only `0..=8` name a level.
    pub fn from_u8(v: u8) -> (res: Result<Priority, ProtocolError>)
        ensures
            match priority_from_value(v) {
                Some(p) => res == Ok::<Priority, ProtocolError>(p),
                None => res == Err::<Priority, ProtocolError>(ProtocolError::InvalidPriority(v)),
            },
    {
        match v {
            0 => Ok(Priority::Minimum),
            1 => Ok(Priority::VeryLow),
            2 => Ok(Priority::Lower),
            3 => Ok(Priority::Low),
            4 => Ok(Priority::Normal),
            5 => Ok(Priority::High),
            6 => Ok(Priority::Higher),
            7 => Ok(Priority::VeryHigh),
            8 => Ok(Priority::Maximum),
            other => Err(ProtocolError::InvalidPriority(other)),
        }
    }

    /// The wire value of this level.
    pub fn as_u8(self) -> (res: u8)
        ensures
            res == priority_value(self),
            res <= 8,
    {
        match self {
            Priority::Minimum => 0,
            Priority::VeryLow => 1,
            Priority::Lower => 2,
            Priority::Low => 3,
            Priority::Normal => 4,
            Priority::High => 5,
            Priority::Higher => 6,
            Priority::VeryHigh => 7,
            Priority::Maximum => 8,
        }
    }

    /// The default level, `Normal`.
    pub fn default_level() -> (res: Priority)
        ensures
            res == Priority::Normal,
    {
        Priority::Normal
    }
}

impl Default for Priority {
    fn default() -> (res: Priority)
        ensures
            res == Priority::Normal,
    {
        Priority::Normal
    }
}

/// Decoding the wire value of a level gives the level back.
pub proof fn lemma_priority_roundtrip(p: Priority)
    ensures
        priority_from_value(priority_value(p)) == Some(p),
{
}

/// Every value up to 8 names the level whose wire value it is; no larger
/// value names one.
pub proof fn lemma_value_roundtrip(v: u8)
    ensures
        v <= 8 ==> (priority_from_value(v) matches Some(p) && priority_value(p) == v),
        v > 8 ==> priority_from_value(v) is None,
{
}

/// Two levels with the same wire value are the same level.
pub proof fn lemma_priority_value_injective(a: Priority, b: Priority)
    ensures
        priority_value(a) == priority_value(b) <==> a == b,
{
}

} // verus!
