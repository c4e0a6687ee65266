//! The wall clock, in Unix seconds.
use vstd::prelude::*;

verus! {

/// A point in time of the system clock.
#[verifier::external_type_specification]
#[verifier::external_body]
pub struct ExSystemTime(std::time::SystemTime);

/// Calls `SystemTime::now`. Nothing is promised of its value.
#[verifier::external_body]
fn system_now() -> (res: std::time::SystemTime) {
    std::time::SystemTime::now()
}

/// Calls `SystemTime::duration_since(UNIX_EPOCH)`: the time since the Unix
/// epoch, `None` for a time before it. Nothing is promised of its value.
#[verifier::external_body]
fn since_epoch(t: std::time::SystemTime) -> (res: Option<std::time::Duration>) {
    t.duration_since(std::time::UNIX_EPOCH).ok()
}

/// Calls `Duration::as_secs`: the whole seconds of `d`.
#[verifier::external_body]
fn whole_secs(d: std::time::Duration) -> (res: u64) {
    d.as_secs()
}

/// The Unix time in seconds, 0 for a clock set before the epoch.
pub(crate) fn unix_now() -> (res: u64) {
    match since_epoch(system_now()) {
        Some(d) => whole_secs(d),
        None => 0,
    }
}

} // verus!
