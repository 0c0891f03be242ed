//! The wall clock, read for stamping and checking per-key expirations.

use vstd::prelude::*;

verus! {

/// Relies on std::time::SystemTime::now and its distance from
/// std::time::UNIX_EPOCH for the current wall-clock time in whole seconds.
/// Nothing can be promised of the clock's value; every caller states what
/// holds whatever time comes back.
#[verifier::external_body]
pub fn wall_clock_seconds() -> u64 {
    match std::time::SystemTime::now().duration_since(std::time::UNIX_EPOCH) {
        Ok(d) => d.as_secs(),
        Err(_) => 0,
    }
}

} // verus!
