//! The wall clock, for the informational last-save timestamp of the state.

use vstd::prelude::*;

verus! {

/// Relies on std::time::SystemTime::now, with its distance from the Unix
/// epoch reduced to whole seconds; `duration_since` answers a clock that
/// reads before the epoch with an error, mapped to 0, so the reading cannot
/// panic. Nothing is promised of the clock's value.
#[verifier::external_body]
fn now_seconds() -> (r: u64) {
    match std::time::SystemTime::now().duration_since(std::time::UNIX_EPOCH) {
        Ok(d) => d.as_secs(),
        Err(_) => 0,
    }
}

/// The current time in seconds since the Unix epoch, as the state records
/// it; 0 on a clock that reads before the epoch.
pub fn current_timestamp() -> (t: u64) {
    now_seconds()
}

} // verus!
