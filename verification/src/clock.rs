//! The wall clock.
use vstd::prelude::*;

verus! {

/// Seconds since the Unix epoch, by `UNIX_EPOCH.elapsed()`; 0 when the clock
/// reads earlier than the epoch. Nothing is claimed of the value: it is the
/// time.
#[verifier::external_body]
pub(crate) fn unix_now_secs() -> (r: u64) {
    match std::time::UNIX_EPOCH.elapsed() {
        Ok(d) => d.as_secs(),
        Err(_) => 0,
    }
}

} // verus!
