use vstd::prelude::*;

verus! {

/// Relies on `std::time::SystemTime::now` and `SystemTime::duration_since`:
/// the wall clock, read as whole milliseconds since the Unix epoch. A clock
/// standing before the epoch makes `duration_since` return its error, which
/// comes back as `None`; no path in this body can panic. Nothing can be
/// promised of a clock reading, so nothing is.
#[verifier::external_body]
fn current_millis() -> Option<u128> {
    match std::time::SystemTime::now().duration_since(std::time::UNIX_EPOCH) {
        Ok(d) => Some(d.as_millis()),
        Err(_) => None,
    }
}

/// The current time as an unsigned millisecond count: a reading from before
/// the epoch counts as zero, and one beyond `u64` range saturates.
pub fn now_millis() -> u64 {
    match current_millis() {
        Some(ms) => {
            if ms > u64::MAX as u128 {
                u64::MAX
            } else {
                ms as u64
            }
        },
        None => 0,
    }
}

} // verus!
