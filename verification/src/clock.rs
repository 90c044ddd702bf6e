//! Wall-clock access: the Unix timestamp stamped onto price records.

use vstd::prelude::*;

verus! {

/// Relies on `std::time::SystemTime::now` and
/// `SystemTime::duration_since(UNIX_EPOCH)`: seconds elapsed since the Unix
/// epoch, or zero if the clock reads earlier than the epoch. Nothing can be
/// promised of the clock's value.
#[verifier::external_body]
fn now_unix_secs() -> u64 {
    std::time::SystemTime::now()
        .duration_since(std::time::UNIX_EPOCH)
        .map(|d| d.as_secs())
        .unwrap_or(0)
}

/// The current time in seconds since the Unix epoch.
pub fn get_unix_timestamp() -> u64 {
    now_unix_secs()
}

} // verus!
