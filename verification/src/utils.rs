//! The clock utility: the day index that seeds the daily schedule.

use vstd::prelude::*;

verus! {

/// Seconds in one day.
pub const SECS_IN_DAY: u64 = 60 * 60 * 24;

/// Relies on `std::time::SystemTime::now` and `duration_since`: seconds
/// since the Unix epoch, `None` when the system clock stands before it.
/// The result depends on the clock, so nothing is promised of it.
#[verifier::external_body]
fn secs_since_unix_epoch() -> (r: Option<u64>) {
    std::time::SystemTime::now().duration_since(std::time::SystemTime::UNIX_EPOCH).ok().map(
        |d| d.as_secs(),
    )
}

/// The day index that a clock reading in seconds falls in.
pub fn day_index_of_secs(secs: u64) -> (d: u64)
    ensures
        d == secs / SECS_IN_DAY,
{
    secs / SECS_IN_DAY
}

/// Returns today in days since the Unix epoch, or `None` if the system
/// clock stands before the epoch.
pub fn today() -> (r: Option<u64>)
    ensures
        r matches Some(d) ==> d <= u64::MAX / SECS_IN_DAY,
{
    match secs_since_unix_epoch() {
        Some(secs) => {
            let d = day_index_of_secs(secs);
            proof {
                vstd::arithmetic::div_mod::lemma_div_is_ordered(
                    secs as int,
                    u64::MAX as int,
                    SECS_IN_DAY as int,
                );
            }
            Some(d)
        }
        None => None,
    }
}

} // verus!
