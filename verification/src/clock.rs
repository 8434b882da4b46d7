//! Access to the system clock, the one effectful dependency of the store.

use vstd::prelude::*;

verus! {

/// Relies on time::get_time, which returns the wall-clock time as seconds
/// (and nanoseconds) since the Unix epoch. Nothing is promised of the
/// reading: the clock may stand anywhere, even at or before the epoch.
#[verifier::external_body]
fn now_seconds() -> i64 {
    time::get_time().sec
}

/// The current clock reading floored at 1, so that write stamps are
/// positive even on a host whose clock stands at or before the epoch.
pub(crate) fn now_stamp() -> (r: i64)
    ensures
        r > 0,
{
    let now = now_seconds();
    if now < 1 {
        1
    } else {
        now
    }
}

} // verus!
