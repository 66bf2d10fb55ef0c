//! The wall clock.
use vstd::prelude::*;

verus! {

/// `chrono::Utc::now` and `DateTime::timestamp_millis`: the current time in
/// milliseconds since the Unix epoch.  Nothing is claimed of the value.
#[verifier::external_body]
pub(crate) fn now_millis() -> (t: i64) {
    chrono::Utc::now().timestamp_millis()
}

/// The current time as a creation stamp: milliseconds since the Unix epoch,
/// 0 for a clock set before it.
pub fn creation_stamp() -> (t: u64)
    ensures
        exists|now: i64| t == #[trigger] stamp_of(now),
{
    let now: i64 = now_millis();
    stamp_from_millis(now)
}

/// The creation stamp for a clock reading of `now` milliseconds since the
/// Unix epoch: the reading itself, or 0 for a reading before the epoch.
pub open spec fn stamp_of(now: i64) -> u64 {
    if now < 0 {
        0
    } else {
        now as u64
    }
}

/// The creation stamp for a clock reading of `now` milliseconds since the
/// Unix epoch: the reading itself, or 0 for a reading before the epoch.
pub fn stamp_from_millis(now: i64) -> (t: u64)
    ensures
        t == stamp_of(now),
{
    if now < 0 {
        0
    } else {
        now as u64
    }
}

} // verus!
