//! The wall clock.

use vstd::prelude::*;

verus! {

/// `chrono::Utc::now` followed by `DateTime::timestamp_millis`: the
/// current time in milliseconds since the Unix epoch. Nothing is claimed
/// of the value: it changes from call to call. `Utc::now` panics on a
/// machine whose clock stands before the epoch.
#[verifier::external_body]
pub(crate) fn utc_now_millis() -> i64 {
    chrono::Utc::now().timestamp_millis()
}

} // verus!
