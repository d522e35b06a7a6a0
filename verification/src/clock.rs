use vstd::prelude::*;

verus! {

/// Relies on chrono::Local::now: the current local wall-clock time, as
/// milliseconds since the Unix epoch. Nothing is promised of the value —
/// the callers state what holds whatever reading comes back.
#[verifier::external_body]
pub(crate) fn now_millis() -> i64 {
    chrono::Local::now().naive_local().and_utc().timestamp_millis()
}

} // verus!
