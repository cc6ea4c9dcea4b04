//! Access to the wall clock.
use vstd::prelude::*;

verus! {

/// Relies on chrono::Utc::now / DateTime::timestamp: the number of
/// non-leap seconds since the Unix epoch at the time of the call.  The
/// result depends on the clock, so nothing is promised of it.
#[verifier::external_body]
pub(crate) fn now_seconds() -> i64 {
    chrono::Utc::now().timestamp()
}

} // verus!
