use vstd::prelude::*;

verus! {

/// Reads the wall clock through `chrono::Utc::now`, in microseconds since the
/// Unix epoch (`DateTime::timestamp_micros`). Nothing is known of the value.
#[verifier::external_body]
pub(crate) fn now_micros() -> (r: i64) {
    chrono::Utc::now().timestamp_micros()
}

} // verus!
