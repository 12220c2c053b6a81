use vstd::prelude::*;

verus! {

/// Relies on chrono's `DateTime<Utc>: From<SystemTime>` and
/// `DateTime::timestamp_millis`: the current wall-clock time as milliseconds
/// since the Unix epoch. The conversion handles a clock reading before the
/// epoch (yielding a negative stamp) rather than panicking, as the bare
/// `Utc::now` would. Nothing can be promised about the value; every caller
/// must work with any stamp.
#[verifier::external_body]
pub(crate) fn now_millis() -> i64 {
    chrono::DateTime::<chrono::Utc>::from(std::time::SystemTime::now()).timestamp_millis()
}

} // verus!
