use vstd::prelude::*;

verus! {

/// Relies on chrono::Utc::now and chrono::DateTime::timestamp: the
/// current wall-clock time in whole seconds since the Unix epoch,
/// truncated into a u64. Nothing is assumed of the value returned.
#[verifier::external_body]
pub(crate) fn unix_now() -> u64 {
    chrono::Utc::now().timestamp() as u64
}

} // verus!
