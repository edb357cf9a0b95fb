//! The wall clock.

use vstd::prelude::*;

verus! {

/// `chrono::Utc::now`, as milliseconds since the Unix epoch. Nothing is claimed of
/// the value: it is whatever the clock of the machine says.
#[verifier::external_body]
pub(crate) fn now_millis() -> (millis: i64) {
    chrono::Utc::now().timestamp_millis()
}

} // verus!
