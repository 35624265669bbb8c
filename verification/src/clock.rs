//! The wall clock, read once per handled datagram: monitor expiries are
//! stamped and judged against it.

use vstd::prelude::*;

verus! {

/// Relies on `chrono::Utc::now`: the present moment, as milliseconds
/// since the epoch. The value depends on the wall clock, so nothing is
/// promised of it; every caller copes with any value.
#[verifier::external_body]
pub(crate) fn now_millis() -> u64 {
    chrono::Utc::now().timestamp_millis() as u64
}

} // verus!
