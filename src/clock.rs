//! The wall clock, in milliseconds since the Unix epoch (UTC).

use vstd::prelude::*;

verus! {

/// Relies on chrono's `Utc::now` and `DateTime::timestamp_millis`; nothing is
/// known of the value.
#[verifier::external_body]
fn utc_now_millis() -> (r: i64) {
    chrono::Utc::now().timestamp_millis()
}

/// The current time. chrono's `Utc::now` panics on a system clock that reads
/// before the epoch, so the zero branch only keeps the conversion total.
pub fn now_millis() -> (r: u64) {
    let t = utc_now_millis();
    if t < 0 {
        0
    } else {
        t as u64
    }
}

} // verus!
