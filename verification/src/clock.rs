//! The current time as a Unix timestamp in milliseconds.

use vstd::prelude::*;

use std::time::{Duration, SystemTime, UNIX_EPOCH};

verus! {

/// A point in wall-clock time.
#[verifier::external_type_specification]
#[verifier::external_body]
pub struct ExSystemTime(std::time::SystemTime);

/// Calls `SystemTime::now`. It reads the machine's clock, so nothing is
/// stated of the value.
#[verifier::external_body]
fn system_time_now() -> SystemTime {
    SystemTime::now()
}

/// Calls `SystemTime::duration_since(UNIX_EPOCH)` on `t`; `None` when `t`
/// lies before the epoch. The clock value is opaque here, so nothing is
/// stated of the span.
#[verifier::external_body]
fn duration_since_unix_epoch(t: &SystemTime) -> Option<Duration> {
    match t.duration_since(UNIX_EPOCH) {
        Ok(d) => Some(d),
        Err(_) => None,
    }
}

/// Calls `Duration::as_millis`: the span in whole milliseconds. A
/// `Duration` is opaque here, so nothing is stated of the number.
#[verifier::external_body]
fn duration_millis(d: &Duration) -> u128 {
    d.as_millis()
}

/// The timestamp for a span since the epoch: 0 when the clock is before
/// the epoch, else the milliseconds cut to their low 64 bits.
pub fn timestamp_from_millis(millis: Option<u128>) -> (ms: u64)
    ensures
        ms == match millis {
            None => 0,
            Some(m) => (m % 0x1_0000_0000_0000_0000) as u64,
        },
{
    match millis {
        None => 0,
        Some(m) => {
            assert((m as u64) == ((m % 0x1_0000_0000_0000_0000) as u64)) by (bit_vector);
            m as u64
        },
    }
}

/// Returns the current Unix timestamp in milliseconds.
pub fn now_ms() -> u64 {
    let now = system_time_now();
    let millis = match duration_since_unix_epoch(&now) {
        Some(d) => Some(duration_millis(&d)),
        None => None,
    };
    timestamp_from_millis(millis)
}

} // verus!
