//! Wall-clock time in Unix-epoch milliseconds, so clients predict the click
//! beat without a per-beat broadcast.

use vstd::prelude::*;

use std::time::{Duration, SystemTime, SystemTimeError};

verus! {

#[verifier::external_type_specification]
#[verifier::external_body]
pub struct ExSystemTime(SystemTime);

#[verifier::external_type_specification]
#[verifier::external_body]
pub struct ExSystemTimeError(SystemTimeError);

/// Calls `SystemTime::now`. The result is the machine's clock; nothing is
/// stated of it.
#[verifier::external_body]
fn system_time_now() -> (r: SystemTime) {
    SystemTime::now()
}

/// Calls `SystemTime::duration_since` with `UNIX_EPOCH`: the time elapsed
/// since the epoch, or an error when the clock is set before it. Nothing is
/// stated of the value, which depends on the clock reading it is given.
#[verifier::external_body]
fn since_unix_epoch(t: &SystemTime) -> (r: Result<Duration, SystemTimeError>) {
    t.duration_since(std::time::UNIX_EPOCH)
}

/// Calls `Duration::as_millis`: the whole milliseconds of the duration.
/// Nothing is stated, since a `Duration` is opaque here.
#[verifier::external_body]
fn whole_millis(d: &Duration) -> (r: u128) {
    d.as_millis()
}

/// Unix-epoch milliseconds reported for an elapsed time: the low 64 bits of
/// the milliseconds since the epoch, or 0 when the clock is before the epoch.
pub open spec fn unix_ms_of(elapsed_ms: Option<u128>) -> u64 {
    match elapsed_ms {
        Some(ms) => ms as u64,
        None => 0,
    }
}

/// Unix-epoch milliseconds from the milliseconds elapsed since the epoch
/// (None when the clock reads before the epoch).
pub fn unix_ms(elapsed_ms: Option<u128>) -> (r: u64)
    ensures
        r == unix_ms_of(elapsed_ms),
{
    match elapsed_ms {
        Some(ms) => #[verifier::truncate] (ms as u64),
        None => 0,
    }
}

/// A reading is reported in milliseconds as it is, never rescaled: `ms`
/// milliseconds since the epoch are reported as `ms` itself whenever they fit
/// in 64 bits, and as their low 64 bits otherwise; a clock before the epoch is
/// reported as 0.
pub proof fn lemma_unix_ms_keeps_millis(ms: u128)
    ensures
        ms <= u64::MAX ==> unix_ms_of(Some(ms)) == ms,
        unix_ms_of(Some(ms)) == ms % 0x1_0000_0000_0000_0000,
        unix_ms_of(None) == 0,
{
    assert(ms as u64 == ms % 0x1_0000_0000_0000_0000) by (bit_vector);
    assert(ms <= 0xffff_ffff_ffff_ffff ==> ms as u64 == ms) by (bit_vector);
}

/// Current Unix-epoch time in milliseconds; 0 if the clock reads before the
/// epoch. The value comes from the machine's clock, so nothing is promised of
/// it beyond what `unix_ms` does with the reading.
pub fn now_unix_ms() -> u64 {
    let now = system_time_now();
    let elapsed = match since_unix_epoch(&now) {
        Ok(d) => Some(whole_millis(&d)),
        Err(_) => None,
    };
    unix_ms(elapsed)
}

} // verus!
