//! Monotonic clock readings.

use vstd::prelude::*;

verus! {

#[verifier::external_type_specification]
#[verifier::external_body]
pub struct ExInstant(std::time::Instant);

#[verifier::external_type_specification]
#[verifier::external_body]
pub struct ExSystemTime(std::time::SystemTime);

/// Calls `SystemTime::now`. Nothing is stated of the reading.
#[verifier::external_body]
pub(crate) fn system_now() -> (t: std::time::SystemTime) {
    std::time::SystemTime::now()
}

/// Calls `SystemTime::duration_since(UNIX_EPOCH)` and returns the whole
/// seconds, `None` for a time before the epoch. The value depends on the
/// reading and is not stated.
#[verifier::external_body]
pub(crate) fn secs_since_epoch(t: &std::time::SystemTime) -> (secs: Option<u64>) {
    t.duration_since(std::time::UNIX_EPOCH).ok().map(|d| d.as_secs())
}

/// Calls `Instant::now`. Nothing is stated of the reading.
#[verifier::external_body]
pub(crate) fn instant_now() -> (t: std::time::Instant) {
    std::time::Instant::now()
}

/// Calls `Instant::duration_since` and returns the nanoseconds from
/// `earlier` to `later` (zero when `earlier` is later; the value depends on
/// the clock and is not stated).
#[verifier::external_body]
pub(crate) fn nanos_between(earlier: &std::time::Instant, later: &std::time::Instant) -> (n: u128) {
    later.duration_since(*earlier).as_nanos()
}

/// Clamps a nanosecond count to `u64`.
pub(crate) fn clamp_nanos(n: u128) -> (r: u64)
    ensures
        r == if n > u64::MAX { u64::MAX as u128 } else { n },
{
    if n > u64::MAX as u128 {
        u64::MAX
    } else {
        n as u64
    }
}

/// Nanoseconds elapsed since `start`, clamped to `u64`.
pub(crate) fn elapsed_nanos(start: &std::time::Instant) -> (n: u64) {
    let now = instant_now();
    clamp_nanos(nanos_between(start, &now))
}

} // verus!
