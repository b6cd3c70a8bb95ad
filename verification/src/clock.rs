//! Wall-clock and monotonic time, as the daemon reads them.

use vstd::prelude::*;

verus! {

/// `std::time::Instant`, an opaque monotonic timestamp.
#[verifier::external_type_specification]
#[verifier::external_body]
pub struct ExInstant(std::time::Instant);

/// The current monotonic time.
///
/// Trusted: calls `std::time::Instant::now`; nothing is promised of the value.
#[verifier::external_body]
pub(crate) fn instant_now() -> (r: std::time::Instant) {
    std::time::Instant::now()
}

/// Nanoseconds in a second and in a day.
pub const NANOS_PER_SEC: i128 = 1_000_000_000;
pub const NANOS_PER_DAY: i128 = 86_400_000_000_000;

/// Earliest and latest instants `chrono::DateTime<Utc>` can hold, in
/// nanoseconds since the Unix epoch (the first instant of year -262143 and
/// the last of year 262142).
pub const MIN_UTC_NANOS: i128 = -8_334_601_315_200_000_000_000;
pub const MAX_UTC_NANOS: i128 = 8_210_266_876_799_999_999_999;

/// The system clock's reading as whole seconds since the Unix epoch and
/// the nanoseconds past that second; `None` when the clock reads before the
/// epoch.
///
/// Trusted: calls `std::time::SystemTime::now` and `duration_since` with
/// `UNIX_EPOCH`, which std documents as failing for a time before the
/// epoch, then `Duration::as_secs` and `subsec_nanos` (documented below one
/// second). Nothing else is promised: the clock can read anything.
#[verifier::external_body]
fn system_clock() -> (r: Option<(u64, u32)>)
    ensures
        r matches Some(p) ==> p.1 < 1_000_000_000,
{
    match std::time::SystemTime::now().duration_since(std::time::UNIX_EPOCH) {
        Ok(d) => Some((d.as_secs(), d.subsec_nanos())),
        Err(_) => None,
    }
}

/// The current UTC time in nanoseconds since the Unix epoch, when the
/// system clock reads a time from the epoch up to the latest instant the
/// daemon's timestamps hold; `None` otherwise.
pub fn now_nanos() -> (r: Option<i128>)
    ensures
        r matches Some(n) ==> 0 <= n <= MAX_UTC_NANOS,
{
    match system_clock() {
        Some((secs, nanos)) => {
            if secs > 8_210_266_876_799 {
                return None;
            }
            let n = (secs as i128) * NANOS_PER_SEC + (nanos as i128);
            if n > MAX_UTC_NANOS {
                None
            } else {
                Some(n)
            }
        },
        None => None,
    }
}

/// Milliseconds elapsed since `at`.
///
/// Trusted: calls `Instant::elapsed` and converts the duration to whole
/// milliseconds (truncated to 64 bits as the daemon reports them); nothing
/// is promised of the value.
#[verifier::external_body]
pub(crate) fn elapsed_ms(at: &std::time::Instant) -> (r: u64) {
    at.elapsed().as_millis() as u64
}

} // verus!
