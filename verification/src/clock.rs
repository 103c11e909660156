//! Monotonic time, read as nanoseconds elapsed since a fixed origin.
//!
//! The time-to-live cache works on integer nanosecond counts; these trusted
//! wrappers are the only places that touch `std::time`.

use vstd::prelude::*;
use std::time::Duration;
use std::time::Instant;

verus! {

#[verifier::external_type_specification]
#[verifier::external_body]
pub struct ExInstant(Instant);

/// `Instant::now`: the current instant. Trusted; nothing is stated of the
/// result, which depends on the time of the call.
#[verifier::external_body]
pub(crate) fn instant_now() -> Instant {
    Instant::now()
}

/// `Instant::elapsed`: the time since `origin`. Trusted; nothing is stated of
/// the result, which depends on the time of the call.
#[verifier::external_body]
pub(crate) fn elapsed_since(origin: &Instant) -> Duration {
    origin.elapsed()
}

/// Largest nanosecond count a `Duration` holds: `u64::MAX` seconds plus
/// 999,999,999 nanoseconds.
pub const MAX_DURATION_NANOS: u128 = 18_446_744_073_709_551_615_999_999_999;

/// The total number of nanoseconds in `d`, as `Duration::as_nanos` returns it.
pub uninterp spec fn duration_as_nanos(d: Duration) -> u128;

/// `Duration::as_nanos`: the whole nanoseconds in `d`. Trusted: the result is
/// named `duration_as_nanos(d)`, and is at most `MAX_DURATION_NANOS`, since a
/// `Duration` holds at most `u64::MAX` seconds and a sub-second part below
/// one second.
#[verifier::external_body]
pub(crate) fn duration_nanos(d: &Duration) -> (r: u128)
    ensures
        r == duration_as_nanos(*d),
        r <= MAX_DURATION_NANOS,
{
    d.as_nanos()
}

/// `Instant::saturating_duration_since`: the time from `earlier` to `later`,
/// zero when `earlier` is the later one. Trusted; `Instant` is opaque here, so
/// nothing is stated of the result beyond what `duration_nanos` gives.
#[verifier::external_body]
pub(crate) fn duration_between(later: &Instant, earlier: &Instant) -> Duration {
    later.saturating_duration_since(*earlier)
}

/// `Instant::checked_add`: `Some` of the instant `d` after `at` when the
/// platform's instant representation can hold it, `None` otherwise. Trusted;
/// where that limit lies depends on the platform and on `at`, so nothing is
/// stated of which variant comes back.
#[verifier::external_body]
pub(crate) fn instant_checked_add(at: &Instant, d: &Duration) -> Option<Instant> {
    at.checked_add(*d)
}

/// `Duration::from_secs`: a duration of `secs` whole seconds. Trusted: its
/// nanosecond count is `secs` times 10^9, with no sub-second part.
#[verifier::external_body]
pub(crate) fn duration_from_secs(secs: u64) -> (r: Duration)
    ensures
        duration_as_nanos(r) == secs as int * 1_000_000_000,
{
    Duration::from_secs(secs)
}

} // verus!
