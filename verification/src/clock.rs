//! The wall clock, as far as the generators need it to pick a first seed.
use vstd::prelude::*;
use std::time::{Duration, SystemTime, SystemTimeError, UNIX_EPOCH};

verus! {

/// `std::time::SystemTime`, a reading of the system clock: carried through,
/// never looked into.
#[verifier::external_type_specification]
#[verifier::external_body]
pub struct ExSystemTime(SystemTime);

/// `std::time::SystemTimeError`, the error of a reading that lies before the
/// time it is measured from: carried through, never looked into.
#[verifier::external_type_specification]
#[verifier::external_body]
pub struct ExSystemTimeError(SystemTimeError);

/// `std::time::SystemTime::now`: the reading of the system clock. Nothing is
/// claimed of it.
pub assume_specification[ SystemTime::now ]() -> SystemTime;

/// `std::time::Duration::as_micros`: a duration in whole microseconds. Nothing
/// is claimed of the number.
pub assume_specification[ Duration::as_micros ](d: &Duration) -> u128;

/// `std::time::SystemTime::duration_since` with `UNIX_EPOCH` as the earlier
/// time: how long after the epoch `t` lies, or an error where it lies before.
/// Nothing is claimed of the outcome.
#[verifier::external_body]
pub(crate) fn since_epoch(t: &SystemTime) -> Result<Duration, SystemTimeError> {
    t.duration_since(UNIX_EPOCH)
}

/// The microseconds in one second.
pub const MICROS_PER_SECOND: u128 = 1_000_000;

/// One reading of the system clock as whole seconds and as whole
/// microseconds since the epoch: the seconds are those that the microseconds
/// hold. Both are zero where the clock stands before the epoch.
pub(crate) fn unix_time() -> (r: (u128, u128))
    ensures
        r.0 == r.1 / MICROS_PER_SECOND,
{
    let t = SystemTime::now();
    let micros = match since_epoch(&t) {
        Ok(d) => d.as_micros(),
        Err(_) => 0,
    };
    (micros / MICROS_PER_SECOND, micros)
}

} // verus!
