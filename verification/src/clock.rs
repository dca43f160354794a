//! The time, as numbers.
//!
//! What a clock shows is not described: every function that reads one is stated
//! for any reading, and has a companion that takes the reading as an argument.

use std::time::{Duration, Instant, SystemTime, SystemTimeError, UNIX_EPOCH};

use vstd::prelude::*;

verus! {

#[verifier::external_type_specification]
#[verifier::external_body]
pub struct ExInstant(std::time::Instant);

#[verifier::external_type_specification]
#[verifier::external_body]
pub struct ExSystemTime(std::time::SystemTime);

#[verifier::external_type_specification]
#[verifier::external_body]
pub struct ExSystemTimeError(std::time::SystemTimeError);

/// `SystemTime::now`. Nothing is claimed of the time of day.
#[verifier::external_body]
fn system_now() -> (r: SystemTime) {
    SystemTime::now()
}

/// `SystemTime::duration_since`, from the Unix epoch. A `SystemTime` and a
/// `Duration` are opaque here, so the one is not tied to the other.
#[verifier::external_body]
fn since_epoch(t: &SystemTime) -> (r: core::result::Result<Duration, SystemTimeError>) {
    t.duration_since(UNIX_EPOCH)
}

/// `Duration::as_millis`. A `Duration` is opaque here and has no plain value that
/// the number could be tied to, so nothing is claimed of it.
#[verifier::external_body]
fn as_millis(d: &Duration) -> (r: u128) {
    d.as_millis()
}

/// `Duration::as_nanos`. A `Duration` is opaque here and has no plain value that
/// the number could be tied to, so nothing is claimed of it.
#[verifier::external_body]
fn as_nanos(d: &Duration) -> (r: u128) {
    d.as_nanos()
}

/// `Instant::now`. Nothing is claimed of what the clock shows.
#[verifier::external_body]
pub(crate) fn instant_now() -> (r: Instant) {
    Instant::now()
}

/// `Instant::elapsed`. It rests on when it is called: nothing is claimed of it.
#[verifier::external_body]
fn elapsed(since: &Instant) -> (r: Duration) {
    since.elapsed()
}

/// The nanoseconds since an instant. They rest on the clock alone, so callers
/// hold for any number.
pub(crate) fn nanos_since(start: &Instant) -> (r: u128) {
    as_nanos(&elapsed(start))
}

/// The number to start drawing from for a number of nanoseconds since the Unix
/// epoch: its lowest 64 bits; zero before the epoch.
pub open spec fn seed_at(since: Option<u128>) -> u64 {
    match since {
        Some(ns) => (ns % 0x1_0000_0000_0000_0000) as u64,
        None => 0,
    }
}

/// The number to start drawing from for a reading of the clock.
pub fn seed(since: Option<u128>) -> (r: u64)
    ensures
        r == seed_at(since),
{
    match since {
        Some(ns) => {
            assert(ns as u64 == ns % 0x1_0000_0000_0000_0000) by (bit_vector);
            #[verifier::truncate]
            let r = ns as u64;
            r
        },
        None => 0,
    }
}

/// The number to start drawing from, taken off the time of day.
pub(crate) fn time_seed() -> (r: u64)
    ensures
        exists|since: Option<u128>| r == #[trigger] seed_at(since),
{
    let since = match since_epoch(&system_now()) {
        Ok(d) => Some(as_nanos(&d)),
        Err(_) => None,
    };
    seed(since)
}

/// The timestamp for a number of milliseconds since the Unix epoch, cut off at
/// 64 bits; zero before the epoch.
pub open spec fn timestamp_at(since: Option<u128>) -> i64 {
    match since {
        Some(ms) => ms as i64,
        None => 0,
    }
}

/// The timestamp for a reading of the clock.
pub fn timestamp(since: Option<u128>) -> (r: i64)
    ensures
        r == timestamp_at(since),
        since matches Some(ms) ==> (ms <= i64::MAX ==> r == ms),
        since is None ==> r == 0,
{
    match since {
        Some(ms) => {
            #[verifier::truncate]
            let r = ms as i64;
            r
        },
        None => 0,
    }
}

/// The time in milliseconds since the Unix epoch.
pub fn now_ms() -> (r: i64)
    ensures
        exists|since: Option<u128>| r == #[trigger] timestamp_at(since),
{
    let since = match since_epoch(&system_now()) {
        Ok(d) => Some(as_millis(&d)),
        Err(_) => None,
    };
    timestamp(since)
}

/// A number of milliseconds since the epoch is the time that it says, as long as
/// there is room for it; before the epoch it is zero. What random numbers start from
/// is the number of nanoseconds, less what has no room.
pub proof fn law_times(t: u64)
    ensures
        t <= i64::MAX ==> timestamp_at(Some(t as u128)) == t,
        timestamp_at(None) == 0,
        seed_at(Some(t as u128)) == t,
        seed_at(None) == 0,
{
}

} // verus!
