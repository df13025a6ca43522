//! Times: the clock in milliseconds, and the two texts that responses carry.

use vstd::prelude::*;
use crate::ext::{duration_millis, http_date, imf_fixdate, rfc3339_secs, rfc3339_utc, since_unix_epoch, system_now};

verus! {

/// The millisecond time that `chrono_millis` gives for a clock reading: `None` (a clock before
/// the epoch) is `0`; milliseconds since the epoch are cast to `i64`, keeping the low 64 bits.
pub open spec fn millis_since_epoch_spec(elapsed: Option<u128>) -> i64 {
    match elapsed {
        Some(ms) => ms as i64,
        None => 0,
    }
}

/// `chrono_millis` after the clock is read: the milliseconds since the epoch, or `None` for a
/// clock before it, as the `i64` that `chrono_millis` returns.
pub fn millis_since_epoch(elapsed: Option<u128>) -> (res: i64)
    ensures
        res == millis_since_epoch_spec(elapsed),
{
    match elapsed {
        Some(ms) => ms as i64,
        None => 0,
    }
}

/// `chrono_millis`: milliseconds since the Unix epoch now, `0` before the epoch, as `i64`.
/// It reads the clock, and any `i64` can come of some reading, so nothing is promised of the
/// value; `millis_since_epoch` states what is made of the reading.
pub fn chrono_millis() -> i64 {
    let now = system_now();
    let elapsed: Option<u128> = match since_unix_epoch(&now) {
        Some(d) => Some(duration_millis(&d)),
        None => None,
    };
    millis_since_epoch(elapsed)
}

/// Whole seconds of a millisecond time, negative times as zero.
pub open spec fn secs_of(millis: i64) -> u64 {
    (if millis < 0 {
        0
    } else {
        millis / 1000
    }) as u64
}

/// The latest instant that `iso_time` can write.
pub open spec fn iso_time_ok(millis: i64) -> bool {
    secs_of(millis) < 8210266876800
}

/// The latest instant that `http_time` can write.
pub open spec fn http_time_ok(millis: i64) -> bool {
    secs_of(millis) < 253402300800
}

fn secs_of_exec(millis: i64) -> (res: u64)
    ensures
        res == secs_of(millis),
{
    if millis < 0 {
        0
    } else {
        (millis / 1000) as u64
    }
}

/// `iso_time`: the RFC 3339 UTC text of a millisecond time, whole seconds.
pub fn iso_time(millis: i64) -> (res: String)
    requires
        iso_time_ok(millis),
    ensures
        res@ == rfc3339_utc(secs_of(millis)),
{
    match rfc3339_secs(secs_of_exec(millis)) {
        Some(t) => t,
        None => String::new(),
    }
}

/// `http_time`: the HTTP date text of a millisecond time.
pub fn http_time(millis: i64) -> (res: String)
    requires
        http_time_ok(millis),
    ensures
        res@ == imf_fixdate(secs_of(millis)),
{
    http_date(secs_of_exec(millis))
}

} // verus!
