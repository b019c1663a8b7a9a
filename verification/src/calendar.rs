//! The UTC calendar, as `chrono` computes it.

use vstd::prelude::*;

verus! {

/// The whole seconds since the Unix epoch, rounded down, of the instant that
/// lies `secs` seconds and `nanos` nanoseconds after the epoch, or before it
/// where `before` is set.
pub open spec fn floor_seconds(before: bool, secs: int, nanos: int) -> int {
    if !before {
        secs
    } else if nanos == 0 {
        -secs
    } else {
        -secs - 1
    }
}

/// Computes the whole seconds since the Unix epoch of an instant given by its
/// distance from the epoch, rounding down. There is a result exactly where
/// it fits in 64 bits.
pub fn epoch_seconds(before: bool, secs: u64, nanos: u32) -> (r: Option<i64>)
    ensures
        match r {
            Some(at) => at == floor_seconds(before, secs as int, nanos as int),
            None => floor_seconds(before, secs as int, nanos as int) < i64::MIN || floor_seconds(
                before,
                secs as int,
                nanos as int,
            ) > i64::MAX,
        },
{
    let limit: u64 = 9_223_372_036_854_775_807;
    if !before {
        if secs <= limit {
            Some(secs as i64)
        } else {
            None
        }
    } else if nanos == 0 {
        if secs <= limit {
            Some(-(secs as i64))
        } else if secs == limit + 1 {
            Some(i64::MIN)
        } else {
            None
        }
    } else {
        if secs <= limit {
            Some(-(secs as i64) - 1)
        } else {
            None
        }
    }
}

/// The calendar year and month (UTC, proleptic Gregorian) of the instant
/// `secs` whole seconds after 1970-01-01T00:00:00Z, or `None` where the
/// instant lies outside the span of dates that `chrono` represents.
pub uninterp spec fn utc_year_month(secs: i64) -> Option<(i32, u32)>;

/// Trusted: calls `chrono::DateTime::<Utc>::from_timestamp` with zero
/// nanoseconds and reads the result through `Datelike::year` and
/// `Datelike::month`. The contract claims that the outcome depends on `secs`
/// alone, and that a month, as `Datelike::month` documents, lies between 1
/// and 12.
#[verifier::external_body]
pub(crate) fn utc_calendar(secs: i64) -> (r: Option<(i32, u32)>)
    ensures
        r == utc_year_month(secs),
        r matches Some(ym) ==> 1 <= ym.1 <= 12,
{
    match chrono::DateTime::from_timestamp(secs, 0) {
        Some(t) => Some((chrono::Datelike::year(&t), chrono::Datelike::month(&t))),
        None => None,
    }
}

} // verus!
