//! Time zones, resolved through the IANA database that `chrono-tz` carries.
//!
//! Nothing here is proved: the functions below state what the database
//! answers, and the rest of the library reasons from those statements.

use chrono::{Datelike, LocalResult, TimeZone, Timelike};
use chrono_tz::Tz;
use std::str::FromStr;
use vstd::prelude::*;

verus! {

/// Whether `name` is a zone of the database: whether `Tz::from_str(name)`
/// succeeds.
pub uninterp spec fn timezone_known(name: Seq<char>) -> bool;

/// The instant, in epoch milliseconds, at which the civil day `year-month-day`
/// begins (00:00:00 local time) in the zone `name`, as
/// `TimeZone::with_ymd_and_hms` of that zone resolves it. Nothing when the zone
/// is unknown, the day is not on the calendar, or local midnight is skipped
/// on that day.
pub uninterp spec fn local_midnight(name: Seq<char>, year: int, month: int, day: int) -> Option<
    i64,
>;

/// Calls `<chrono_tz::Tz as FromStr>::from_str`, which looks the name up in
/// the table of zone names, and reports whether it found the zone.
#[verifier::external_body]
pub(crate) fn timezone_is_known(name: &str) -> (known: bool)
    ensures
        known == timezone_known(name@),
{
    match Tz::from_str(name) {
        Ok(_) => true,
        Err(_) => false,
    }
}

/// Calls `TimeZone::with_ymd_and_hms(year, month, day, 0, 0, 0)` on the zone
/// that `Tz::from_str(name)` gives, and hands back the instant as epoch
/// milliseconds (`DateTime::timestamp_millis`). Where the local time occurs
/// twice, the earlier instant is taken. The call returns on every input.
#[verifier::external_body]
pub(crate) fn local_midnight_millis(name: &str, year: i32, month: u32, day: u32) -> (r: Option<i64>)
    ensures
        r == local_midnight(name@, year as int, month as int, day as int),
{
    match Tz::from_str(name) {
        Ok(tz) => match tz.with_ymd_and_hms(year, month, day, 0, 0, 0) {
            LocalResult::Single(t) => Some(t.timestamp_millis()),
            LocalResult::Ambiguous(t, _) => Some(t.timestamp_millis()),
            LocalResult::None => None,
        },
        Err(_) => None,
    }
}

/// A date and a time of day on the clocks of some zone.
#[derive(Clone, Copy, Debug, PartialEq, Eq, Structural)]
pub struct LocalDateTime {
    pub year: i32,
    pub month: u32,
    pub day: u32,
    pub hour: u32,
    pub minute: u32,
    pub second: u32,
    pub millisecond: u32,
}

/// What the clocks of the zone `name` show at the instant `millis`, in epoch
/// milliseconds, as `TimeZone::timestamp_millis_opt` of that zone resolves
/// it. Nothing when the zone is unknown or the instant is out of the range
/// of dates that can be shown.
pub uninterp spec fn local_datetime(name: Seq<char>, millis: int) -> Option<LocalDateTime>;

/// Calls `TimeZone::timestamp_millis_opt(millis)` on the zone that
/// `Tz::from_str(name)` gives, and hands back the fields of the local date
/// and time, read with `Datelike` and `Timelike`. The call returns on every
/// input.
#[verifier::external_body]
pub(crate) fn local_datetime_at(name: &str, millis: i64) -> (r: Option<LocalDateTime>)
    ensures
        r == local_datetime(name@, millis as int),
{
    let t = match Tz::from_str(name) {
        Ok(tz) => match tz.timestamp_millis_opt(millis) {
            LocalResult::Single(t) => t,
            _ => return None,
        },
        Err(_) => return None,
    };
    let (year, month, day) = (t.year(), t.month(), t.day());
    let (hour, minute, second) = (t.hour(), t.minute(), t.second());
    let millisecond = t.timestamp_subsec_millis();
    Some(LocalDateTime { year, month, day, hour, minute, second, millisecond })
}

} // verus!
