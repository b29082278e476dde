//! The window of time that one booking query looks at.

use crate::decimal::{append_decimal, decimal_text};
use crate::timezone::{local_datetime, local_datetime_at, LocalDateTime};
use vstd::prelude::*;
use vstd::string::StringExecFns;

verus! {

/// Longest span a view may have: forty days, in milliseconds.
pub const MAX_TIMESPAN: i64 = 3_456_000_000;

/// Shortest span a view may have: one hour, in milliseconds.
pub const MIN_TIMESPAN: i64 = 3_600_000;

/// A span from `start` to `end` is between one hour and forty days long.
pub open spec fn valid_timespan(start_ts: int, end_ts: int) -> bool {
    MIN_TIMESPAN <= end_ts - start_ts <= MAX_TIMESPAN
}

/// The window `[start_ts, end_ts)` of a query, in epoch milliseconds. Every
/// value of this type spans between one hour and forty days.
#[derive(Clone, Copy, Debug)]
pub struct CalendarView {
    start_ts: i64,
    end_ts: i64,
}

/// The rejected bounds of a window whose span is out of range.
#[derive(Clone, Copy, Debug, PartialEq, Eq, Structural)]
pub struct InvalidTimespanError(pub i64, pub i64);

impl InvalidTimespanError {
    /// What the error says, as a text.
    pub open spec fn message_text(self) -> Seq<char> {
        "Provided timespan start_ts: "@ + decimal_text(self.0 as int) + " and end_ts: "@
            + decimal_text(self.1 as int)
            + " is invalid. It should be between 1 hour and 40 days."@
    }

    /// Says which bounds were refused and what is asked of them.
    pub fn message(&self) -> (text: String)
        ensures
            text@ == self.message_text(),
    {
        let mut text = String::from_str("Provided timespan start_ts: ");
        append_decimal(&mut text, self.0);
        text.append(" and end_ts: ");
        append_decimal(&mut text, self.1);
        text.append(" is invalid. It should be between 1 hour and 40 days.");
        text
    }
}

/// Both ends of a window on the clocks of a time zone.
#[derive(Clone, Copy, Debug, PartialEq, Eq, Structural)]
pub struct CalendarViewDateTime {
    pub start: LocalDateTime,
    pub end: LocalDateTime,
}

/// Puts the two ends of a window together, where both can be shown.
pub fn datetimes_of_view(start: Option<LocalDateTime>, end: Option<LocalDateTime>) -> (r: Option<
    CalendarViewDateTime,
>)
    ensures
        r == (match (start, end) {
            (Some(s), Some(e)) => Some(CalendarViewDateTime { start: s, end: e }),
            _ => None,
        }),
{
    match (start, end) {
        (Some(s), Some(e)) => Some(CalendarViewDateTime { start: s, end: e }),
        _ => None,
    }
}

impl CalendarView {
    #[verifier::type_invariant]
    spec fn span_in_range(&self) -> bool {
        valid_timespan(self.start_ts as int, self.end_ts as int)
    }

    /// First instant of the window.
    pub closed spec fn start(&self) -> i64 {
        self.start_ts
    }

    /// First instant after the window.
    pub closed spec fn end(&self) -> i64 {
        self.end_ts
    }

    /// Accepts the window exactly when its span is between one hour and forty
    /// days; the error carries the rejected bounds.
    pub fn create(start_ts: i64, end_ts: i64) -> (r: Result<CalendarView, InvalidTimespanError>)
        ensures
            r is Ok <==> valid_timespan(start_ts as int, end_ts as int),
            r matches Ok(view) ==> view.start() == start_ts && view.end() == end_ts,
            r matches Err(e) ==> e == InvalidTimespanError(start_ts, end_ts),
    {
        match end_ts.checked_sub(start_ts) {
            Some(delta) => {
                if delta > MAX_TIMESPAN || delta < MIN_TIMESPAN {
                    Err(InvalidTimespanError(start_ts, end_ts))
                } else {
                    Ok(CalendarView { start_ts, end_ts })
                }
            },
            None => Err(InvalidTimespanError(start_ts, end_ts)),
        }
    }

    /// First instant of the window, in epoch milliseconds.
    pub fn get_start(&self) -> (r: i64)
        ensures
            r == self.start(),
    {
        self.start_ts
    }

    /// First instant after the window, in epoch milliseconds.
    pub fn get_end(&self) -> (r: i64)
        ensures
            r == self.end(),
    {
        self.end_ts
    }

    /// The two ends of the window on the clocks of the zone `tz`. Nothing
    /// when the zone is unknown or an end cannot be shown as a date.
    pub fn as_datetime(&self, tz: &str) -> (r: Option<CalendarViewDateTime>)
        ensures
            r == (match (
                local_datetime(tz@, self.start() as int),
                local_datetime(tz@, self.end() as int),
            ) {
                (Some(s), Some(e)) => Some(CalendarViewDateTime { start: s, end: e }),
                _ => None,
            }),
    {
        datetimes_of_view(local_datetime_at(tz, self.start_ts), local_datetime_at(tz, self.end_ts))
    }

    /// Length of the window in milliseconds, which is always in range.
    pub fn span(&self) -> (d: i64)
        ensures
            d == self.end() - self.start(),
            MIN_TIMESPAN <= d <= MAX_TIMESPAN,
    {
        proof {
            use_type_invariant(self);
        }
        self.end_ts - self.start_ts
    }
}

} // verus!
