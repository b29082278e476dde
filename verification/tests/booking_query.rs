use nettu_scheduler::booking_slots::{
    validate_bookingslots_query, validate_slots_interval, window_from_day_bounds, BookingQueryError,
    BookingSlotsQuery,
};
use nettu_scheduler::calendar_view::InvalidTimespanError;

const MINUTE: i64 = 1000 * 60;
const HOUR: i64 = 60 * MINUTE;

fn query(date: &str, iana_tz: Option<&str>) -> BookingSlotsQuery {
    BookingSlotsQuery {
        date: date.to_string(),
        iana_tz: iana_tz.map(|tz| tz.to_string()),
        interval: 30 * MINUTE,
        duration: 30 * MINUTE,
    }
}

#[test]
fn interval_is_between_ten_and_sixty_minutes() {
    assert!(validate_slots_interval(10 * MINUTE));
    assert!(validate_slots_interval(60 * MINUTE));
    assert!(validate_slots_interval(15 * MINUTE));
    assert!(!validate_slots_interval(10 * MINUTE - 1));
    assert!(!validate_slots_interval(60 * MINUTE + 1));
    assert!(!validate_slots_interval(0));
    assert!(!validate_slots_interval(-15 * MINUTE));
}

#[test]
fn a_day_in_utc_spans_twenty_four_hours() {
    let view = validate_bookingslots_query(&query("2021-2-21", Some("UTC"))).unwrap();
    assert_eq!(view.get_start(), 1613865600000);
    assert_eq!(view.get_end(), 1613865600000 + 24 * HOUR);
}

#[test]
fn timezone_defaults_to_utc() {
    let view = validate_bookingslots_query(&query("2021-02-21", None)).unwrap();
    assert_eq!(view.get_start(), 1613865600000);
    assert_eq!(view.get_end(), 1613952000000);
}

#[test]
fn a_day_starts_at_local_midnight() {
    let view = validate_bookingslots_query(&query("2021-2-21", Some("Europe/Oslo"))).unwrap();
    assert_eq!(view.get_start(), 1613862000000);
    assert_eq!(view.span(), 24 * HOUR);
    let view = validate_bookingslots_query(&query("2021-2-21", Some("America/New_York"))).unwrap();
    assert_eq!(view.get_start(), 1613865600000 + 5 * HOUR);
}

#[test]
fn a_day_with_a_clock_change_is_shorter_or_longer() {
    let view = validate_bookingslots_query(&query("2021-3-28", Some("Europe/Oslo"))).unwrap();
    assert_eq!(view.get_start(), 1616886000000);
    assert_eq!(view.span(), 23 * HOUR);
    let view = validate_bookingslots_query(&query("2021-10-31", Some("Europe/Oslo"))).unwrap();
    assert_eq!(view.span(), 25 * HOUR);
}

#[test]
fn unknown_timezone_is_refused() {
    match validate_bookingslots_query(&query("2021-2-21", Some("Mars/Olympus_Mons"))) {
        Err(BookingQueryError::InvalidTimezoneError(name)) => assert_eq!(name, "Mars/Olympus_Mons"),
        other => panic!("unexpected: {:?}", other),
    }
    assert!(matches!(
        validate_bookingslots_query(&query("2021-2-21", Some(""))),
        Err(BookingQueryError::InvalidTimezoneError(_))
    ));
}

#[test]
fn invalid_date_is_refused() {
    match validate_bookingslots_query(&query("2021-2-29", Some("UTC"))) {
        Err(BookingQueryError::InvalidDateError(text)) => assert_eq!(text, "2021-2-29"),
        other => panic!("unexpected: {:?}", other),
    }
    assert!(matches!(
        validate_bookingslots_query(&query("tomorrow", None)),
        Err(BookingQueryError::InvalidDateError(_))
    ));
}

#[test]
fn the_first_check_that_fails_decides_the_error() {
    let mut q = query("not a date", Some("Nowhere"));
    q.duration = 0;
    q.interval = 5 * MINUTE;
    assert!(matches!(
        validate_bookingslots_query(&q),
        Err(BookingQueryError::InvalidIntervalError)
    ));
    q.interval = 61 * MINUTE;
    assert!(matches!(
        validate_bookingslots_query(&q),
        Err(BookingQueryError::InvalidIntervalError)
    ));
    q.interval = 10 * MINUTE;
    assert!(matches!(
        validate_bookingslots_query(&q),
        Err(BookingQueryError::InvalidTimezoneError(_))
    ));
    q.iana_tz = Some("Europe/Oslo".to_string());
    assert!(matches!(
        validate_bookingslots_query(&q),
        Err(BookingQueryError::InvalidDateError(_))
    ));
}

#[test]
fn a_duration_that_is_not_positive_is_refused_last() {
    let mut q = query("2021-2-21", Some("Europe/Oslo"));
    q.duration = 0;
    assert!(matches!(
        validate_bookingslots_query(&q),
        Err(BookingQueryError::InvalidDurationError)
    ));
    q.duration = -1;
    assert!(matches!(
        validate_bookingslots_query(&q),
        Err(BookingQueryError::InvalidDurationError)
    ));
    q.duration = 1;
    assert!(validate_bookingslots_query(&q).is_ok());
}

#[test]
fn day_bounds_become_a_window() {
    let date = "2021-2-21".to_string();
    let view = window_from_day_bounds(&date, Some(0), Some(24 * HOUR)).unwrap();
    assert_eq!((view.get_start(), view.get_end()), (0, 24 * HOUR));
    match window_from_day_bounds(&date, None, Some(24 * HOUR)) {
        Err(BookingQueryError::InvalidDateError(text)) => assert_eq!(text, "2021-2-21"),
        other => panic!("unexpected: {:?}", other),
    }
    assert!(matches!(
        window_from_day_bounds(&date, Some(0), None),
        Err(BookingQueryError::InvalidDateError(_))
    ));
    match window_from_day_bounds(&date, Some(7), Some(7 + HOUR - 1)) {
        Err(BookingQueryError::InvalidTimespanError(e)) => {
            assert_eq!(e, InvalidTimespanError(7, 7 + HOUR - 1))
        }
        other => panic!("unexpected: {:?}", other),
    }
    assert!(matches!(
        window_from_day_bounds(&date, Some(0), Some(41 * 24 * HOUR)),
        Err(BookingQueryError::InvalidTimespanError(_))
    ));
}

#[test]
fn a_day_without_midnight_is_no_valid_date() {
    // On this day the clocks of Sao Paulo went from 00:00 straight to 01:00.
    match validate_bookingslots_query(&query("2018-11-04", Some("America/Sao_Paulo"))) {
        Err(BookingQueryError::InvalidDateError(text)) => assert_eq!(text, "2018-11-04"),
        other => panic!("unexpected: {:?}", other),
    }
    // The day before ends at that midnight too.
    assert!(matches!(
        validate_bookingslots_query(&query("2018-11-03", Some("America/Sao_Paulo"))),
        Err(BookingQueryError::InvalidDateError(_))
    ));
    let view = validate_bookingslots_query(&query("2018-11-05", Some("America/Sao_Paulo"))).unwrap();
    assert_eq!(view.span(), 24 * HOUR);
}
