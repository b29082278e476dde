use nettu_scheduler::calendar_view::{CalendarView, InvalidTimespanError};
use nettu_scheduler::decimal::append_decimal;
use nettu_scheduler::timezone::LocalDateTime;

fn text_of(n: i64) -> String {
    let mut text = String::new();
    append_decimal(&mut text, n);
    text
}

#[test]
fn numbers_are_written_in_decimal() {
    for n in [0, 7, 10, 42, 100, 1613865600000, -1, -10, -999, i64::MAX, i64::MIN, i64::MIN + 1] {
        assert_eq!(text_of(n), format!("{}", n));
    }
    let mut text = "n = ".to_string();
    append_decimal(&mut text, -305);
    assert_eq!(text, "n = -305");
}

#[test]
fn the_timespan_error_names_the_bounds() {
    assert_eq!(
        InvalidTimespanError(5, -20).message(),
        "Provided timespan start_ts: 5 and end_ts: -20 is invalid. It should be between 1 hour and 40 days."
    );
}

#[test]
fn a_view_shows_its_ends_on_local_clocks() {
    let view = CalendarView::create(1613862000000, 1613862000000 + 24 * 3_600_000 + 1_001).unwrap();
    let shown = view.as_datetime("Europe/Oslo").unwrap();
    assert_eq!(
        shown.start,
        LocalDateTime { year: 2021, month: 2, day: 21, hour: 0, minute: 0, second: 0, millisecond: 0 }
    );
    assert_eq!(
        shown.end,
        LocalDateTime { year: 2021, month: 2, day: 22, hour: 0, minute: 0, second: 1, millisecond: 1 }
    );
    let shown = view.as_datetime("UTC").unwrap();
    assert_eq!(
        shown.start,
        LocalDateTime { year: 2021, month: 2, day: 20, hour: 23, minute: 0, second: 0, millisecond: 0 }
    );
    assert!(view.as_datetime("Not/AZone").is_none());
}
