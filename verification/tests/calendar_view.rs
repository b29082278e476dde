use nettu_scheduler::calendar_view::{CalendarView, InvalidTimespanError};

const HOUR: i64 = 1000 * 60 * 60;
const DAY: i64 = 24 * HOUR;

#[test]
fn accepts_spans_between_one_hour_and_forty_days() {
    let view = CalendarView::create(0, HOUR).unwrap();
    assert_eq!(view.get_start(), 0);
    assert_eq!(view.get_end(), HOUR);
    assert_eq!(view.span(), HOUR);
    let view = CalendarView::create(10, 10 + 40 * DAY).unwrap();
    assert_eq!(view.span(), 40 * DAY);
}

#[test]
fn rejects_spans_out_of_range() {
    assert_eq!(CalendarView::create(0, HOUR - 1).unwrap_err(), InvalidTimespanError(0, HOUR - 1));
    assert_eq!(
        CalendarView::create(0, 40 * DAY + 1).unwrap_err(),
        InvalidTimespanError(0, 40 * DAY + 1)
    );
    assert!(CalendarView::create(5, 5).is_err());
    assert!(CalendarView::create(HOUR, 0).is_err());
    assert!(CalendarView::create(i64::MIN, i64::MAX).is_err());
}
