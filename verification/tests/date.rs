use nettu_scheduler::date::{is_valid_date, month_length, next_day};

#[test]
fn reads_dates_with_and_without_leading_zeros() {
    assert_eq!(is_valid_date("2020-1-1"), Some((2020, 1, 1)));
    assert_eq!(is_valid_date("2020-01-01"), Some((2020, 1, 1)));
    assert_eq!(is_valid_date("2021-12-31"), Some((2021, 12, 31)));
    assert_eq!(is_valid_date("0002021-0012-0031"), Some((2021, 12, 31)));
    assert_eq!(is_valid_date("1970-1-1"), Some((1970, 1, 1)));
    assert_eq!(is_valid_date("2100-12-31"), Some((2100, 12, 31)));
}

#[test]
fn knows_leap_years() {
    assert_eq!(is_valid_date("2020-2-29"), Some((2020, 2, 29)));
    assert_eq!(is_valid_date("2000-2-29"), Some((2000, 2, 29)));
    assert_eq!(is_valid_date("2021-2-29"), None);
    assert_eq!(is_valid_date("2100-2-29"), None);
    assert_eq!(month_length(2020, 2), 29);
    assert_eq!(month_length(2021, 2), 28);
    assert_eq!(month_length(2100, 2), 28);
    assert_eq!(month_length(2000, 2), 29);
    assert_eq!(month_length(2021, 4), 30);
    assert_eq!(month_length(2021, 12), 31);
}

#[test]
fn refuses_days_that_are_not_on_the_calendar() {
    assert_eq!(is_valid_date("1969-12-31"), None);
    assert_eq!(is_valid_date("2101-1-1"), None);
    assert_eq!(is_valid_date("2020-13-1"), None);
    assert_eq!(is_valid_date("2020-0-1"), None);
    assert_eq!(is_valid_date("2020-4-31"), None);
    assert_eq!(is_valid_date("2020-4-0"), None);
    assert_eq!(is_valid_date("2020-1-32"), None);
    assert_eq!(is_valid_date("99999999999999999999-1-1"), None);
    assert_eq!(is_valid_date("2020-1-99999999999999999999"), None);
}

#[test]
fn refuses_texts_that_are_no_dates() {
    assert_eq!(is_valid_date(""), None);
    assert_eq!(is_valid_date("2020"), None);
    assert_eq!(is_valid_date("2020-1"), None);
    assert_eq!(is_valid_date("2020-1-"), None);
    assert_eq!(is_valid_date("-2020-1-1"), None);
    assert_eq!(is_valid_date("2020--1"), None);
    assert_eq!(is_valid_date("2020-1-1-1"), None);
    assert_eq!(is_valid_date("2020-1-1 "), None);
    assert_eq!(is_valid_date("a-b-c"), None);
    assert_eq!(is_valid_date("2020/1/1"), None);
    assert_eq!(is_valid_date("+2020-1-1"), None);
    assert_eq!(is_valid_date("2020-1-1é"), None);
}

#[test]
fn next_day_rolls_over_months_and_years() {
    assert_eq!(next_day(2021, 2, 21), (2021, 2, 22));
    assert_eq!(next_day(2021, 2, 28), (2021, 3, 1));
    assert_eq!(next_day(2020, 2, 28), (2020, 2, 29));
    assert_eq!(next_day(2020, 2, 29), (2020, 3, 1));
    assert_eq!(next_day(2021, 12, 31), (2022, 1, 1));
    assert_eq!(next_day(2100, 12, 31), (2101, 1, 1));
}
