//! Calendar days written as `YYYY-MM-DD`.
//!
//! A date is three runs of decimal digits separated by single dashes. Leading
//! zeros are accepted, so `2020-1-1` and `2020-01-01` name the same day.

use vstd::prelude::*;
use vstd::string::StrSliceExecFns;

verus! {

/// First year whose days can be booked.
pub const MIN_YEAR: i32 = 1970;

/// Last year whose days can be booked.
pub const MAX_YEAR: i32 = 2100;

/// One of the characters `0` to `9`.
pub open spec fn is_digit(c: char) -> bool {
    '0' <= c && c <= '9'
}

/// The number that a digit stands for.
pub open spec fn digit_value(c: char) -> int {
    c as int - '0' as int
}

/// The positions `lo..hi` of `s` hold at least one character, all of them digits.
pub open spec fn digits_between(s: Seq<char>, lo: int, hi: int) -> bool {
    &&& 0 <= lo < hi <= s.len()
    &&& forall|k: int| lo <= k < hi ==> is_digit(#[trigger] s[k])
}

/// The number that the digits at positions `lo..hi` of `s` spell in base ten.
pub open spec fn decimal_between(s: Seq<char>, lo: int, hi: int) -> int
    decreases hi - lo,
{
    if hi <= lo {
        0
    } else {
        decimal_between(s, lo, hi - 1) * 10 + digit_value(s[hi - 1])
    }
}

/// The dashes of `s` stand at `first_dash` and `second_dash`, with digits and nothing else around them.
pub open spec fn date_layout(s: Seq<char>, first_dash: int, second_dash: int) -> bool {
    &&& digits_between(s, 0, first_dash)
    &&& digits_between(s, first_dash + 1, second_dash)
    &&& digits_between(s, second_dash + 1, s.len() as int)
    &&& s[first_dash] == '-'
    &&& s[second_dash] == '-'
}

/// The three numbers of a text laid out as a date, in the order year, month,
/// day; nothing for any other text.
pub open spec fn date_fields(s: Seq<char>) -> Option<(int, int, int)> {
    if exists|first_dash: int, second_dash: int| date_layout(s, first_dash, second_dash) {
        let (first_dash, second_dash) = choose|first_dash: int, second_dash: int| date_layout(s, first_dash, second_dash);
        Some(
            (
                decimal_between(s, 0, first_dash),
                decimal_between(s, first_dash + 1, second_dash),
                decimal_between(s, second_dash + 1, s.len() as int),
            ),
        )
    } else {
        None
    }
}

/// A leap year of the Gregorian calendar.
pub open spec fn is_leap_year(year: int) -> bool {
    year % 400 == 0 || (year % 100 != 0 && year % 4 == 0)
}

/// The number of days of a month.
pub open spec fn days_in_month(year: int, month: int) -> int {
    if month == 2 {
        if is_leap_year(year) {
            29
        } else {
            28
        }
    } else if month == 4 || month == 6 || month == 9 || month == 11 {
        30
    } else {
        31
    }
}

/// A day of the Gregorian calendar between the years 1970 and 2100.
pub open spec fn valid_date(year: int, month: int, day: int) -> bool {
    &&& MIN_YEAR <= year <= MAX_YEAR
    &&& 1 <= month <= 12
    &&& 1 <= day <= days_in_month(year, month)
}

/// The calendar day that a text names, if it names one.
pub open spec fn parsed_date(s: Seq<char>) -> Option<(int, int, int)> {
    match date_fields(s) {
        Some((year, month, day)) => if valid_date(year, month, day) {
            Some((year, month, day))
        } else {
            None
        },
        None => None,
    }
}

/// The calendar day after a given one.
pub open spec fn day_after(year: int, month: int, day: int) -> (int, int, int) {
    if day < days_in_month(year, month) {
        (year, month, day + 1)
    } else if month < 12 {
        (year, month + 1, 1)
    } else {
        (year + 1, 1, 1)
    }
}

/// The number of days of a month of a year.
pub fn month_length(year: i32, month: u32) -> (len: u32)
    ensures
        len == days_in_month(year as int, month as int),
{
    if month == 2 {
        if year % 400 == 0 || (year % 100 != 0 && year % 4 == 0) {
            29
        } else {
            28
        }
    } else if month == 4 || month == 6 || month == 9 || month == 11 {
        30
    } else {
        31
    }
}

/// The day after a valid calendar day.
pub fn next_day(year: i32, month: u32, day: u32) -> (next: (i32, u32, u32))
    requires
        valid_date(year as int, month as int, day as int),
    ensures
        (next.0 as int, next.1 as int, next.2 as int) == day_after(
            year as int,
            month as int,
            day as int,
        ),
{
    if day < month_length(year, month) {
        (year, month, day + 1)
    } else if month < 12 {
        (year, month + 1, 1)
    } else {
        (year + 1, 1, 1)
    }
}

/// Largest number the scanner tells apart; every field of a valid date is smaller.
const FIELD_CAP: u32 = 100_000;

spec fn capped(v: int) -> int {
    if v > FIELD_CAP {
        FIELD_CAP as int
    } else {
        v
    }
}

proof fn lemma_decimal_nonnegative(s: Seq<char>, lo: int, hi: int)
    requires
        forall|k: int| lo <= k < hi ==> is_digit(#[trigger] s[k]),
    ensures
        decimal_between(s, lo, hi) >= 0,
    decreases hi - lo,
{
    if hi > lo {
        lemma_decimal_nonnegative(s, lo, hi - 1);
        assert(is_digit(s[hi - 1]));
    }
}

/// Reads a date written as year, month and day in decimal digits with a
/// dash between them, and checks that it is a day of the calendar between
/// 1970 and 2100.
pub fn is_valid_date(datestr: &str) -> (r: Option<(i32, u32, u32)>)
    ensures
        match r {
            Some((year, month, day)) => parsed_date(datestr@) == Some(
                (year as int, month as int, day as int),
            ),
            None => parsed_date(datestr@) is None,
        },
{
    let n: usize = datestr.unicode_len();
    let ghost s = datestr@;
    let mut i: usize = 0;
    let mut part: u8 = 0;
    let mut start: usize = 0;
    let mut acc: u32 = 0;
    let mut first: u32 = 0;
    let mut second: u32 = 0;
    let ghost mut first_dash: int = 0;
    let ghost mut second_dash: int = 0;
    while i < n
        invariant
            s == datestr@,
            n == s.len(),
            start <= i <= n,
            part <= 2,
            acc <= FIELD_CAP,
            first <= FIELD_CAP,
            second <= FIELD_CAP,
            forall|k: int| start <= k < i ==> is_digit(#[trigger] s[k]),
            acc == capped(decimal_between(s, start as int, i as int)),
            part == 0 ==> start == 0,
            part >= 1 ==> digits_between(s, 0, first_dash) && s[first_dash] == '-' && first == capped(
                decimal_between(s, 0, first_dash),
            ),
            part == 1 ==> start == first_dash + 1,
            part == 2 ==> digits_between(s, first_dash + 1, second_dash) && s[second_dash] == '-' && start == second_dash + 1
                && second == capped(decimal_between(s, first_dash + 1, second_dash)),
        decreases n - i,
    {
        let c: char = datestr.get_char(i);
        if c >= '0' && c <= '9' {
            let d: u32 = (c as u32) - ('0' as u32);
            proof {
                lemma_decimal_nonnegative(s, start as int, i as int);
                assert(decimal_between(s, start as int, i as int + 1) == decimal_between(
                    s,
                    start as int,
                    i as int,
                ) * 10 + digit_value(s[i as int]));
            }
            acc = if acc >= 10_000 {
                FIELD_CAP
            } else {
                acc * 10 + d
            };
            i = i + 1;
        } else if c == '-' && part < 2 && i > start {
            if part == 0 {
                first = acc;
                proof {
                    first_dash = i as int;
                }
            } else {
                second = acc;
                proof {
                    second_dash = i as int;
                }
            }
            part = part + 1;
            i = i + 1;
            start = i;
            acc = 0;
        } else {
            proof {
                assert(s[i as int] == c);
                assert forall|dash_a: int, dash_b: int| !date_layout(s, dash_a, dash_b) by {
                    if date_layout(s, dash_a, dash_b) {
                        let k = i as int;
                        assert(k == dash_a || k == dash_b || is_digit(s[k]));
                        if part >= 1 {
                            assert(first_dash == dash_a || first_dash == dash_b || is_digit(s[first_dash]));
                        }
                        if part == 2 {
                            assert(second_dash == dash_a || second_dash == dash_b || is_digit(s[second_dash]));
                        }
                        if i > 0 {
                            assert(k - 1 == dash_a || k - 1 == dash_b || is_digit(s[k - 1]));
                        }
                    }
                }
            }
            return None;
        }
    }
    if part < 2 || start == n {
        proof {
            assert forall|dash_a: int, dash_b: int| !date_layout(s, dash_a, dash_b) by {
                if date_layout(s, dash_a, dash_b) {
                    assert(s[dash_a] == '-' && s[dash_b] == '-');
                    assert(!is_digit(s[dash_a]) && !is_digit(s[dash_b]));
                    if part >= 1 {
                        assert(first_dash == dash_a || first_dash == dash_b || is_digit(s[first_dash]));
                    }
                    if part == 2 {
                        assert(second_dash == dash_a || second_dash == dash_b || is_digit(s[second_dash]));
                    }
                }
            }
        }
        return None;
    }
    proof {
        assert(date_layout(s, first_dash, second_dash));
        let (dash_a, dash_b) = choose|dash_a: int, dash_b: int| date_layout(s, dash_a, dash_b);
        assert(date_layout(s, dash_a, dash_b));
        assert(!is_digit(s[dash_a]) && !is_digit(s[dash_b]));
        assert(first_dash == dash_a || first_dash == dash_b || is_digit(s[first_dash]));
        assert(second_dash == dash_a || second_dash == dash_b || is_digit(s[second_dash]));
        assert(dash_a == first_dash && dash_b == second_dash);
        lemma_decimal_nonnegative(s, 0, first_dash);
        lemma_decimal_nonnegative(s, first_dash + 1, second_dash);
        lemma_decimal_nonnegative(s, second_dash + 1, n as int);
    }
    let year: u32 = first;
    let month: u32 = second;
    let day: u32 = acc;
    if year < 1970 || year > 2100 || month < 1 || month > 12 {
        return None;
    }
    if day < 1 || day > month_length(year as i32, month) {
        return None;
    }
    Some((year as i32, month, day))
}

} // verus!
