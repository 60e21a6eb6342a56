//! Days of the proleptic Gregorian calendar.

use vstd::prelude::*;

verus! {

/// Whether `year` has a 29th of February.
pub open spec fn is_leap(year: int) -> bool {
    year % 4 == 0 && (year % 100 != 0 || year % 400 == 0)
}

/// The leap years among the years 1 to `year`.
pub open spec fn leap_years_through(year: int) -> int {
    year / 4 - year / 100 + year / 400
}

/// The length of a month of `year`, months counted from 1.
pub open spec fn days_in_month(year: int, month: int) -> int {
    if month == 2 {
        if is_leap(year) {
            29
        } else {
            28
        }
    } else if month == 4 || month == 6 || month == 9 || month == 11 {
        30
    } else {
        31
    }
}

/// The days of `year` that come before the first of `month`.
pub open spec fn days_before_month(year: int, month: int) -> int
    decreases month,
{
    if month <= 1 {
        0
    } else {
        days_before_month(year, month - 1) + days_in_month(year, month - 1)
    }
}

/// The number of days from the first of January of the year 1 to a date.
pub open spec fn day_number(year: int, month: int, day: int) -> int {
    365 * (year - 1) + leap_years_through(year - 1) + days_before_month(year, month) + day - 1
}

/// The weekday of a date: Monday is 0 and Sunday is 6. The first of January of
/// the year 1 was a Monday.
pub open spec fn weekday(year: int, month: int, day: int) -> int {
    day_number(year, month, day) % 7
}

/// Whether the date exists in the calendar.
pub open spec fn is_date(year: int, month: int, day: int) -> bool {
    &&& 1 <= month <= 12
    &&& 1 <= day <= days_in_month(year, month)
}

/// The date that follows a date.
pub open spec fn next_date(year: int, month: int, day: int) -> (int, int, int) {
    if day < days_in_month(year, month) {
        (year, month, day + 1)
    } else if month < 12 {
        (year, month + 1, 1)
    } else {
        (year + 1, 1, 1)
    }
}

/// The days before a month, month by month: 59 days come before March in a
/// common year.
pub proof fn lemma_days_before_month(year: int, month: int)
    requires
        1 <= month <= 12,
    ensures
        days_before_month(year, month) == seq![
            0int,
            31,
            59,
            90,
            120,
            151,
            181,
            212,
            243,
            273,
            304,
            334,
        ][month - 1] + if month > 2 && is_leap(year) {
            1int
        } else {
            0
        },
    decreases month,
{
    if month > 1 {
        lemma_days_before_month(year, month - 1);
    }
}

/// One more leap year is counted exactly where the year is one.
pub proof fn lemma_leap_years_step(year: int)
    ensures
        leap_years_through(year) == leap_years_through(year - 1) + if is_leap(year) {
            1int
        } else {
            0
        },
{
    assert(year / 4 == (year - 1) / 4 + if year % 4 == 0 {
        1int
    } else {
        0
    });
    assert(year / 100 == (year - 1) / 100 + if year % 100 == 0 {
        1int
    } else {
        0
    });
    assert(year / 400 == (year - 1) / 400 + if year % 400 == 0 {
        1int
    } else {
        0
    });
    assert(year % 100 == 0 ==> year % 4 == 0);
    assert(year % 400 == 0 ==> year % 100 == 0);
}

/// Consecutive dates have consecutive day numbers, across the ends of months and
/// years too, and consecutive weekdays.
pub proof fn day_number_counts_dates(year: int, month: int, day: int)
    requires
        is_date(year, month, day),
    ensures
        ({
            let (y, m, d) = next_date(year, month, day);
            &&& is_date(y, m, d)
            &&& day_number(y, m, d) == day_number(year, month, day) + 1
            &&& weekday(y, m, d) == (weekday(year, month, day) + 1) % 7
        }),
{
    let (y, m, d) = next_date(year, month, day);
    let n = day_number(year, month, day);
    assert(day_number(y, m, d) == n + 1) by {
        if day < days_in_month(year, month) {
        } else if month < 12 {
            assert(days_before_month(year, month + 1) == days_before_month(year, month)
                + days_in_month(year, month));
        } else {
            lemma_leap_years_step(year);
            lemma_days_before_month(year, 12);
            assert(days_before_month(year + 1, 1) == 0);
        }
    }
    assert((n + 1) % 7 == (n % 7 + 1) % 7);
}

/// Sakamoto's offset of a month.
pub open spec fn month_offset(month: int) -> int {
    seq![0int, 3, 2, 5, 0, 3, 5, 1, 4, 6, 2, 4][month - 1]
}

/// Sakamoto's sum for a date: modulo 7 it is the weekday, Sunday being 0.
pub open spec fn sakamoto_sum(year: int, month: int, day: int) -> int {
    let y = if month < 3 {
        year - 1
    } else {
        year
    };
    y + leap_years_through(y) + month_offset(month) + day
}

proof fn lemma_sakamoto(year: int, month: int, day: int)
    requires
        1 <= month <= 12,
    ensures
        sakamoto_sum(year, month, day) % 7 == (weekday(year, month, day) + 1) % 7,
{
    lemma_leap_years_step(year);
    lemma_days_before_month(year, month);
    let n = day_number(year, month, day) + 1;
    let s = sakamoto_sum(year, month, day);
    let c = seq![0int, 4, 8, 12, 17, 21, 25, 30, 34, 38, 43, 47][month - 1];
    assert(n - s == 7 * (52 * (year - 1) + c));
}

/// Returns the day of the week of a date: Monday is 0, Sunday is 6.
///
/// The day need not lie in its month: days beyond the end of the month count on.
pub fn day_of_week(year: u32, month: u32, day: u32) -> (dow: u32)
    requires
        1 <= month <= 12,
        month < 3 ==> year >= 1,
        ({
            let y = if month < 3 {
                year - 1
            } else {
                year as int
            };
            y + y / 4 <= u32::MAX
        }),
        sakamoto_sum(year as int, month as int, day as int) <= u32::MAX,
    ensures
        dow == weekday(year as int, month as int, day as int),
        dow <= 6,
{
    let t: [u32; 12] = [0, 3, 2, 5, 0, 3, 5, 1, 4, 6, 2, 4];
    let y: u32 = if month < 3 {
        year - 1
    } else {
        year
    };
    proof {
        lemma_sakamoto(year as int, month as int, day as int);
    }
    let dow: u32 = (y + y / 4 - y / 100 + y / 400 + t[(month - 1) as usize] + day) % 7;
    if dow == 0 {
        6
    } else {
        dow - 1
    }
}

/// The days by years that start in March, in which the leap day comes last: 365 for a
/// year, the leap days, and 153 for five months.
pub proof fn days_by_years_from_march(year: int, month: int, day: int)
    requires
        1 <= month <= 12,
    ensures
        ({
            let y = if month <= 2 {
                year - 1
            } else {
                year
            };
            day_number(year, month, day) == 365 * y + y / 4 - y / 100 + y / 400 + (153 * (
            (month + 9) % 12) + 2) / 5 + day - 307
        }),
{
    lemma_leap_years_step(year);
    lemma_days_before_month(year, month);
}

/// The calendar repeats after 400 years, which are 146097 days and so whole weeks.
pub proof fn four_centuries_are_whole_weeks(year: int, month: int, day: int)
    requires
        1 <= month <= 12,
    ensures
        day_number(year + 400, month, day) == day_number(year, month, day) + 146097,
        weekday(year + 400, month, day) == weekday(year, month, day),
{
    lemma_leap_years_cycle(year - 1);
    lemma_days_before_month(year, month);
    lemma_days_before_month(year + 400, month);
    lemma_same_leap_years(year);
    lemma_whole_weeks(day_number(year, month, day), 20871);
}

/// Four centuries have 97 leap years.
proof fn lemma_leap_years_cycle(year: int)
    ensures
        leap_years_through(year + 400) == leap_years_through(year) + 97,
{
    assert((year + 400) / 4 == year / 4 + 100);
    assert((year + 400) / 100 == year / 100 + 4);
    assert((year + 400) / 400 == year / 400 + 1);
}

/// A year is a leap year if the one four centuries before it is.
proof fn lemma_same_leap_years(year: int)
    ensures
        is_leap(year + 400) == is_leap(year),
{
    assert((year + 400) % 4 == year % 4);
    assert((year + 400) % 100 == year % 100);
    assert((year + 400) % 400 == year % 400);
}

/// Whole weeks do not change the weekday.
proof fn lemma_whole_weeks(n: int, weeks: int)
    ensures
        (n + 7 * weeks) % 7 == n % 7,
{
}

/// A month has the days from its first to the first of the next, and a year is a leap
/// year exactly if a 29th of February comes before its March.
pub proof fn months_reach_to_the_next(year: int, month: int)
    requires
        1 <= month <= 12,
    ensures
        month < 12 ==> days_in_month(year, month) == day_number(year, month + 1, 1) - day_number(
            year,
            month,
            1,
        ),
        days_in_month(year, 12) == day_number(year + 1, 1, 1) - day_number(year, 12, 1),
        is_leap(year) <==> day_number(year, 3, 1) - day_number(year, 2, 1) == 29,
{
    lemma_leap_years_step(year);
    lemma_days_before_month(year, 12);
    lemma_days_before_month(year, 3);
    lemma_days_before_month(year, 2);
    assert(days_before_month(year + 1, 1) == 0);
    if month < 12 {
        assert(days_before_month(year, month + 1) == days_before_month(year, month)
            + days_in_month(year, month));
    }
}

/// The weekday of a date by years that start in March: Monday is 0, and the first of
/// March of the year 0 was a Wednesday.
pub proof fn day_of_week_by_years_from_march(year: u32, month: u32, day: u32, dow: u32)
    requires
        1 <= month <= 12,
        call_ensures(day_of_week, (year, month, day), dow),
    ensures
        ({
            let y = if month <= 2 {
                year - 1
            } else {
                year as int
            };
            dow == (365 * y + y / 4 - y / 100 + y / 400 + (153 * ((month + 9) % 12) + 2) / 5 + day
                - 307) % 7
        }),
{
    days_by_years_from_march(year as int, month as int, day as int);
}

/// Weekdays follow one another with the days of a month, and a date falls on the same
/// one four centuries on.
pub proof fn weekdays_follow_one_another(
    year: u32,
    month: u32,
    day: u32,
    dow: u32,
    next: u32,
    later: u32,
)
    requires
        1 <= month <= 12,
        day < u32::MAX,
        year <= u32::MAX - 400,
        call_ensures(day_of_week, (year, month, day), dow),
        call_ensures(day_of_week, (year, month, (day + 1) as u32), next),
        call_ensures(day_of_week, ((year + 400) as u32, month, day), later),
    ensures
        dow < 7,
        next == if dow == 6 {
            0
        } else {
            dow + 1
        },
        later == dow,
{
    four_centuries_are_whole_weeks(year as int, month as int, day as int);
    let n = day_number(year as int, month as int, day as int);
    assert(day_number(year as int, month as int, day + 1) == n + 1);
    assert((n + 1) % 7 == if n % 7 == 6 {
        0
    } else {
        n % 7 + 1
    });
}

/// Every date of a year from 1 to a thousand million has a weekday.
pub proof fn day_of_week_takes_dates(year: u32, month: u32, day: u32)
    requires
        1 <= year <= 1000000000,
        1 <= month <= 12,
        day <= 1000000000,
    ensures
        call_requires(day_of_week, (year, month, day)),
{
}

} // verus!
