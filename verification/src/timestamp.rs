//! Timestamps in the form `2026-03-11T20:23:35Z` or `2026-03-11T20:23:35-03:00`.
//!
//! Fields are read at fixed places; what separates them is not looked at. The hour
//! and the weekday are those in UTC, so an offset counts for them. The scale of
//! seconds is for timestamps in UTC and does not look at what follows the seconds.

use crate::calendar::{
    day_number, day_of_week, days_before_month, days_by_years_from_march, leap_years_through,
    lemma_days_before_month, lemma_leap_years_step, weekday,
};
use crate::decimal::{decimal_value, no_byte_below_zero, parse_u32};
use vstd::prelude::*;
use vstd::utf8::encode_utf8;

verus! {

/// The UTF-8 bytes of a text.
pub open spec fn text_bytes(s: &str) -> Seq<u8> {
    encode_utf8(s@)
}

/// The number in the bytes from `i` up to `j`.
pub open spec fn field(text: Seq<u8>, i: int, j: int) -> int {
    decimal_value(text.subrange(i, j))
}

pub open spec fn year_of(text: Seq<u8>) -> int {
    field(text, 0, 4)
}

pub open spec fn month_of(text: Seq<u8>) -> int {
    field(text, 5, 7)
}

pub open spec fn day_of(text: Seq<u8>) -> int {
    field(text, 8, 10)
}

pub open spec fn hour_of(text: Seq<u8>) -> int {
    field(text, 11, 13)
}

pub open spec fn minute_of(text: Seq<u8>) -> int {
    field(text, 14, 16)
}

pub open spec fn second_of(text: Seq<u8>) -> int {
    field(text, 17, 19)
}

/// The fields up to the hour can be read.
pub open spec fn has_date_and_hour(text: Seq<u8>) -> bool {
    &&& text.len() >= 13
    &&& no_byte_below_zero(text.subrange(0, 4))
    &&& no_byte_below_zero(text.subrange(5, 7))
    &&& no_byte_below_zero(text.subrange(8, 10))
    &&& no_byte_below_zero(text.subrange(11, 13))
}

/// Whether an offset from UTC, such as `-03:00`, follows the seconds.
pub open spec fn has_offset(text: Seq<u8>) -> bool {
    &&& text.len() >= 25
    &&& text[19] == '+' as u8 || text[19] == '-' as u8
}

/// The minutes that the time of the text is ahead of UTC.
pub open spec fn offset_minutes(text: Seq<u8>) -> int {
    if !has_offset(text) {
        0
    } else if text[19] == '-' as u8 {
        -(field(text, 20, 22) * 60 + field(text, 23, 25))
    } else {
        field(text, 20, 22) * 60 + field(text, 23, 25)
    }
}

/// The minutes from the start of the year 1 to the time of the text, in UTC.
pub open spec fn utc_minutes(text: Seq<u8>) -> int {
    day_number(year_of(text), month_of(text), day_of(text)) * 1440 + hour_of(text) * 60
        + minute_of(text) - offset_minutes(text)
}

/// The hour in UTC. Without an offset the text is in UTC and its hour is taken as it
/// stands.
pub open spec fn utc_hour(text: Seq<u8>) -> int {
    if has_offset(text) {
        utc_minutes(text) / 60 % 24
    } else {
        hour_of(text)
    }
}

/// The weekday in UTC, Monday being 0. Without an offset it is that of the date.
pub open spec fn utc_weekday(text: Seq<u8>) -> int {
    if has_offset(text) {
        utc_minutes(text) / 1440 % 7
    } else {
        weekday(year_of(text), month_of(text), day_of(text))
    }
}

/// The text has a weekday and an hour: the fields can be read, the minute and the
/// offset among them where there is an offset, the month exists, and January and
/// February have a year before them.
pub open spec fn is_datetime(text: Seq<u8>) -> bool {
    &&& has_date_and_hour(text)
    &&& 1 <= month_of(text) <= 12
    &&& month_of(text) < 3 ==> year_of(text) >= 1
    &&& has_offset(text) ==> {
        &&& no_byte_below_zero(text.subrange(14, 16))
        &&& no_byte_below_zero(text.subrange(20, 22))
        &&& no_byte_below_zero(text.subrange(23, 25))
    }
}

/// The text has a place on the scale of seconds: all fields can be read and the
/// month is at most 12.
pub open spec fn is_timestamp(text: Seq<u8>) -> bool {
    &&& text.len() >= 19
    &&& has_date_and_hour(text)
    &&& no_byte_below_zero(text.subrange(14, 16))
    &&& no_byte_below_zero(text.subrange(17, 19))
    &&& month_of(text) <= 12
}

/// Four digits stand for less than a million, whatever bytes they are.
proof fn lemma_decimal_bound(digits: Seq<u8>)
    requires
        no_byte_below_zero(digits),
        digits.len() <= 4,
    ensures
        0 <= decimal_value(digits) <= 229977,
        digits.len() <= 2 ==> decimal_value(digits) <= 2277,
{
    reveal_with_fuel(decimal_value, 5);
}

/// Reads the digits from `i` up to `j`, of which there are at most four.
fn parse_field(text: &[u8], i: usize, j: usize) -> (n: u32)
    requires
        i <= j <= text@.len(),
        j - i <= 4,
        no_byte_below_zero(text@.subrange(i as int, j as int)),
    ensures
        n == field(text@, i as int, j as int),
        n <= 229977,
        j - i <= 2 ==> n <= 2277,
{
    proof {
        lemma_decimal_bound(text@.subrange(i as int, j as int));
    }
    parse_u32(&text[i..j])
}

/// Whether an offset from UTC follows the seconds.
fn offset_follows(text: &[u8]) -> (follows: bool)
    ensures
        follows == has_offset(text@),
{
    text.len() >= 25 && (text[19] == '+' as u8 || text[19] == '-' as u8)
}

/// Minutes counted from the start of a day give the hour and the days to add to the
/// weekday, and twenty weeks on top change neither.
proof fn lemma_twenty_weeks(days: int, of_day: int)
    ensures
        (days * 1440 + of_day) / 60 % 24 == (of_day + 201600) / 60 % 24,
        (days * 1440 + of_day) / 1440 % 7 == (days % 7 + (of_day + 201600) / 1440) % 7,
{
    let hours = of_day / 60;
    assert((days * 1440 + of_day) / 60 == days * 24 + hours);
    assert((of_day + 201600) / 60 == hours + 3360);
    assert((days * 24 + hours) % 24 == hours % 24);
    assert((hours + 3360) % 24 == hours % 24);
    let more = of_day / 1440;
    assert((days * 1440 + of_day) / 1440 == days + more);
    assert((of_day + 201600) / 1440 == more + 140);
    assert((days % 7 + more + 140) % 7 == (days + more) % 7);
}

/// Extracts the hour and the weekday, Monday being 0, from a timestamp, both in UTC.
pub fn parse_datetime(s: &str) -> (r: (u32, u32))
    requires
        is_datetime(text_bytes(s)),
    ensures
        r.0 == utc_hour(text_bytes(s)),
        r.1 == utc_weekday(text_bytes(s)),
{
    let bytes: &[u8] = s.as_bytes();
    let year: u32 = parse_field(bytes, 0, 4);
    let month: u32 = parse_field(bytes, 5, 7);
    let day: u32 = parse_field(bytes, 8, 10);
    let hour: u32 = parse_field(bytes, 11, 13);
    let dow: u32 = day_of_week(year, month, day);
    if !offset_follows(bytes) {
        return (hour, dow);
    }
    let minute: u32 = parse_field(bytes, 14, 16);
    let offset: u32 = parse_field(bytes, 20, 22) * 60 + parse_field(bytes, 23, 25);
    // Twenty weeks on top keep the sum above 0 and change neither hour nor weekday.
    let local: u32 = 201600 + hour * 60 + minute;
    let utc: u32 = if bytes[19] == '-' as u8 {
        local + offset
    } else {
        local - offset
    };
    proof {
        let days = day_number(year as int, month as int, day as int);
        let of_day = utc - 201600;
        assert(utc_minutes(bytes@) == days * 1440 + of_day);
        lemma_twenty_weeks(days, of_day);
    }
    (utc / 60 % 24, (dow + utc / 1440) % 7)
}

/// The days that stand for a date on the scale of seconds: 365 for every year, one
/// for every leap year before this one, the days of the year before the month, and
/// the day.
pub open spec fn scale_days(year: int, month: int, day: int) -> int {
    365 * year + leap_years_through(year - 1) + days_before_month(year, month) + day
}

/// The place of a timestamp on the scale of seconds.
pub open spec fn timestamp_seconds(text: Seq<u8>) -> int {
    scale_days(year_of(text), month_of(text), day_of(text)) * 86400 + hour_of(text) * 3600
        + minute_of(text) * 60 + second_of(text)
}

/// Reads a timestamp in UTC as a number of seconds.
pub fn parse_timestamp_seconds(s: &str) -> (seconds: i64)
    requires
        is_timestamp(text_bytes(s)),
    ensures
        seconds == timestamp_seconds(text_bytes(s)),
        -86400 <= seconds < 0x1_0000_0000_0000,
{
    let bytes: &[u8] = s.as_bytes();
    let year: i64 = parse_field(bytes, 0, 4) as i64;
    let month: i64 = parse_field(bytes, 5, 7) as i64;
    let day: i64 = parse_field(bytes, 8, 10) as i64;
    let hour: i64 = parse_field(bytes, 11, 13) as i64;
    let min: i64 = parse_field(bytes, 14, 16) as i64;
    let sec: i64 = parse_field(bytes, 17, 19) as i64;

    let days_in_months: [i64; 12] = [0, 31, 28, 31, 30, 31, 30, 31, 31, 30, 31, 30];
    let base: i64 = 365 * year + year / 4 - year / 100 + year / 400;
    let mut total_days: i64 = base;
    let mut m: i64 = 0;
    while m < month
        invariant
            0 <= m <= month <= 12,
            days_in_months@ == seq![0i64, 31, 28, 31, 30, 31, 30, 31, 31, 30, 31, 30],
            0 <= base <= 100000000,
            0 <= total_days - base <= 31 * m,
            total_days == base + days_before_month(1, m as int),
        decreases month - m,
    {
        total_days += days_in_months[m as usize];
        m += 1;
    }
    // The leap day of a leap year is counted already, but comes only after February.
    if month <= 2 && (year % 4 == 0 && (year % 100 != 0 || year % 400 == 0)) {
        total_days -= 1;
    }
    total_days += day;
    proof {
        lemma_leap_years_step(year as int);
        if month >= 1 {
            lemma_days_before_month(year as int, month as int);
            lemma_days_before_month(1, month as int);
        }
    }
    total_days * 86400 + hour * 3600 + min * 60 + sec
}

/// The seconds between two places on the scale.
pub open spec fn seconds_apart(a: Seq<u8>, b: Seq<u8>) -> int {
    if timestamp_seconds(b) > timestamp_seconds(a) {
        timestamp_seconds(b) - timestamp_seconds(a)
    } else {
        timestamp_seconds(a) - timestamp_seconds(b)
    }
}

/// The seconds between two timestamps in UTC, whichever comes first.
pub fn seconds_between(earlier: &str, later: &str) -> (diff: i64)
    requires
        is_timestamp(text_bytes(earlier)),
        is_timestamp(text_bytes(later)),
    ensures
        diff == seconds_apart(text_bytes(earlier), text_bytes(later)),
{
    let ts1: i64 = parse_timestamp_seconds(earlier);
    let ts2: i64 = parse_timestamp_seconds(later);
    if ts2 > ts1 {
        ts2 - ts1
    } else {
        ts1 - ts2
    }
}

/// Whether no byte from `i` up to `j` stands before the digit 0.
fn field_is_readable(text: &[u8], i: usize, j: usize) -> (readable: bool)
    requires
        i <= j <= text@.len(),
    ensures
        readable == no_byte_below_zero(text@.subrange(i as int, j as int)),
{
    let ghost digits = text@.subrange(i as int, j as int);
    let mut k: usize = i;
    while k < j
        invariant
            i <= k <= j <= text@.len(),
            digits == text@.subrange(i as int, j as int),
            forall|m: int| 0 <= m < k - i ==> #[trigger] digits[m] >= 48,
        decreases j - k,
    {
        assert(digits[k - i] == text@[k as int]);
        if text[k] < 48 {
            return false;
        }
        k += 1;
    }
    true
}

/// Whether the fields up to the hour can be read.
fn date_and_hour_are_readable(text: &[u8]) -> (readable: bool)
    ensures
        readable == has_date_and_hour(text@),
{
    text.len() >= 13 && field_is_readable(text, 0, 4) && field_is_readable(text, 5, 7)
        && field_is_readable(text, 8, 10) && field_is_readable(text, 11, 13)
}

/// Whether `parse_datetime` can read the text.
pub fn datetime_is_readable(s: &str) -> (readable: bool)
    ensures
        readable == is_datetime(text_bytes(s)),
{
    let text: &[u8] = s.as_bytes();
    if !date_and_hour_are_readable(text) {
        return false;
    }
    let month: u32 = parse_field(text, 5, 7);
    1 <= month && month <= 12 && (month >= 3 || parse_field(text, 0, 4) >= 1) && (!offset_follows(
        text,
    ) || field_is_readable(text, 14, 16) && field_is_readable(text, 20, 22) && field_is_readable(
        text,
        23,
        25,
    ))
}

/// Whether `parse_timestamp_seconds` can read the text.
pub fn timestamp_is_readable(s: &str) -> (readable: bool)
    ensures
        readable == is_timestamp(text_bytes(s)),
{
    let text: &[u8] = s.as_bytes();
    text.len() >= 19 && date_and_hour_are_readable(text) && field_is_readable(text, 14, 16)
        && field_is_readable(text, 17, 19) && parse_field(text, 5, 7) <= 12
}

/// The seconds from the start of the year 1 to a timestamp, by the calendar.
pub open spec fn calendar_seconds(text: Seq<u8>) -> int {
    day_number(year_of(text), month_of(text), day_of(text)) * 86400 + hour_of(text) * 3600
        + minute_of(text) * 60 + second_of(text)
}

/// The scale measures time by the calendar: the seconds between two timestamps on it
/// are those between their dates and times, across the ends of years too.
pub proof fn scale_measures_calendar_time(a: Seq<u8>, b: Seq<u8>)
    requires
        is_timestamp(a),
        is_timestamp(b),
    ensures
        timestamp_seconds(b) - timestamp_seconds(a) == calendar_seconds(b) - calendar_seconds(a),
{
}

/// The hour and the weekday are those of the instant in UTC: texts with a time of day
/// that exists and with one instant have one hour and one weekday, whatever their
/// offsets, and these are what the minutes in UTC give.
pub proof fn one_instant_has_one_hour_and_weekday(a: Seq<u8>, b: Seq<u8>)
    requires
        is_datetime(a),
        is_datetime(b),
        0 <= hour_of(a) < 24,
        0 <= hour_of(b) < 24,
        0 <= minute_of(a) < 60,
        0 <= minute_of(b) < 60,
        utc_minutes(a) == utc_minutes(b),
    ensures
        utc_hour(a) == utc_hour(b) == utc_minutes(a) / 60 % 24,
        utc_weekday(a) == utc_weekday(b) == utc_minutes(a) / 1440 % 7,
{
    lemma_utc_of_day(a);
    lemma_utc_of_day(b);
}

proof fn lemma_utc_of_day(text: Seq<u8>)
    requires
        0 <= hour_of(text) < 24,
        0 <= minute_of(text) < 60,
    ensures
        utc_hour(text) == utc_minutes(text) / 60 % 24,
        utc_weekday(text) == utc_minutes(text) / 1440 % 7,
{
    if !has_offset(text) {
        let days = day_number(year_of(text), month_of(text), day_of(text));
        let of_day = hour_of(text) * 60 + minute_of(text);
        assert(0 <= of_day < 1440);
        assert((days * 1440 + of_day) / 60 % 24 == of_day / 60);
        assert((days * 1440 + of_day) / 1440 == days);
    }
}

/// A field of two digits.
proof fn lemma_two_digits(text: Seq<u8>, i: int)
    requires
        0 <= i,
        i + 2 <= text.len(),
    ensures
        field(text, i, i + 2) == (text[i] - 48) * 10 + (text[i + 1] - 48),
{
    reveal_with_fuel(decimal_value, 3);
}

/// A field of four digits.
proof fn lemma_four_digits(text: Seq<u8>)
    requires
        text.len() >= 4,
    ensures
        field(text, 0, 4) == (text[0] - 48) * 1000 + (text[1] - 48) * 100 + (text[2] - 48) * 10 + (
        text[3] - 48),
{
    reveal_with_fuel(decimal_value, 5);
}

/// The fields of a timestamp, by its digits.
proof fn lemma_fields(text: Seq<u8>)
    requires
        text.len() >= 13,
    ensures
        year_of(text) == (text[0] - 48) * 1000 + (text[1] - 48) * 100 + (text[2] - 48) * 10 + (
        text[3] - 48),
        month_of(text) == (text[5] - 48) * 10 + (text[6] - 48),
        day_of(text) == (text[8] - 48) * 10 + (text[9] - 48),
        hour_of(text) == (text[11] - 48) * 10 + (text[12] - 48),
        text.len() >= 19 ==> minute_of(text) == (text[14] - 48) * 10 + (text[15] - 48),
        text.len() >= 19 ==> second_of(text) == (text[17] - 48) * 10 + (text[18] - 48),
{
    lemma_four_digits(text);
    lemma_two_digits(text, 5);
    lemma_two_digits(text, 8);
    lemma_two_digits(text, 11);
    if text.len() >= 19 {
        lemma_two_digits(text, 14);
        lemma_two_digits(text, 17);
    }
}

/// The seconds of a timestamp, by its digits: days by years that start in March, of
/// 86400 seconds each, and the time of the day.
pub proof fn seconds_by_digits(s: &str, seconds: i64)
    requires
        encode_utf8(s@).len() >= 19,
        1 <= (encode_utf8(s@)[5] - 48) * 10 + (encode_utf8(s@)[6] - 48) <= 12,
        call_ensures(parse_timestamp_seconds, (s,), seconds),
    ensures
        ({
            let t = encode_utf8(s@);
            let year = (t[0] - 48) * 1000 + (t[1] - 48) * 100 + (t[2] - 48) * 10 + (t[3] - 48);
            let month = (t[5] - 48) * 10 + (t[6] - 48);
            let day = (t[8] - 48) * 10 + (t[9] - 48);
            let hour = (t[11] - 48) * 10 + (t[12] - 48);
            let minute = (t[14] - 48) * 10 + (t[15] - 48);
            let second = (t[17] - 48) * 10 + (t[18] - 48);
            let y = if month <= 2 {
                year - 1
            } else {
                year
            };
            let days = 365 * y + y / 4 - y / 100 + y / 400 + (153 * ((month + 9) % 12) + 2) / 5
                + day + 59;
            seconds == ((days * 24 + hour) * 60 + minute) * 60 + second
        }),
{
    let t = encode_utf8(s@);
    lemma_fields(t);
    days_by_years_from_march(year_of(t), month_of(t), day_of(t));
}

/// Where two timestamps have the same year and month, every digit after them counts
/// with its place: ten days, a day, ten hours, and so on down to the second.
pub proof fn digits_of_a_timestamp_have_places(a: &str, b: &str, x: i64, y: i64)
    requires
        encode_utf8(a@).len() >= 19,
        encode_utf8(b@).len() >= 19,
        forall|i: int|
            0 <= i < 7 && i != 4 ==> #[trigger] encode_utf8(a@)[i] == encode_utf8(b@)[i],
        call_ensures(parse_timestamp_seconds, (a,), x),
        call_ensures(parse_timestamp_seconds, (b,), y),
    ensures
        ({
            let s = encode_utf8(a@);
            let t = encode_utf8(b@);
            y - x == (t[8] - s[8]) * 864000 + (t[9] - s[9]) * 86400 + (t[11] - s[11]) * 36000 + (
            t[12] - s[12]) * 3600 + (t[14] - s[14]) * 600 + (t[15] - s[15]) * 60 + (t[17] - s[17])
                * 10 + (t[18] - s[18])
        }),
{
    let s = encode_utf8(a@);
    let t = encode_utf8(b@);
    lemma_fields(s);
    lemma_fields(t);
    assert(s[0] == t[0] && s[1] == t[1] && s[2] == t[2] && s[3] == t[3]);
    assert(s[5] == t[5] && s[6] == t[6]);
}

/// The month 0 counts as the month 1.
pub proof fn month_zero_counts_as_january(a: &str, b: &str, x: i64, y: i64)
    requires
        encode_utf8(a@).len() >= 19,
        encode_utf8(b@).len() >= 19,
        forall|i: int|
            0 <= i < 19 && i != 6 ==> #[trigger] encode_utf8(a@)[i] == encode_utf8(b@)[i],
        encode_utf8(a@)[5] == 48,
        encode_utf8(a@)[6] == 48,
        encode_utf8(b@)[6] == 49,
        call_ensures(parse_timestamp_seconds, (a,), x),
        call_ensures(parse_timestamp_seconds, (b,), y),
    ensures
        x == y,
{
    let s = encode_utf8(a@);
    let t = encode_utf8(b@);
    lemma_fields(s);
    lemma_fields(t);
    assert(s[0] == t[0] && s[1] == t[1] && s[2] == t[2] && s[3] == t[3] && s[5] == t[5]);
    assert(s[8] == t[8] && s[9] == t[9] && s[11] == t[11] && s[12] == t[12]);
    assert(s[14] == t[14] && s[15] == t[15] && s[17] == t[17] && s[18] == t[18]);
}

/// The time between two timestamps is the difference of their seconds, taken without its
/// sign, and so that of their dates and times by the calendar.
pub proof fn time_between_is_the_difference(a: &str, b: &str, x: i64, y: i64, diff: i64)
    requires
        is_timestamp(text_bytes(a)),
        is_timestamp(text_bytes(b)),
        call_ensures(parse_timestamp_seconds, (a,), x),
        call_ensures(parse_timestamp_seconds, (b,), y),
        call_ensures(seconds_between, (a, b), diff),
    ensures
        diff >= 0,
        diff == y - x || diff == x - y,
        ({
            let apart = calendar_seconds(encode_utf8(b@)) - calendar_seconds(encode_utf8(a@));
            diff == apart || diff == -apart
        }),
{
    scale_measures_calendar_time(text_bytes(a), text_bytes(b));
}

/// The time between two timestamps is the same whichever is named first, and it adds up
/// over three timestamps in order.
pub proof fn times_between_add_up(
    a: &str,
    b: &str,
    c: &str,
    x: i64,
    y: i64,
    z: i64,
    ab: i64,
    ba: i64,
    bc: i64,
    ac: i64,
)
    requires
        call_ensures(parse_timestamp_seconds, (a,), x),
        call_ensures(parse_timestamp_seconds, (b,), y),
        call_ensures(parse_timestamp_seconds, (c,), z),
        x <= y <= z,
        call_ensures(seconds_between, (a, b), ab),
        call_ensures(seconds_between, (b, a), ba),
        call_ensures(seconds_between, (b, c), bc),
        call_ensures(seconds_between, (a, c), ac),
    ensures
        ab == ba,
        ac == ab + bc,
        ab == y - x,
{
}

/// On one day of one month the time between two timestamps is that between their hours,
/// minutes and seconds.
pub proof fn time_between_on_one_day(a: &str, b: &str, diff: i64)
    requires
        encode_utf8(a@).len() >= 19,
        encode_utf8(b@).len() >= 19,
        forall|i: int|
            0 <= i < 10 && i != 4 && i != 7 ==> #[trigger] encode_utf8(a@)[i] == encode_utf8(
                b@,
            )[i],
        call_ensures(seconds_between, (a, b), diff),
    ensures
        ({
            let s = encode_utf8(a@);
            let t = encode_utf8(b@);
            let apart = (t[11] - s[11]) * 36000 + (t[12] - s[12]) * 3600 + (t[14] - s[14]) * 600 + (
            t[15] - s[15]) * 60 + (t[17] - s[17]) * 10 + (t[18] - s[18]);
            diff >= 0 && (diff == apart || diff == -apart)
        }),
{
    let s = encode_utf8(a@);
    let t = encode_utf8(b@);
    lemma_fields(s);
    lemma_fields(t);
    assert(s[0] == t[0] && s[1] == t[1] && s[2] == t[2] && s[3] == t[3]);
    assert(s[5] == t[5] && s[6] == t[6] && s[8] == t[8] && s[9] == t[9]);
}

/// The hour and the weekday by the digits of a text: those of its date and time where no
/// offset follows, and those after the offset was taken off where one does.
pub proof fn hour_and_weekday_by_digits(s: &str, r: (u32, u32))
    requires
        encode_utf8(s@).len() >= 13,
        1 <= (encode_utf8(s@)[5] - 48) * 10 + (encode_utf8(s@)[6] - 48) <= 12,
        call_ensures(parse_datetime, (s,), r),
    ensures
        ({
            let t = encode_utf8(s@);
            let year = (t[0] - 48) * 1000 + (t[1] - 48) * 100 + (t[2] - 48) * 10 + (t[3] - 48);
            let month = (t[5] - 48) * 10 + (t[6] - 48);
            let day = (t[8] - 48) * 10 + (t[9] - 48);
            let hour = (t[11] - 48) * 10 + (t[12] - 48);
            let y = if month <= 2 {
                year - 1
            } else {
                year
            };
            let days = 365 * y + y / 4 - y / 100 + y / 400 + (153 * ((month + 9) % 12) + 2) / 5
                + day - 307;
            let minute = (t[14] - 48) * 10 + (t[15] - 48);
            let ahead = ((t[20] - 48) * 10 + (t[21] - 48)) * 60 + (t[23] - 48) * 10 + (t[24] - 48);
            if t.len() >= 25 && (t[19] == 43 || t[19] == 45) {
                let utc = hour * 60 + minute + if t[19] == 45 {
                    ahead
                } else {
                    -ahead
                };
                r.0 == utc % 1440 / 60 && r.1 == (days + utc / 1440) % 7
            } else {
                r.0 == hour && r.1 == days % 7
            }
        }),
{
    let t = encode_utf8(s@);
    lemma_fields(t);
    days_by_years_from_march(year_of(t), month_of(t), day_of(t));
    if has_offset(t) {
        lemma_two_digits(t, 20);
        lemma_two_digits(t, 23);
        let days = day_number(year_of(t), month_of(t), day_of(t));
        let utc = hour_of(t) * 60 + minute_of(t) - offset_minutes(t);
        lemma_minutes_of_days(days, utc);
    }
}

/// Whole days change the weekday that minutes lead to, but not their hour.
proof fn lemma_minutes_of_days(days: int, minutes: int)
    ensures
        (days * 1440 + minutes) / 60 % 24 == minutes % 1440 / 60,
        (days * 1440 + minutes) / 1440 == days + minutes / 1440,
{
    let more = minutes / 1440;
    let rest = minutes % 1440;
    assert((days * 1440 + minutes) / 1440 == days + more);
    assert((days * 1440 + minutes) / 60 == (days + more) * 24 + rest / 60);
    assert(0 <= rest / 60 < 24);
}

/// Exactly the texts with digits in the places of the date and the hour, and of the
/// minute and the offset where an offset follows, and with a month that exists, have an
/// hour and a weekday. Bytes after the digit 9 pass for digits.
pub proof fn which_times_have_an_hour(s: &str, readable: bool)
    requires
        call_ensures(datetime_is_readable, (s,), readable),
    ensures
        call_requires(datetime_is_readable, (s,)),
        ({
            let t = encode_utf8(s@);
            let month = (t[5] - 48) * 10 + (t[6] - 48);
            readable <==> {
                &&& t.len() >= 13
                &&& t[0] >= 48 && t[1] >= 48 && t[2] >= 48 && t[3] >= 48
                &&& t[5] >= 48 && t[6] >= 48 && t[8] >= 48 && t[9] >= 48
                &&& t[11] >= 48 && t[12] >= 48
                &&& 1 <= month <= 12
                &&& month >= 3 || !(t[0] == 48 && t[1] == 48 && t[2] == 48 && t[3] == 48)
                &&& t.len() >= 25 && (t[19] == 43 || t[19] == 45) ==> {
                    &&& t[14] >= 48 && t[15] >= 48 && t[20] >= 48 && t[21] >= 48
                    &&& t[23] >= 48 && t[24] >= 48
                }
            }
        }),
        readable ==> call_requires(parse_datetime, (s,)),
{
    let t = encode_utf8(s@);
    if t.len() >= 13 {
        lemma_fields(t);
        lemma_readable(t, 0, 4);
        lemma_readable(t, 5, 7);
        lemma_readable(t, 8, 10);
        lemma_readable(t, 11, 13);
        if t.len() >= 25 {
            lemma_readable(t, 14, 16);
            lemma_readable(t, 20, 22);
            lemma_readable(t, 23, 25);
        }
    }
}

/// A field can be read if its bytes can.
proof fn lemma_readable(text: Seq<u8>, i: int, j: int)
    requires
        0 <= i <= j <= text.len(),
    ensures
        no_byte_below_zero(text.subrange(i, j)) <==> forall|k: int|
            i <= k < j ==> #[trigger] text[k] >= 48,
{
    let digits = text.subrange(i, j);
    if no_byte_below_zero(digits) {
        assert forall|k: int| i <= k < j implies #[trigger] text[k] >= 48 by {
            assert(digits[k - i] == text[k]);
        }
    }
}

/// Exactly the texts with digits in the places of the date and the time, and with a
/// month of at most 12, have a place on the scale of seconds. Bytes after the digit 9
/// pass for digits.
pub proof fn which_times_have_seconds(s: &str, readable: bool)
    requires
        call_ensures(timestamp_is_readable, (s,), readable),
    ensures
        call_requires(timestamp_is_readable, (s,)),
        ({
            let t = encode_utf8(s@);
            readable <==> {
                &&& t.len() >= 19
                &&& t[0] >= 48 && t[1] >= 48 && t[2] >= 48 && t[3] >= 48
                &&& t[5] >= 48 && t[6] >= 48 && t[8] >= 48 && t[9] >= 48
                &&& t[11] >= 48 && t[12] >= 48 && t[14] >= 48 && t[15] >= 48
                &&& t[17] >= 48 && t[18] >= 48
                &&& (t[5] - 48) * 10 + (t[6] - 48) <= 12
            }
        }),
        readable ==> call_requires(parse_timestamp_seconds, (s,)),
{
    let t = encode_utf8(s@);
    if t.len() >= 19 {
        lemma_fields(t);
        lemma_readable(t, 0, 4);
        lemma_readable(t, 5, 7);
        lemma_readable(t, 8, 10);
        lemma_readable(t, 11, 13);
        lemma_readable(t, 14, 16);
        lemma_readable(t, 17, 19);
    }
}

/// The time between two timestamps can be asked for wherever both can be read.
pub proof fn readable_times_can_be_compared(a: &str, b: &str)
    requires
        call_ensures(timestamp_is_readable, (a,), true),
        call_ensures(timestamp_is_readable, (b,), true),
    ensures
        call_requires(seconds_between, (a, b)),
{
}

} // verus!
