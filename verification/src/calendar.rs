//! Dates of Unix timestamps on the proleptic Gregorian calendar, and the
//! labels under which saved chats are listed.

use vstd::prelude::*;
use crate::history::ChatHistory;
use crate::text::{chars_of, concat, decimal, decimal_chars, parse_u64, parse_u64_exec, string_of};

verus! {

/// A leap year of the Gregorian calendar.
pub open spec fn leap(y: int) -> bool {
    (y % 4 == 0 && y % 100 != 0) || y % 400 == 0
}

pub open spec fn year_len(y: int) -> int {
    if leap(y) {
        366
    } else {
        365
    }
}

/// Days from 1970-01-01 to January 1st of year `y`.
pub open spec fn year_start(y: int) -> int
    decreases y - 1970,
{
    if y <= 1970 {
        0
    } else {
        year_start(y - 1) + year_len(y - 1)
    }
}

/// Days in month `m` (0 is January); months out of range count 30.
pub open spec fn month_len(m: int, is_leap: bool) -> int {
    if m == 1 {
        if is_leap {
            29
        } else {
            28
        }
    } else if m == 0 || m == 2 || m == 4 || m == 6 || m == 7 || m == 9 || m == 11 {
        31
    } else {
        30
    }
}

/// Days from the start of the year to the start of month `m`.
pub open spec fn month_start(m: int, is_leap: bool) -> int
    decreases m,
{
    if m <= 0 {
        0
    } else {
        month_start(m - 1, is_leap) + month_len(m - 1, is_leap)
    }
}

/// `(year, month, day)` is the date `days` days after 1970-01-01, with month
/// 0 for January and day 1 for the first of the month.
pub open spec fn is_date_of(days: int, date: (int, int, int)) -> bool {
    let (y, m, d) = date;
    &&& y >= 1970
    &&& 0 <= m < 12
    &&& 1 <= d <= month_len(m, leap(y))
    &&& year_start(y) + month_start(m, leap(y)) + d - 1 == days
}

/// The date `days` days after 1970-01-01.
pub open spec fn date_of(days: int) -> (int, int, int) {
    choose|date: (int, int, int)| is_date_of(days, date)
}

/// Days from 1970-01-01 to the first day that a year in `i32` cannot reach.
pub open spec fn calendar_end() -> int {
    year_start(2147483648)
}

/// Number of leap years before year `y`, counted from year 1.
spec fn leaps_before(y: int) -> int {
    (y - 1) / 4 - (y - 1) / 100 + (y - 1) / 400
}

proof fn lemma_leaps_step(y: int)
    requires
        y >= 1,
    ensures
        leaps_before(y + 1) - leaps_before(y) == if leap(y) {
            1int
        } else {
            0int
        },
{
}

proof fn lemma_year_start_closed(y: int)
    requires
        y >= 1970,
    ensures
        year_start(y) == 365 * (y - 1970) + leaps_before(y) - leaps_before(1970),
    decreases y - 1970,
{
    if y > 1970 {
        lemma_year_start_closed(y - 1);
        lemma_leaps_step(y - 1);
    }
}

/// The number of days that `days_to_date` can date.
pub proof fn lemma_calendar_end()
    ensures
        calendar_end() == 784351576777,
{
    lemma_year_start_closed(2147483648);
}

proof fn lemma_year_start_mono(a: int, b: int)
    requires
        1970 <= a <= b,
    ensures
        year_start(a) + (b - a) * 365 <= year_start(b),
    decreases b - a,
{
    if a < b {
        lemma_year_start_mono(a, b - 1);
    }
}

proof fn lemma_month_start_year(is_leap: bool)
    ensures
        month_start(12, is_leap) == if is_leap {
            366int
        } else {
            365int
        },
{
    reveal_with_fuel(month_start, 13);
}

/// A day of a month lies within the year.
proof fn lemma_month_day_in_year(m: int, d: int, is_leap: bool)
    requires
        0 <= m < 12,
        1 <= d <= month_len(m, is_leap),
    ensures
        0 <= month_start(m, is_leap) + d - 1 < if is_leap {
            366int
        } else {
            365int
        },
{
    reveal_with_fuel(month_start, 13);
}

proof fn lemma_month_unique(m1: int, d1: int, m2: int, d2: int, is_leap: bool)
    requires
        0 <= m1 < 12,
        0 <= m2 < 12,
        1 <= d1 <= month_len(m1, is_leap),
        1 <= d2 <= month_len(m2, is_leap),
        month_start(m1, is_leap) + d1 == month_start(m2, is_leap) + d2,
    ensures
        m1 == m2,
        d1 == d2,
{
    reveal_with_fuel(month_start, 13);
}

/// Each number of days since 1970-01-01 has exactly one date.
pub proof fn lemma_date_unique(days: int, a: (int, int, int), b: (int, int, int))
    requires
        is_date_of(days, a),
        is_date_of(days, b),
    ensures
        a == b,
{
    let (y1, m1, d1) = a;
    let (y2, m2, d2) = b;
    lemma_month_day_in_year(m1, d1, leap(y1));
    lemma_month_day_in_year(m2, d2, leap(y2));
    if y1 < y2 {
        lemma_year_start_mono(y1 + 1, y2);
        assert(year_start(y1 + 1) == year_start(y1) + year_len(y1));
    } else if y2 < y1 {
        lemma_year_start_mono(y2 + 1, y1);
        assert(year_start(y2 + 1) == year_start(y2) + year_len(y2));
    }
    assert(y1 == y2);
    lemma_month_unique(m1, d1, m2, d2, leap(y1));
}

/// `date_of` gives the date that a day count has.
pub proof fn lemma_date_of(days: int, date: (int, int, int))
    requires
        is_date_of(days, date),
    ensures
        date_of(days) == date,
{
    lemma_date_unique(days, date, date_of(days));
}

/// How long ago `secs` was at `now`, in the largest unit that fits.
pub open spec fn relative_label(secs: u64, now: u64) -> Seq<char> {
    let diff: int = if now >= secs {
        now - secs
    } else {
        0
    };
    if diff < 60 {
        "Just now"@
    } else if diff < 3600 {
        decimal((diff / 60) as nat) + " minutes ago"@
    } else if diff < 86400 {
        decimal((diff / 3600) as nat) + " hours ago"@
    } else if diff / 86400 < 365 {
        decimal((diff / 86400) as nat) + " days ago"@
    } else {
        decimal((diff / 86400 / 365) as nat) + " years ago"@
    }
}

/// The relative time of a timestamp, or the text itself when it does not
/// read as a number of seconds.
pub open spec fn display_label(timestamp: Seq<char>, now: u64) -> Seq<char> {
    match parse_u64(timestamp) {
        Some(secs) => relative_label(secs, now),
        None => timestamp,
    }
}

pub open spec fn weekday_name(i: int) -> Seq<char> {
    if i == 0 {
        "Sun"@
    } else if i == 1 {
        "Mon"@
    } else if i == 2 {
        "Tue"@
    } else if i == 3 {
        "Wed"@
    } else if i == 4 {
        "Thu"@
    } else if i == 5 {
        "Fri"@
    } else {
        "Sat"@
    }
}

pub open spec fn month_name(m: int) -> Seq<char> {
    if m == 0 {
        "Jan"@
    } else if m == 1 {
        "Feb"@
    } else if m == 2 {
        "Mar"@
    } else if m == 3 {
        "Apr"@
    } else if m == 4 {
        "May"@
    } else if m == 5 {
        "Jun"@
    } else if m == 6 {
        "Jul"@
    } else if m == 7 {
        "Aug"@
    } else if m == 8 {
        "Sep"@
    } else if m == 9 {
        "Oct"@
    } else if m == 10 {
        "Nov"@
    } else {
        "Dec"@
    }
}

/// The English ordinal ending of a day of the month.
pub open spec fn ordinal_suffix(d: int) -> Seq<char> {
    if d == 1 || d == 21 || d == 31 {
        "st"@
    } else if d == 2 || d == 22 {
        "nd"@
    } else if d == 3 || d == 23 {
        "rd"@
    } else {
        "th"@
    }
}

/// Whole days from the day of `secs` to the day of `now`, or 0.
pub open spec fn days_between(secs: u64, now: u64) -> int {
    if now / 86400 >= secs / 86400 {
        now / 86400 - secs / 86400
    } else {
        0
    }
}

/// The day of `secs` as seen at `now`: `Today`, `Yesterday`, some days ago
/// within a week, else the weekday, day and month, as in `Sat, 12th Dec`.
pub open spec fn date_label(secs: u64, now: u64) -> Seq<char> {
    let days = secs / 86400;
    let diff = days_between(secs, now);
    if diff == 0 {
        "Today"@
    } else if diff == 1 {
        "Yesterday"@
    } else if diff < 7 {
        decimal(diff as nat) + " days ago"@
    } else {
        let date = date_of(days as int);
        weekday_name((days + 4) % 7) + ", "@ + decimal(date.2 as nat) + ordinal_suffix(date.2)
            + " "@ + month_name(date.1)
    }
}

/// The date label of a timestamp, or the text itself when it does not read
/// as a number of seconds.
pub open spec fn timestamp_date_label(timestamp: Seq<char>, now: u64) -> Seq<char> {
    match parse_u64(timestamp) {
        Some(secs) => date_label(secs, now),
        None => timestamp,
    }
}

/// The label needs no date, or the date's year stays within `i32`.
pub open spec fn date_label_defined(timestamp: Seq<char>, now: u64) -> bool {
    match parse_u64(timestamp) {
        Some(secs) => days_between(secs, now) < 7 || secs / 86400 < calendar_end(),
        None => true,
    }
}

/// `a` followed by the characters of `s`.
fn append(a: Vec<char>, s: &str) -> (r: Vec<char>)
    ensures
        r@ == a@ + s@,
{
    concat(&a, &chars_of(s))
}

fn weekday_str(i: u64) -> (r: &'static str)
    requires
        i < 7,
    ensures
        r@ == weekday_name(i as int),
{
    match i {
        0 => "Sun",
        1 => "Mon",
        2 => "Tue",
        3 => "Wed",
        4 => "Thu",
        5 => "Fri",
        _ => "Sat",
    }
}

fn month_str(m: usize) -> (r: &'static str)
    requires
        m < 12,
    ensures
        r@ == month_name(m as int),
{
    match m {
        0 => "Jan",
        1 => "Feb",
        2 => "Mar",
        3 => "Apr",
        4 => "May",
        5 => "Jun",
        6 => "Jul",
        7 => "Aug",
        8 => "Sep",
        9 => "Oct",
        10 => "Nov",
        _ => "Dec",
    }
}

fn suffix_str(d: u32) -> (r: &'static str)
    ensures
        r@ == ordinal_suffix(d as int),
{
    match d {
        1 | 21 | 31 => "st",
        2 | 22 => "nd",
        3 | 23 => "rd",
        _ => "th",
    }
}

impl ChatHistory {
    /// Whether `year` is a leap year.
    pub fn is_leap_year(year: i32) -> (r: bool)
        ensures
            r == leap(year as int),
    {
        (year % 4 == 0 && year % 100 != 0) || (year % 400 == 0)
    }

    /// Days in month `month` (0 is January).
    pub fn days_in_month(month: usize, is_leap: bool) -> (r: u32)
        ensures
            r == month_len(month as int, is_leap),
    {
        match month {
            1 => if is_leap {
                29
            } else {
                28
            },
            0 | 2 | 4 | 6 | 7 | 9 | 11 => 31,
            3 | 5 | 8 | 10 => 30,
            _ => 30,
        }
    }

    fn year_days(year: i32) -> (r: u64)
        ensures
            r == year_len(year as int),
    {
        if Self::is_leap_year(year) {
            366
        } else {
            365
        }
    }

    /// The date `days` days after 1970-01-01: year, month (0 is January) and
    /// day of the month (from 1).
    pub fn days_to_date(days: u64) -> (r: (i32, usize, u32))
        requires
            days < calendar_end(),
        ensures
            is_date_of(days as int, (r.0 as int, r.1 as int, r.2 as int)),
    {
        let mut rest = days;
        let mut year: i32 = 1970;
        if rest == 0 {
            proof {
                reveal_with_fuel(month_start, 1);
            }
            return (year, 0, 1);
        }
        while rest >= Self::year_days(year)
            invariant
                1970 <= year,
                days == year_start(year as int) + rest,
                days < calendar_end(),
            decreases rest,
        {
            proof {
                assert(year_start(year + 1) == year_start(year as int) + year_len(year as int));
                if year == i32::MAX {
                    assert(calendar_end() == year_start(year + 1));
                }
            }
            rest = rest - Self::year_days(year);
            year = year + 1;
        }
        let is_leap = Self::is_leap_year(year);
        let mut month: usize = 0;
        let mut day: u32 = rest as u32;
        while month < 12 && day >= Self::days_in_month(month, is_leap)
            invariant
                month <= 12,
                is_leap == leap(year as int),
                rest == month_start(month as int, is_leap) + day,
                rest < year_len(year as int),
            decreases 12 - month,
        {
            day = day - Self::days_in_month(month, is_leap);
            month = month + 1;
        }
        proof {
            lemma_month_start_year(is_leap);
        }
        (year, month, day + 1)
    }

    /// Whether `days_to_date` can date `days`, that is whether the year
    /// stays within `i32`.
    pub fn calendar_covers(days: u64) -> (r: bool)
        ensures
            r == (days < calendar_end()),
    {
        proof {
            lemma_calendar_end();
        }
        days < 784351576777
    }

    /// How long ago a timestamp (seconds since 1970) was at `now`: `Just
    /// now`, or minutes, hours, days or years ago; text that is no number of
    /// seconds is given back as it is.
    pub fn format_timestamp_display_at(timestamp: &str, now: u64) -> (r: String)
        requires
            parse_u64(timestamp@) matches Some(secs) ==> secs <= i64::MAX,
        ensures
            r@ == display_label(timestamp@, now),
    {
        let cs = chars_of(timestamp);
        match parse_u64_exec(&cs) {
            None => string_of(&cs),
            Some(secs) => {
                let diff = if now >= secs {
                    now - secs
                } else {
                    0
                };
                let v = if diff < 60 {
                    chars_of("Just now")
                } else if diff < 3600 {
                    append(decimal_chars(diff / 60), " minutes ago")
                } else if diff < 86400 {
                    append(decimal_chars(diff / 3600), " hours ago")
                } else if diff / 86400 < 365 {
                    append(decimal_chars(diff / 86400), " days ago")
                } else {
                    append(decimal_chars(diff / 86400 / 365), " years ago")
                };
                string_of(&v)
            },
        }
    }

    /// The day of a timestamp (seconds since 1970) as seen at `now`:
    /// `Today`, `Yesterday`, `N days ago` within a week, else as in
    /// `Sat, 12th Dec`; text that is no number of seconds is given back as
    /// it is.
    pub fn format_timestamp_date_at(timestamp: &str, now: u64) -> (r: String)
        requires
            date_label_defined(timestamp@, now),
        ensures
            r@ == timestamp_date_label(timestamp@, now),
    {
        let cs = chars_of(timestamp);
        match parse_u64_exec(&cs) {
            None => string_of(&cs),
            Some(secs) => {
                let days = secs / 86400;
                let now_days = now / 86400;
                let diff = if now_days >= days {
                    now_days - days
                } else {
                    0
                };
                let v = if diff == 0 {
                    chars_of("Today")
                } else if diff == 1 {
                    chars_of("Yesterday")
                } else if diff < 7 {
                    append(decimal_chars(diff), " days ago")
                } else {
                    let weekday = weekday_str((days + 4) % 7);
                    let (year, month, day) = Self::days_to_date(days);
                    proof {
                        lemma_date_of(days as int, (year as int, month as int, day as int));
                    }
                    let v = append(chars_of(weekday), ", ");
                    let v = concat(&v, &decimal_chars(day as u64));
                    let v = append(v, suffix_str(day));
                    let v = append(v, " ");
                    append(v, month_str(month))
                };
                string_of(&v)
            },
        }
    }
}


/// The English ordinal endings of the days of a month: a day whose last
/// digit is 1, 2 or 3 takes `st`, `nd` or `rd`, except 11, 12 and 13; every
/// other day takes `th`.
pub proof fn lemma_ordinal_suffix(d: int)
    requires
        1 <= d <= 31,
    ensures
        ordinal_suffix(d) == if d % 10 == 1 && d != 11 {
            "st"@
        } else if d % 10 == 2 && d != 12 {
            "nd"@
        } else if d % 10 == 3 && d != 13 {
            "rd"@
        } else {
            "th"@
        },
{
}


/// Thirty days have April, June, September and November (months 3, 5, 8
/// and 10, counting January as 0); February has 29 days in a leap year and
/// 28 otherwise; every other month has 31; and the twelve months together
/// make up the year.
pub proof fn lemma_month_lengths(m: int, y: int)
    requires
        0 <= m < 12,
    ensures
        month_len(m, leap(y)) == if m == 1 {
            if leap(y) {
                29int
            } else {
                28int
            }
        } else if m == 3 || m == 5 || m == 8 || m == 10 {
            30int
        } else {
            31int
        },
        month_start(12, leap(y)) == year_len(y),
{
    reveal_with_fuel(month_start, 13);
}


/// The weekday of a date label counts from 1970-01-01, a Thursday: a day a
/// whole number of weeks after it, labelled by its date, is a Thursday.
pub proof fn lemma_label_weekday(secs: u64, now: u64)
    requires
        days_between(secs, now) >= 7,
        (secs / 86400) % 7 == 0,
    ensures
        date_label(secs, now).take(3) == "Thu"@,
{
    reveal_strlit("Thu");
    let days = secs / 86400;
    assert((days + 4) % 7 == 4);
    let date = date_of(days as int);
    let rest = ", "@ + decimal(date.2 as nat) + ordinal_suffix(date.2) + " "@ + month_name(date.1);
    assert(date_label(secs, now) == weekday_name(4) + ", "@ + decimal(date.2 as nat) + ordinal_suffix(date.2) + " "@
        + month_name(date.1));
    assert(weekday_name(4) + ", "@ + decimal(date.2 as nat) + ordinal_suffix(date.2) + " "@ + month_name(date.1)
        =~= "Thu"@ + rest);
    assert(("Thu"@ + rest).take(3) =~= "Thu"@);
}

} // verus!
