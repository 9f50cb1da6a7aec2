//! Calendar dates held as day numbers in the proleptic Gregorian calendar,
//! with verified conversions from and to year/month/day form, weekday
//! computation, and `YYYY-MM-DD` text formatting.

use vstd::prelude::*;
use crate::text::{dec_chars, zero_pad, push_u64_pad2, push_u64_pad4, push_char};

verus! {

/// A calendar date, held as the number of days since 0001-01-01
/// (which is day 0, a Monday).
#[derive(Debug, Clone, Copy, PartialEq, Eq, Structural)]
pub struct Date {
    pub day: u64,
}

/// A day of the week.
#[derive(Debug, Clone, Copy, PartialEq, Eq, Structural)]
pub enum Weekday {
    Monday,
    Tuesday,
    Wednesday,
    Thursday,
    Friday,
    Saturday,
    Sunday,
}

/// Largest year `Date::from_ymd` accepts.
pub const MAX_YEAR: u64 = 999999;

pub open spec fn is_leap_year(y: int) -> bool {
    (y % 4 == 0 && y % 100 != 0) || y % 400 == 0
}

pub open spec fn days_in_year(y: int) -> int {
    if is_leap_year(y) {
        366
    } else {
        365
    }
}

pub open spec fn days_in_month(y: int, m: int) -> int {
    if m == 2 {
        if is_leap_year(y) {
            29
        } else {
            28
        }
    } else if m == 4 || m == 6 || m == 9 || m == 11 {
        30
    } else {
        31
    }
}

/// Days in all years strictly before year `y`.
pub open spec fn days_before_year(y: int) -> int
    decreases y,
{
    if y <= 1 {
        0
    } else {
        days_before_year(y - 1) + days_in_year(y - 1)
    }
}

/// Days in year `y` strictly before month `m`.
pub open spec fn days_before_month(y: int, m: int) -> int
    decreases m,
{
    if m <= 1 {
        0
    } else {
        days_before_month(y, m - 1) + days_in_month(y, m - 1)
    }
}

/// Day number of a calendar date: days elapsed since 0001-01-01.
pub open spec fn day_number_of(y: int, m: int, d: int) -> int {
    days_before_year(y) + days_before_month(y, m) + (d - 1)
}

pub open spec fn valid_ymd(y: int, m: int, d: int) -> bool {
    1 <= y && 1 <= m <= 12 && 1 <= d <= days_in_month(y, m)
}

/// Year and remaining day count reached by walking years upward from `y`.
pub open spec fn year_split(y: int, day: int) -> (int, int)
    decreases day when day >= 0
{
    if day < days_in_year(y) {
        (y, day)
    } else {
        year_split(y + 1, day - days_in_year(y))
    }
}

/// Month and remaining day count reached by walking months upward from `m`.
pub open spec fn month_split(y: int, m: int, day: int) -> (int, int)
    decreases day when day >= 0
{
    if day < days_in_month(y, m) {
        (m, day)
    } else {
        month_split(y, m + 1, day - days_in_month(y, m))
    }
}

/// Year/month/day of a day number.
pub open spec fn ymd_of_day(day: int) -> (int, int, int) {
    let (y, rest) = year_split(1, day);
    let (m, dom) = month_split(y, 1, rest);
    (y, m, dom + 1)
}

/// The `YYYY-MM-DD` rendering of a day number (year padded to four digits,
/// month and day to two).
pub open spec fn date_chars(day: int) -> Seq<char> {
    let (y, m, d) = ymd_of_day(day);
    zero_pad(dec_chars(y), 4) + seq!['-'] + zero_pad(dec_chars(m), 2) + seq!['-'] + zero_pad(
        dec_chars(d),
        2,
    )
}

pub open spec fn weekday_of_day(day: int) -> Weekday {
    let r = day % 7;
    if r == 0 {
        Weekday::Monday
    } else if r == 1 {
        Weekday::Tuesday
    } else if r == 2 {
        Weekday::Wednesday
    } else if r == 3 {
        Weekday::Thursday
    } else if r == 4 {
        Weekday::Friday
    } else if r == 5 {
        Weekday::Saturday
    } else {
        Weekday::Sunday
    }
}

pub fn leap_year(y: u64) -> (r: bool)
    ensures
        r == is_leap_year(y as int),
{
    (y % 4 == 0 && y % 100 != 0) || y % 400 == 0
}

pub fn month_length(y: u64, m: u64) -> (r: u64)
    requires
        1 <= m <= 12,
    ensures
        r == days_in_month(y as int, m as int),
{
    if m == 2 {
        if leap_year(y) {
            29
        } else {
            28
        }
    } else if m == 4 || m == 6 || m == 9 || m == 11 {
        30
    } else {
        31
    }
}

/// Sum of the month lengths of a year is the year length.
proof fn lemma_months_cover_year(y: int)
    ensures
        days_before_month(y, 13) == days_in_year(y),
{
    assert(days_before_month(y, 13) == days_in_year(y)) by {
        reveal_with_fuel(days_before_month, 13);
    }
}

impl Date {
    /// Builds a date from calendar components; `None` when the components
    /// do not name a real date or the year is out of range.
    pub fn from_ymd(y: u64, m: u64, d: u64) -> (r: Option<Date>)
        ensures
            match r {
                Some(dt) => valid_ymd(y as int, m as int, d as int) && y <= MAX_YEAR
                    && dt.day == day_number_of(y as int, m as int, d as int),
                None => !(valid_ymd(y as int, m as int, d as int) && y <= MAX_YEAR),
            },
    {
        if y < 1 || y > MAX_YEAR || m < 1 || m > 12 {
            return None;
        }
        if d < 1 || d > month_length(y, m) {
            return None;
        }
        let mut acc: u64 = 0;
        let mut yy: u64 = 1;
        while yy < y
            invariant
                1 <= yy <= y <= MAX_YEAR,
                acc == days_before_year(yy as int),
                acc <= 366 * (yy as int - 1),
            decreases y - yy,
        {
            acc = acc + if leap_year(yy) {
                366
            } else {
                365
            };
            yy = yy + 1;
        }
        let mut mm: u64 = 1;
        while mm < m
            invariant
                1 <= mm <= m <= 12,
                y <= MAX_YEAR,
                acc == days_before_year(y as int) + days_before_month(y as int, mm as int),
                acc <= 366 * (y as int - 1) + 31 * (mm as int - 1),
            decreases m - mm,
        {
            acc = acc + month_length(y, mm);
            mm = mm + 1;
        }
        Some(Date { day: acc + (d - 1) })
    }

    /// Calendar components of this date.
    pub fn to_ymd(self) -> (r: (u64, u64, u64))
        ensures
            valid_ymd(r.0 as int, r.1 as int, r.2 as int),
            day_number_of(r.0 as int, r.1 as int, r.2 as int) == self.day,
            (r.0 as int, r.1 as int, r.2 as int) == ymd_of_day(self.day as int),
    {
        let day = self.day;
        let mut y: u64 = 1;
        let mut acc: u64 = 0;
        let mut yl: u64 = if leap_year(y) {
            366
        } else {
            365
        };
        while day - acc >= yl
            invariant
                1 <= y,
                acc <= day,
                day == self.day,
                acc == days_before_year(y as int),
                365 * (y as int - 1) <= acc,
                yl == days_in_year(y as int),
                year_split(y as int, day as int - acc) == year_split(1, day as int),
            decreases day - acc,
        {
            acc = acc + yl;
            y = y + 1;
            yl = if leap_year(y) {
                366
            } else {
                365
            };
        }
        let mut rem: u64 = day - acc;
        let ghost rem0: int = rem as int;
        assert(year_split(y as int, rem as int) == year_split(1, day as int));
        assert(rem < yl);
        let mut m: u64 = 1;
        let mut ml: u64 = month_length(y, 1);
        while rem >= ml
            invariant
                1 <= m <= 12,
                1 <= y,
                day == self.day,
                ml == days_in_month(y as int, m as int),
                rem as int == rem0 - days_before_month(y as int, m as int),
                rem0 < days_in_year(y as int),
                rem0 == day - days_before_year(y as int),
                month_split(y as int, m as int, rem as int) == month_split(y as int, 1, rem0),
            decreases 12 - m,
        {
            proof {
                lemma_months_cover_year(y as int);
                if m == 12 {
                    assert(days_before_month(y as int, 13) == days_before_month(y as int, 12)
                        + days_in_month(y as int, 12));
                    assert(false);
                }
            }
            rem = rem - ml;
            m = m + 1;
            ml = month_length(y, m);
        }
        (y, m, rem + 1)
    }

    /// The date `n` days later.
    pub fn add_days(self, n: u64) -> (r: Date)
        requires
            self.day + n <= u64::MAX,
        ensures
            r.day == self.day + n,
    {
        Date { day: self.day + n }
    }

    /// Day of the week of this date.
    pub fn weekday(self) -> (w: Weekday)
        ensures
            w == weekday_of_day(self.day as int),
    {
        let r = self.day % 7;
        if r == 0 {
            Weekday::Monday
        } else if r == 1 {
            Weekday::Tuesday
        } else if r == 2 {
            Weekday::Wednesday
        } else if r == 3 {
            Weekday::Thursday
        } else if r == 4 {
            Weekday::Friday
        } else if r == 5 {
            Weekday::Saturday
        } else {
            Weekday::Sunday
        }
    }
}

/// Appends the `YYYY-MM-DD` form of a date.
pub fn push_date(s: &mut String, dt: Date)
    ensures
        final(s)@ == old(s)@ + date_chars(dt.day as int),
{
    let (y, m, d) = dt.to_ymd();
    push_u64_pad4(s, y);
    push_char(s, '-');
    push_u64_pad2(s, m);
    push_char(s, '-');
    push_u64_pad2(s, d);
    assert(s@ =~= old(s)@ + date_chars(dt.day as int));
}

} // verus!
