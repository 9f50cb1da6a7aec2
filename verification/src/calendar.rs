//! Business calendars: closed weekdays, public holidays, day
//! classification, and the textual date-list format (`YYYY-MM-DD` entries
//! separated by commas, with `:` for inclusive ranges).

use vstd::prelude::*;
use crate::dates::{Date, Weekday, weekday_of_day, valid_ymd, day_number_of, ymd_of_day, MAX_YEAR};
use crate::text::{
    split_chars,
    split_str,
    is_blank,
    str_is_blank,
    parse_digits,
    digits_val,
    all_digits,
};

verus! {

/// A single date or an inclusive date range.
#[derive(Debug, Clone, Copy, PartialEq, Eq, Structural)]
pub enum DateObj {
    Date(Date),
    Range(Date, Date),
}

/// A named public holiday covering one or more dates.
#[derive(Debug)]
pub struct PublicHoliday {
    pub date: Vec<DateObj>,
    pub name: String,
}

/// A base business calendar: weekly closing days, nominal working hours,
/// and public holidays.
#[derive(Debug)]
pub struct BusinessDaysCalendar {
    pub closed_days: Vec<Weekday>,
    pub working_hrs_in_day: u32,
    pub public_holidays: Vec<PublicHoliday>,
}

/// Classification of one calendar day for one worker.
#[derive(Debug, Clone, Copy, PartialEq, Eq, Structural)]
pub enum DayInfo {
    NonWorking,
    NonWorkingPubHoliday,
    WorkerHolidays,
    WorkerOtherDuties,
    WorkingDay(u32),
}

/// An error in the textual date-list format.
#[derive(Debug, Clone, Copy, PartialEq, Eq, Structural)]
pub enum ParseError {
    InvalidDate,
}

// ---------------------------------------------------------------------------
// date membership
// ---------------------------------------------------------------------------

pub open spec fn date_obj_hit(o: DateObj, day: int) -> bool {
    match o {
        DateObj::Date(d) => d.day == day,
        DateObj::Range(f, t) => f.day <= day <= t.day,
    }
}

/// The day is named by some entry of the list.
pub open spec fn in_dates(day: int, dates: Seq<DateObj>) -> bool {
    exists|i: int| 0 <= i < dates.len() && date_obj_hit(#[trigger] dates[i], day)
}

/// Whether the date (or, for a range, any part of it) falls in year `y`.
pub open spec fn date_obj_in_year(o: DateObj, y: int) -> bool {
    match o {
        DateObj::Date(d) => ymd_of_day(d.day as int).0 == y,
        DateObj::Range(f, t) => ymd_of_day(f.day as int).0 <= y <= ymd_of_day(t.day as int).0,
    }
}

/// True when `day` falls on one of the dates in the list.
pub fn in_date_obj_vec(d: &Date, dates: &Vec<DateObj>) -> (r: bool)
    ensures
        r == in_dates(d.day as int, dates@),
{
    let mut i: usize = 0;
    while i < dates.len()
        invariant
            0 <= i <= dates@.len(),
            forall|j: int| 0 <= j < i ==> !date_obj_hit(#[trigger] dates@[j], d.day as int),
        decreases dates@.len() - i,
    {
        let hit = match dates[i] {
            DateObj::Date(dd) => dd.day == d.day,
            DateObj::Range(f, t) => f.day <= d.day && d.day <= t.day,
        };
        if hit {
            return true;
        }
        i = i + 1;
    }
    false
}

// ---------------------------------------------------------------------------
// day classification
// ---------------------------------------------------------------------------

pub open spec fn spec_closed_weekday(cal: &BusinessDaysCalendar, day: int) -> bool {
    exists|i: int|
        0 <= i < cal.closed_days@.len() && #[trigger] cal.closed_days@[i] == weekday_of_day(day)
}

pub open spec fn spec_pub_holiday(cal: &BusinessDaysCalendar, day: int) -> bool {
    exists|i: int|
        0 <= i < cal.public_holidays@.len() && in_dates(
            day,
            #[trigger] cal.public_holidays@[i].date@,
        )
}

/// Base-calendar classification: closed weekday, then public holiday,
/// then a working day of the calendar's nominal hours.
pub open spec fn spec_day_info(cal: &BusinessDaysCalendar, day: int) -> DayInfo {
    if spec_closed_weekday(cal, day) {
        DayInfo::NonWorking
    } else if spec_pub_holiday(cal, day) {
        DayInfo::NonWorkingPubHoliday
    } else {
        DayInfo::WorkingDay(cal.working_hrs_in_day)
    }
}

impl BusinessDaysCalendar {
    /// Classifies a day against the base calendar alone.
    pub fn day_info(&self, d: &Date) -> (r: DayInfo)
        ensures
            r == spec_day_info(self, d.day as int),
    {
        let wd = d.weekday();
        let mut i: usize = 0;
        while i < self.closed_days.len()
            invariant
                0 <= i <= self.closed_days@.len(),
                wd == weekday_of_day(d.day as int),
                forall|j: int|
                    0 <= j < i ==> #[trigger] self.closed_days@[j] != weekday_of_day(d.day as int),
            decreases self.closed_days@.len() - i,
        {
            if self.closed_days[i] == wd {
                return DayInfo::NonWorking;
            }
            i = i + 1;
        }
        let mut k: usize = 0;
        while k < self.public_holidays.len()
            invariant
                0 <= k <= self.public_holidays@.len(),
                !spec_closed_weekday(self, d.day as int),
                forall|j: int|
                    0 <= j < k ==> !in_dates(d.day as int, #[trigger] self.public_holidays@[j].date@),
            decreases self.public_holidays@.len() - k,
        {
            if in_date_obj_vec(d, &self.public_holidays[k].date) {
                return DayInfo::NonWorkingPubHoliday;
            }
            k = k + 1;
        }
        DayInfo::WorkingDay(self.working_hrs_in_day)
    }

    /// Whether any public holiday of the calendar touches the given year.
    pub fn year_covered(&self, year: u32) -> (r: bool)
        ensures
            r == exists|i: int, j: int|
                0 <= i < self.public_holidays@.len() && 0 <= j
                    < self.public_holidays@[i].date@.len() && date_obj_in_year(
                    #[trigger] self.public_holidays@[i].date@[j],
                    year as int,
                ),
    {
        let mut i: usize = 0;
        while i < self.public_holidays.len()
            invariant
                0 <= i <= self.public_holidays@.len(),
                forall|a: int, b: int|
                    0 <= a < i && 0 <= b < self.public_holidays@[a].date@.len()
                        ==> !date_obj_in_year(
                        #[trigger] self.public_holidays@[a].date@[b],
                        year as int,
                    ),
            decreases self.public_holidays@.len() - i,
        {
            let dates = &self.public_holidays[i].date;
            let mut j: usize = 0;
            while j < dates.len()
                invariant
                    0 <= j <= dates@.len(),
                    dates@ == self.public_holidays@[i as int].date@,
                    0 <= i < self.public_holidays@.len(),
                    forall|b: int|
                        0 <= b < j ==> !date_obj_in_year(#[trigger] dates@[b], year as int),
                decreases dates@.len() - j,
            {
                let hit = match dates[j] {
                    DateObj::Date(d) => {
                        let (y, _m, _dd) = d.to_ymd();
                        y == year as u64
                    },
                    DateObj::Range(f, t) => {
                        let (fy, _fm, _fd) = f.to_ymd();
                        let (ty, _tm, _td) = t.to_ymd();
                        fy <= year as u64 && year as u64 <= ty
                    },
                };
                if hit {
                    return true;
                }
                j = j + 1;
            }
            i = i + 1;
        }
        false
    }
}

// ---------------------------------------------------------------------------
// parsing dates and date lists
// ---------------------------------------------------------------------------

/// A date field: one to six decimal digits.
pub open spec fn date_field_ok(p: Seq<char>) -> bool {
    1 <= p.len() <= 6 && all_digits(p)
}

/// Meaning of a `YYYY-MM-DD` string: the day number, or `None` when the
/// text is not three digit fields naming a real date in range.
pub open spec fn spec_parse_date(s: Seq<char>) -> Option<int> {
    let parts = split_chars(s, '-');
    if parts.len() == 3 && date_field_ok(parts[0]) && date_field_ok(parts[1]) && date_field_ok(
        parts[2],
    ) {
        let y = digits_val(parts[0]);
        let m = digits_val(parts[1]);
        let d = digits_val(parts[2]);
        if valid_ymd(y, m, d) && y <= MAX_YEAR {
            Some(day_number_of(y, m, d))
        } else {
            None
        }
    } else {
        None
    }
}

/// Index of the first occurrence of `c`, or the length when absent.
pub open spec fn find_char(s: Seq<char>, c: char) -> int
    decreases s.len(),
{
    if s.len() == 0 {
        0
    } else if s[0] == c {
        0
    } else {
        1 + find_char(s.drop_first(), c)
    }
}

pub proof fn lemma_find_char(s: Seq<char>, c: char)
    ensures
        0 <= find_char(s, c) <= s.len(),
        find_char(s, c) < s.len() ==> s[find_char(s, c)] == c,
        forall|j: int| 0 <= j < find_char(s, c) ==> s[j] != c,
    decreases s.len(),
{
    if s.len() > 0 && s[0] != c {
        lemma_find_char(s.drop_first(), c);
        assert forall|j: int| 0 <= j < find_char(s, c) implies s[j] != c by {
            if j > 0 {
                assert(s.drop_first()[j - 1] == s[j]);
            }
        }
    }
}

/// Meaning of one element of a date list: a date, or `from:to` for an
/// inclusive range split at the first `:`.
pub open spec fn spec_parse_date_obj(p: Seq<char>) -> Option<DateObj> {
    let i = find_char(p, ':');
    if i < p.len() {
        match (spec_parse_date(p.subrange(0, i)), spec_parse_date(
            p.subrange(i + 1, p.len() as int),
        )) {
            (Some(f), Some(t)) => Some(DateObj::Range(Date { day: f as u64 }, Date { day: t as u64 })),
            _ => None,
        }
    } else {
        match spec_parse_date(p) {
            Some(d) => Some(DateObj::Date(Date { day: d as u64 })),
            None => None,
        }
    }
}

/// Meaning of a comma-separated date list: blank elements are skipped;
/// every other element must be a date or a range.
pub open spec fn spec_parse_multidate_parts(parts: Seq<Seq<char>>) -> Option<Seq<DateObj>>
    decreases parts.len(),
{
    if parts.len() == 0 {
        Some(Seq::empty())
    } else {
        match spec_parse_multidate_parts(parts.drop_last()) {
            None => None,
            Some(pre) => {
                let p = parts.last();
                if is_blank(p) {
                    Some(pre)
                } else {
                    match spec_parse_date_obj(p) {
                        Some(o) => Some(pre.push(o)),
                        None => None,
                    }
                }
            },
        }
    }
}

pub open spec fn spec_parse_multidate(s: Seq<char>) -> Option<Seq<DateObj>> {
    spec_parse_multidate_parts(split_chars(s, ','))
}

/// Parses a single `YYYY-MM-DD` date.
pub fn parse_date_entry(s: &str) -> (r: Result<Date, ParseError>)
    ensures
        match spec_parse_date(s@) {
            Some(day) => r matches Ok(dt) && dt.day == day,
            None => r is Err,
        },
{
    let parts = split_str(s, '-');
    if parts.len() != 3 {
        return Err(ParseError::InvalidDate);
    }
    assert(parts@[0]@ == split_chars(s@, '-')[0]);
    assert(parts@[1]@ == split_chars(s@, '-')[1]);
    assert(parts@[2]@ == split_chars(s@, '-')[2]);
    let y = match parse_digits(&parts[0]) {
        Some(v) => v,
        None => {
            return Err(ParseError::InvalidDate);
        },
    };
    let m = match parse_digits(&parts[1]) {
        Some(v) => v,
        None => {
            return Err(ParseError::InvalidDate);
        },
    };
    let d = match parse_digits(&parts[2]) {
        Some(v) => v,
        None => {
            return Err(ParseError::InvalidDate);
        },
    };
    match Date::from_ymd(y, m, d) {
        Some(dt) => Ok(dt),
        None => Err(ParseError::InvalidDate),
    }
}

/// Parses one non-blank element of a date list.
fn parse_date_obj(p: &String) -> (r: Result<DateObj, ParseError>)
    ensures
        match spec_parse_date_obj(p@) {
            Some(o) => r matches Ok(v) && v == o,
            None => r is Err,
        },
{
    proof {
        lemma_find_char(p@, ':');
    }
    let n = p.as_str().unicode_len();
    let mut i: usize = 0;
    while i < n && p.as_str().get_char(i) != ':'
        invariant
            n == p@.len(),
            0 <= i <= n,
            forall|j: int| 0 <= j < i ==> p@[j] != ':',
        decreases n - i,
    {
        i = i + 1;
    }
    proof {
        if i < n {
            assert(find_char(p@, ':') == i) by {
                lemma_find_char(p@, ':');
                if find_char(p@, ':') < i {
                    assert(p@[find_char(p@, ':')] == ':');
                }
            }
        } else {
            assert(find_char(p@, ':') == n) by {
                lemma_find_char(p@, ':');
                if find_char(p@, ':') < n {
                    assert(p@[find_char(p@, ':')] == ':');
                }
            }
        }
    }
    if i < n {
        let from_part = p.as_str().substring_char(0, i);
        let to_part = p.as_str().substring_char(i + 1, n);
        let f = match parse_date_entry(from_part) {
            Ok(v) => v,
            Err(e) => {
                return Err(e);
            },
        };
        let t = match parse_date_entry(to_part) {
            Ok(v) => v,
            Err(e) => {
                return Err(e);
            },
        };
        Ok(DateObj::Range(f, t))
    } else {
        match parse_date_entry(p.as_str()) {
            Ok(v) => Ok(DateObj::Date(v)),
            Err(e) => Err(e),
        }
    }
}

/// Parses a comma-separated list of dates and inclusive ranges.
pub fn parse_multidate_entry(s: &str) -> (r: Result<Vec<DateObj>, ParseError>)
    ensures
        match spec_parse_multidate(s@) {
            Some(objs) => r matches Ok(v) && v@ == objs,
            None => r is Err,
        },
{
    let parts = split_str(s, ',');
    let ghost sparts = split_chars(s@, ',');
    let mut out: Vec<DateObj> = Vec::new();
    let mut i: usize = 0;
    while i < parts.len()
        invariant
            sparts == split_chars(s@, ','),
            parts.deep_view() == sparts,
            0 <= i <= parts@.len(),
            spec_parse_multidate_parts(sparts.subrange(0, i as int)) == Some(out@),
        decreases parts@.len() - i,
    {
        assert(parts@[i as int]@ == sparts[i as int]);
        proof {
            assert(sparts.subrange(0, i as int + 1).drop_last() =~= sparts.subrange(0, i as int));
            assert(sparts.subrange(0, i as int + 1).last() == sparts[i as int]);
        }
        if !str_is_blank(&parts[i]) {
            match parse_date_obj(&parts[i]) {
                Ok(o) => {
                    out.push(o);
                },
                Err(e) => {
                    proof {
                        assert(spec_parse_multidate_parts(sparts.subrange(0, i as int + 1)) is None);
                        lemma_multidate_prefix_none(sparts, i as int + 1);
                    }
                    return Err(e);
                },
            }
        }
        i = i + 1;
    }
    proof {
        assert(sparts.subrange(0, parts@.len() as int) =~= sparts);
    }
    Ok(out)
}

/// Once a prefix of the part list fails to parse, the whole list fails.
proof fn lemma_multidate_prefix_none(parts: Seq<Seq<char>>, k: int)
    requires
        0 <= k <= parts.len(),
        spec_parse_multidate_parts(parts.subrange(0, k)) is None,
    ensures
        spec_parse_multidate_parts(parts) is None,
    decreases parts.len() - k,
{
    if k < parts.len() {
        assert(parts.subrange(0, k + 1).drop_last() =~= parts.subrange(0, k));
        lemma_multidate_prefix_none(parts, k + 1);
    } else {
        assert(parts.subrange(0, k) =~= parts);
    }
}

} // verus!
