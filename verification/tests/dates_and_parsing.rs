use planner::dates::{Date, Weekday, MAX_YEAR};
use planner::calendar::{parse_date_entry, parse_multidate_entry, DateObj};
use planner::project::parse_vec_str;

fn d(y: u64, m: u64, day: u64) -> Date {
    Date::from_ymd(y, m, day).unwrap()
}

#[test]
fn ymd_roundtrip_known_days() {
    // 0001-01-01 is day zero, a Monday.
    assert_eq!(d(1, 1, 1).day, 0);
    assert_eq!(d(1, 1, 1).weekday(), Weekday::Monday);
    // 2024-01-01 was a Monday.
    let nyd = d(2024, 1, 1);
    assert_eq!(nyd.day, 738885);
    assert_eq!(nyd.weekday(), Weekday::Monday);
    assert_eq!(nyd.to_ymd(), (2024, 1, 1));
    // 1970-01-01 was a Thursday.
    let epoch = d(1970, 1, 1);
    assert_eq!(epoch.day, 719162);
    assert_eq!(epoch.weekday(), Weekday::Thursday);
}

#[test]
fn ymd_leap_years() {
    assert_eq!(d(2024, 2, 29).to_ymd(), (2024, 2, 29));
    assert!(Date::from_ymd(2023, 2, 29).is_none());
    // 1900 is no leap year, 2000 is.
    assert!(Date::from_ymd(1900, 2, 29).is_none());
    assert_eq!(d(2000, 2, 29).to_ymd(), (2000, 2, 29));
    assert_eq!(d(2024, 2, 29).add_days(1).to_ymd(), (2024, 3, 1));
    assert_eq!(d(2023, 12, 31).add_days(1).to_ymd(), (2024, 1, 1));
}

#[test]
fn ymd_rejects_invalid() {
    assert!(Date::from_ymd(0, 1, 1).is_none());
    assert!(Date::from_ymd(2024, 0, 1).is_none());
    assert!(Date::from_ymd(2024, 13, 1).is_none());
    assert!(Date::from_ymd(2024, 4, 31).is_none());
    assert!(Date::from_ymd(MAX_YEAR + 1, 1, 1).is_none());
}

#[test]
fn parse_single_date() {
    assert_eq!(parse_date_entry("2024-01-01").unwrap(), d(2024, 1, 1));
    assert_eq!(parse_date_entry("2024-2-9").unwrap(), d(2024, 2, 9));
    assert!(parse_date_entry("2024-01").is_err());
    assert!(parse_date_entry("2024-01-01-01").is_err());
    assert!(parse_date_entry("2024-01-xx").is_err());
    assert!(parse_date_entry("").is_err());
    assert!(parse_date_entry("2024-02-30").is_err());
}

#[test]
fn parse_multidate_lists() {
    let v = parse_multidate_entry("2024-01-01,2024-02-01:2024-02-05").unwrap();
    assert_eq!(v.len(), 2);
    assert_eq!(v[0], DateObj::Date(d(2024, 1, 1)));
    assert_eq!(v[1], DateObj::Range(d(2024, 2, 1), d(2024, 2, 5)));
    // blank elements are skipped
    let v2 = parse_multidate_entry("2024-01-01, ,").unwrap();
    assert_eq!(v2.len(), 1);
    let v3 = parse_multidate_entry("").unwrap();
    assert_eq!(v3.len(), 0);
    // a bad element fails the whole list
    assert!(parse_multidate_entry("2024-01-01,nope").is_err());
    assert!(parse_multidate_entry("2024-01-01:oops").is_err());
}

#[test]
fn parse_identifier_lists() {
    let v = parse_vec_str(" t1, t2 ,,t3 ");
    assert_eq!(v, vec!["t1".to_string(), "t2".to_string(), "t3".to_string()]);
    let empty = parse_vec_str("  ");
    assert_eq!(empty.len(), 0);
}
