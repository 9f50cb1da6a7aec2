use planner::calendar::{BusinessDaysCalendar, DateObj, DayInfo, PublicHoliday, in_date_obj_vec};
use planner::dates::{Date, Weekday};

fn d(y: u64, m: u64, day: u64) -> Date {
    Date::from_ymd(y, m, day).unwrap()
}

fn cal_with_holiday() -> BusinessDaysCalendar {
    BusinessDaysCalendar {
        closed_days: vec![Weekday::Saturday, Weekday::Sunday],
        working_hrs_in_day: 8,
        public_holidays: vec![
            PublicHoliday { date: vec![DateObj::Date(d(2024, 1, 2))], name: "holiday".to_string() },
            PublicHoliday {
                date: vec![DateObj::Range(d(2024, 12, 24), d(2024, 12, 26))],
                name: "midwinter".to_string(),
            },
        ],
    }
}

#[test]
fn day_classification_precedence() {
    let cal = cal_with_holiday();
    // 2024-01-06 is a Saturday: closed weekday wins.
    assert_eq!(cal.day_info(&d(2024, 1, 6)), DayInfo::NonWorking);
    // 2024-01-02 is a Tuesday public holiday.
    assert_eq!(cal.day_info(&d(2024, 1, 2)), DayInfo::NonWorkingPubHoliday);
    // range holidays match inclusively; 2024-12-25 is a Wednesday.
    assert_eq!(cal.day_info(&d(2024, 12, 25)), DayInfo::NonWorkingPubHoliday);
    // an ordinary Wednesday works the calendar's nominal hours
    assert_eq!(cal.day_info(&d(2024, 1, 3)), DayInfo::WorkingDay(8));
    // the day before a range starts is not covered
    assert_eq!(cal.day_info(&d(2024, 12, 23)), DayInfo::WorkingDay(8));
}

#[test]
fn date_list_membership() {
    let dates = vec![
        DateObj::Date(d(2024, 3, 1)),
        DateObj::Range(d(2024, 5, 10), d(2024, 5, 12)),
    ];
    assert!(in_date_obj_vec(&d(2024, 3, 1), &dates));
    assert!(!in_date_obj_vec(&d(2024, 3, 2), &dates));
    assert!(in_date_obj_vec(&d(2024, 5, 10), &dates));
    assert!(in_date_obj_vec(&d(2024, 5, 12), &dates));
    assert!(!in_date_obj_vec(&d(2024, 5, 13), &dates));
}

#[test]
fn year_coverage() {
    let cal = cal_with_holiday();
    assert!(cal.year_covered(2024));
    assert!(!cal.year_covered(2023));
    let empty = BusinessDaysCalendar {
        closed_days: vec![],
        working_hrs_in_day: 8,
        public_holidays: vec![],
    };
    assert!(!empty.year_covered(2024));
}
