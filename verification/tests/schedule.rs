use planner::calendar::{BusinessDaysCalendar, DateObj, PublicHoliday};
use planner::cfg::{BackendConfig, Colors, Config, PlantUMLConfig};
use planner::dates::{Date, Weekday};
use planner::gantt_builder::{process, GanttData, Hours, ProcessError, WorkerDay};
use planner::project::{Assignment, ProjectConfig, Task, TeamMember};
use planner::backend_plantuml::build_chart;

fn d(y: u64, m: u64, day: u64) -> Date {
    Date::from_ymd(y, m, day).unwrap()
}

fn base_calendar(holidays: Vec<DateObj>) -> BusinessDaysCalendar {
    BusinessDaysCalendar {
        closed_days: vec![Weekday::Saturday, Weekday::Sunday],
        working_hrs_in_day: 8,
        public_holidays: vec![PublicHoliday { date: holidays, name: "public".to_string() }],
    }
}

fn member(name: &str, focus_milli: u32) -> TeamMember {
    TeamMember {
        name: name.to_string(),
        base_calendar: "cal".to_string(),
        focus_factor: focus_milli,
        holidays: vec![],
        other_duties: vec![],
    }
}

fn task(id: &str, estimate_milli_days: u64, after: Vec<&str>) -> Task {
    Task {
        id: id.to_string(),
        name: format!("task {id}"),
        estimate: estimate_milli_days,
        after: after.into_iter().map(|s| s.to_string()).collect(),
    }
}

fn assign(task: &str, owner: &str) -> Assignment {
    Assignment { task: task.to_string(), owner: owner.to_string(), focus_factor: None }
}

fn project(start: Date, team: Vec<TeamMember>, tasks: Vec<Task>, assignments: Vec<Assignment>) -> ProjectConfig {
    ProjectConfig {
        project_name: "test project".to_string(),
        start_date: start,
        team,
        tasks,
        assignments,
        time_markers: None,
    }
}

fn test_cfg() -> Config {
    Config {
        backend: BackendConfig {
            plantuml: PlantUMLConfig {
                use_api: false,
                api_url: String::new(),
                local_cmd: String::new(),
            },
            colors: Colors {
                worker_pub_holidays: "lightblue".to_string(),
                worker_holidays: "lightgreen".to_string(),
                worker_other_duties: "lightgray".to_string(),
                worker_overloaded: "red".to_string(),
                worker_underloaded: "yellow".to_string(),
                worker_fine: "green".to_string(),
                worker_unassigned: "white".to_string(),
                time_markers: "blue".to_string(),
            },
        },
    }
}

fn calendars(holidays: Vec<DateObj>) -> Vec<(String, BusinessDaysCalendar)> {
    vec![("cal".to_string(), base_calendar(holidays))]
}

fn ledger_entry(g: &GanttData, worker: &str, date: Date) -> (Hours, WorkerDay) {
    for wa in &g.resource_allocation.0 {
        if wa.worker == worker {
            for rec in &wa.days {
                if rec.date == date {
                    return (rec.hours, rec.day);
                }
            }
        }
    }
    panic!("no ledger record for {worker}");
}

#[test]
fn single_full_day_task() {
    // one task of one day on a plain working Monday
    let proj = project(
        d(2024, 1, 1),
        vec![member("W", 1000)],
        vec![task("t1", 1000, vec![])],
        vec![assign("t1", "W")],
    );
    let g = process(&test_cfg(), &proj, &calendars(vec![])).unwrap();
    assert_eq!(g.tasks.len(), 1);
    assert_eq!(g.tasks[0].start_on, d(2024, 1, 1));
    assert_eq!(g.tasks[0].end_on, d(2024, 1, 1));
    assert_eq!(g.tasks[0].duration_hours, 24);
    assert_eq!(g.tasks[0].pause_days.len(), 0);
    assert_eq!(ledger_entry(&g, "W", d(2024, 1, 1)), (Hours(8000), WorkerDay::Fine));
}

#[test]
fn dependent_task_starts_next_day() {
    // t2 depends on t1; t1 ends with cumulative offset one day
    let proj = project(
        d(2024, 1, 1),
        vec![member("W", 1000)],
        vec![task("t1", 1000, vec![]), task("t2", 1000, vec!["t1"])],
        vec![assign("t1", "W"), assign("t2", "W")],
    );
    let g = process(&test_cfg(), &proj, &calendars(vec![])).unwrap();
    assert_eq!(g.tasks.len(), 2);
    let t2 = g.tasks.iter().find(|t| t.id == "t2").unwrap();
    assert_eq!(t2.start_on, d(2024, 1, 2));
    assert_eq!(t2.end_on, d(2024, 1, 2));
}

#[test]
fn public_holiday_pauses_task() {
    // a two-day task over a public holiday on Tuesday 2024-01-02
    let hol = vec![DateObj::Date(d(2024, 1, 2))];
    let proj = project(
        d(2024, 1, 1),
        vec![member("W", 1000)],
        vec![task("t1", 2000, vec![])],
        vec![assign("t1", "W")],
    );
    let with_holiday = process(&test_cfg(), &proj, &calendars(hol)).unwrap();
    let without_holiday = process(&test_cfg(), &proj, &calendars(vec![])).unwrap();
    // one calendar day later than it would be without the holiday
    assert_eq!(without_holiday.tasks[0].end_on, d(2024, 1, 2));
    assert_eq!(with_holiday.tasks[0].end_on, d(2024, 1, 3));
    assert_eq!(with_holiday.tasks[0].pause_days, vec![d(2024, 1, 2)]);
    assert_eq!(with_holiday.public_holidays, vec![d(2024, 1, 2)]);
    assert_eq!(
        ledger_entry(&with_holiday, "W", d(2024, 1, 2)),
        (Hours(0), WorkerDay::PubHolidays),
    );
}

#[test]
fn double_booking_is_overloaded() {
    // two independent one-day tasks for the same worker on 2024-02-05
    let proj = project(
        d(2024, 2, 5),
        vec![member("W", 1000)],
        vec![task("t1", 1000, vec![]), task("t2", 1000, vec![])],
        vec![assign("t1", "W"), assign("t2", "W")],
    );
    let g = process(&test_cfg(), &proj, &calendars(vec![])).unwrap();
    let (h, class) = ledger_entry(&g, "W", d(2024, 2, 5));
    assert_eq!(h, Hours(16000));
    assert_eq!(class, WorkerDay::Overloaded);
}

#[test]
fn half_focus_doubles_span() {
    // focus factor 0.5: a one-day estimate burns over two calendar days
    let proj = project(
        d(2024, 1, 1),
        vec![member("W", 500)],
        vec![task("t1", 1000, vec![])],
        vec![assign("t1", "W")],
    );
    let g = process(&test_cfg(), &proj, &calendars(vec![])).unwrap();
    assert_eq!(g.tasks[0].start_on, d(2024, 1, 1));
    assert_eq!(g.tasks[0].end_on, d(2024, 1, 2));
    assert_eq!(ledger_entry(&g, "W", d(2024, 1, 1)), (Hours(8000), WorkerDay::Fine));
}

#[test]
fn fractional_day_splits_between_tasks() {
    // t1 takes half a day; t2 starts on the same day's leftover half
    let proj = project(
        d(2024, 1, 1),
        vec![member("W", 1000)],
        vec![task("t1", 500, vec![]), task("t2", 1000, vec!["t1"])],
        vec![assign("t1", "W"), assign("t2", "W")],
    );
    let g = process(&test_cfg(), &proj, &calendars(vec![])).unwrap();
    let t1 = g.tasks.iter().find(|t| t.id == "t1").unwrap();
    let t2 = g.tasks.iter().find(|t| t.id == "t2").unwrap();
    assert_eq!(t1.start_on, d(2024, 1, 1));
    assert_eq!(t1.end_on, d(2024, 1, 1));
    // t2 uses the second half of Monday and half of Tuesday
    assert_eq!(t2.start_on, d(2024, 1, 1));
    assert_eq!(t2.end_on, d(2024, 1, 2));
    let (h, class) = ledger_entry(&g, "W", d(2024, 1, 1));
    assert_eq!(h, Hours(8000));
    assert_eq!(class, WorkerDay::Fine);
    // the leftover half of Tuesday stays underloaded
    let (h2, class2) = ledger_entry(&g, "W", d(2024, 1, 2));
    assert_eq!(h2, Hours(4000));
    assert_eq!(class2, WorkerDay::Underloaded);
    // duration is twenty-four hours per estimated day
    assert_eq!(t1.duration_hours, 12);
    assert_eq!(t2.duration_hours, 24);
}

#[test]
fn weekend_pauses_task() {
    // a task started on Friday spills over the weekend
    // 2024-01-05 is a Friday
    let proj = project(
        d(2024, 1, 5),
        vec![member("W", 1000)],
        vec![task("t1", 2000, vec![])],
        vec![assign("t1", "W")],
    );
    let g = process(&test_cfg(), &proj, &calendars(vec![])).unwrap();
    assert_eq!(g.tasks[0].start_on, d(2024, 1, 5));
    assert_eq!(g.tasks[0].end_on, d(2024, 1, 8));
    assert_eq!(g.tasks[0].pause_days, vec![d(2024, 1, 6), d(2024, 1, 7)]);
}

#[test]
fn finalize_fills_every_span_day() {
    // the project spans Friday to Monday; the weekend days get records
    let proj = project(
        d(2024, 1, 5),
        vec![member("W", 1000)],
        vec![task("t1", 2000, vec![])],
        vec![assign("t1", "W")],
    );
    let g = process(&test_cfg(), &proj, &calendars(vec![])).unwrap();
    let wa = &g.resource_allocation.0[0];
    assert_eq!(wa.worker, "W");
    assert_eq!(wa.days.len(), 4);
    for (i, rec) in wa.days.iter().enumerate() {
        assert_eq!(rec.date, d(2024, 1, 5).add_days(i as u64));
    }
    assert_eq!(wa.days[0].day, WorkerDay::Fine);
    // the weekend was booked at zero hours under the pause classification
    assert_eq!(wa.days[1].hours, Hours(0));
    assert_eq!(wa.days[2].hours, Hours(0));
    assert_eq!(wa.days[3].day, WorkerDay::Fine);
}

#[test]
fn worker_absence_pauses_task() {
    // a personal holiday on Tuesday pauses the task without a public holiday
    let mut w = member("W", 1000);
    w.holidays = vec![DateObj::Date(d(2024, 1, 2))];
    let proj = project(
        d(2024, 1, 1),
        vec![w],
        vec![task("t1", 2000, vec![])],
        vec![assign("t1", "W")],
    );
    let g = process(&test_cfg(), &proj, &calendars(vec![])).unwrap();
    assert_eq!(g.tasks[0].end_on, d(2024, 1, 3));
    assert_eq!(g.public_holidays.len(), 0);
    assert_eq!(g.workers_absence.len(), 1);
    assert_eq!(g.workers_absence[0].worker, "W");
    assert_eq!(g.workers_absence[0].dates, vec![d(2024, 1, 2)]);
    assert_eq!(ledger_entry(&g, "W", d(2024, 1, 2)), (Hours(0), WorkerDay::Holidays));
}

#[test]
fn unknown_dependency_is_fatal() {
    let proj = project(
        d(2024, 1, 1),
        vec![member("W", 1000)],
        vec![task("t1", 1000, vec!["ghost"])],
        vec![assign("t1", "W")],
    );
    let r = process(&test_cfg(), &proj, &calendars(vec![]));
    assert_eq!(r.unwrap_err(), ProcessError::UnknownDependency("ghost".to_string()));
}

#[test]
fn missing_assignment_is_fatal() {
    let proj = project(d(2024, 1, 1), vec![member("W", 1000)], vec![task("t1", 1000, vec![])], vec![]);
    let r = process(&test_cfg(), &proj, &calendars(vec![]));
    assert_eq!(r.unwrap_err(), ProcessError::TaskNotAssigned("t1".to_string()));
}

#[test]
fn unknown_worker_is_fatal() {
    let proj = project(
        d(2024, 1, 1),
        vec![member("W", 1000)],
        vec![task("t1", 1000, vec![])],
        vec![assign("t1", "X")],
    );
    let r = process(&test_cfg(), &proj, &calendars(vec![]));
    assert_eq!(r.unwrap_err(), ProcessError::UnknownWorker("X".to_string()));
}

#[test]
fn unknown_calendar_is_fatal() {
    let mut w = member("W", 1000);
    w.base_calendar = "elsewhere".to_string();
    let proj = project(
        d(2024, 1, 1),
        vec![w],
        vec![task("t1", 1000, vec![])],
        vec![assign("t1", "W")],
    );
    let r = process(&test_cfg(), &proj, &calendars(vec![]));
    assert_eq!(r.unwrap_err(), ProcessError::UnknownCalendar("elsewhere".to_string()));
}

#[test]
fn dependency_cycle_is_fatal() {
    let proj = project(
        d(2024, 1, 1),
        vec![member("W", 1000)],
        vec![task("t1", 1000, vec!["t2"]), task("t2", 1000, vec!["t1"])],
        vec![assign("t1", "W"), assign("t2", "W")],
    );
    let r = process(&test_cfg(), &proj, &calendars(vec![]));
    assert_eq!(r.unwrap_err(), ProcessError::CyclicDependency);
}

#[test]
fn identical_input_renders_identically() {
    let make = || {
        project(
            d(2024, 1, 1),
            vec![member("W", 800), member("V", 1000)],
            vec![
                task("t1", 1500, vec![]),
                task("t2", 2500, vec!["t1"]),
                task("t3", 1000, vec![]),
            ],
            vec![assign("t1", "W"), assign("t2", "V"), assign("t3", "W")],
        )
    };
    let cfg = test_cfg();
    let g1 = process(&cfg, &make(), &calendars(vec![])).unwrap();
    let g2 = process(&cfg, &make(), &calendars(vec![])).unwrap();
    assert_eq!(build_chart(&cfg, &g1), build_chart(&cfg, &g2));
}
