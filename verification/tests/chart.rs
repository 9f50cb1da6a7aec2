use planner::backend_plantuml::build_chart;
use planner::calendar::BusinessDaysCalendar;
use planner::cfg::{BackendConfig, Colors, Config, PlantUMLConfig};
use planner::dates::{Date, Weekday};
use planner::gantt_builder::{process, GanttData, ResourceAllocation};
use planner::project::{Assignment, ProjectConfig, Task, TeamMember};

fn d(y: u64, m: u64, day: u64) -> Date {
    Date::from_ymd(y, m, day).unwrap()
}

fn test_cfg() -> Config {
    Config {
        backend: BackendConfig {
            plantuml: PlantUMLConfig {
                use_api: false,
                api_url: String::new(),
                local_cmd: String::new(),
            },
            colors: Colors {
                worker_pub_holidays: "lightblue".to_string(),
                worker_holidays: "lightgreen".to_string(),
                worker_other_duties: "lightgray".to_string(),
                worker_overloaded: "red".to_string(),
                worker_underloaded: "yellow".to_string(),
                worker_fine: "green".to_string(),
                worker_unassigned: "white".to_string(),
                time_markers: "blue".to_string(),
            },
        },
    }
}

#[test]
fn empty_schedule_script_is_exact() {
    let data = GanttData {
        title: "P".to_string(),
        tasks: vec![],
        project_starts: d(2024, 1, 1),
        closed_days: vec![Weekday::Saturday],
        workers_absence: vec![],
        public_holidays: vec![],
        resource_allocation: ResourceAllocation(vec![]),
        time_markers: vec![],
    };
    let script = build_chart(&test_cfg(), &data);
    let expected = "@startgantt\ntitle P\nsaturday are closed\nhide ressources footbox\n\
\nProject starts 2024-01-01\n\n\n\nlegend\nResource allocation legend:\n\
|= Color |= Day Type |\n|<#lightblue>| PubHolidays |\n|<#lightgreen>| Holidays |\n\
|<#lightgray>| OtherDuties |\n|<#red>| Overloaded |\n|<#yellow>| Underloaded |\n\
|<#green>| Fine |\n|<#white>| Unassigned |\nend legend\n@endgantt\n";
    assert_eq!(script, expected);
}

#[test]
fn scheduled_task_appears_in_script() {
    let proj = ProjectConfig {
        project_name: "demo".to_string(),
        start_date: d(2024, 1, 1),
        team: vec![TeamMember {
            name: "W".to_string(),
            base_calendar: "cal".to_string(),
            focus_factor: 1000,
            holidays: vec![],
            other_duties: vec![],
        }],
        tasks: vec![Task {
            id: "t1".to_string(),
            name: "first".to_string(),
            estimate: 1000,
            after: vec![],
        }],
        assignments: vec![Assignment {
            task: "t1".to_string(),
            owner: "W".to_string(),
            focus_factor: None,
        }],
        time_markers: None,
    };
    let cals = vec![(
        "cal".to_string(),
        BusinessDaysCalendar { closed_days: vec![], working_hrs_in_day: 8, public_holidays: vec![] },
    )];
    let cfg = test_cfg();
    let g = process(&cfg, &proj, &cals).unwrap();
    let script = build_chart(&cfg, &g);
    assert!(script.contains("title demo\n"));
    assert!(script.contains("[first] as [t1] on {W} starts 2024-01-01\n"));
    assert!(script.contains("[t1] ends at 2024-01-01\n"));
    assert!(script.contains("-- W --\n"));
    assert!(script.contains("[.] as [W_0] starts 2024-01-01 and requires 1 days\n"));
    assert!(script.contains("[W_0] is colored in green\n"));
}
