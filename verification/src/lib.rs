//! A work-schedule planner: builds a dependency graph of estimated tasks,
//! advances each task through its assignee's business calendar with
//! fractional-day burn-down accounting, and derives a per-worker,
//! per-day resource ledger.
//!
//! Fractional quantities (day fractions, focus factors, hours) are held in
//! fixed-point milli-units: a value of 1000 stands for 1.0.

pub mod text;
pub mod seqs;
pub mod dates;
pub mod calendar;
pub mod cfg;
pub mod project;
pub mod gantt_builder;
pub mod backend_plantuml;
pub mod laws;

pub use dates::Date;
pub use dates::Weekday;
