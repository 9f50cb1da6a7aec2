//! Project definitions: tasks with estimates and dependencies, team
//! members with calendars and absence overlays, assignments, and
//! pass-through time markers.
//!
//! Fractional quantities are fixed-point milli-units: a `focus_factor` of
//! 1000 is a full focus of 1.0, and an `estimate` of 1500 is one and a
//! half nominal working days.

use vstd::prelude::*;
use crate::calendar::DateObj;
use crate::dates::Date;
use crate::text::{split_chars, split_str, trim_chars, trim_str, is_blank, str_is_blank};

verus! {

/// A team member.  `focus_factor` is in milli-units within (0, 1000].
#[derive(Debug)]
pub struct TeamMember {
    pub name: String,
    pub base_calendar: String,
    pub focus_factor: u32,
    pub holidays: Vec<DateObj>,
    pub other_duties: Vec<DateObj>,
}

/// A task to schedule.  `estimate` is in milli-days.
#[derive(Debug)]
pub struct Task {
    pub id: String,
    pub name: String,
    pub estimate: u64,
    pub after: Vec<String>,
}

/// Assigns a task to a worker, optionally overriding the worker's focus
/// factor (milli-units).
#[derive(Debug)]
pub struct Assignment {
    pub task: String,
    pub owner: String,
    pub focus_factor: Option<u32>,
}

/// A labelled marker passed through to the rendering backend unchanged.
#[derive(Debug)]
pub struct TimeMarker {
    pub time: Vec<DateObj>,
    pub label: String,
    pub color: Option<String>,
}

/// A whole project: name, start date, team, tasks, assignments, markers.
#[derive(Debug)]
pub struct ProjectConfig {
    pub project_name: String,
    pub start_date: Date,
    pub team: Vec<TeamMember>,
    pub tasks: Vec<Task>,
    pub assignments: Vec<Assignment>,
    pub time_markers: Option<Vec<TimeMarker>>,
}

/// Meaning of a comma-separated identifier list: elements are trimmed,
/// and blank elements are dropped.
pub open spec fn spec_vec_str_parts(parts: Seq<Seq<char>>) -> Seq<Seq<char>>
    decreases parts.len(),
{
    if parts.len() == 0 {
        Seq::empty()
    } else {
        let pre = spec_vec_str_parts(parts.drop_last());
        if is_blank(parts.last()) {
            pre
        } else {
            pre.push(trim_chars(parts.last()))
        }
    }
}

pub open spec fn spec_parse_vec_str(s: Seq<char>) -> Seq<Seq<char>> {
    spec_vec_str_parts(split_chars(s, ','))
}

/// Parses a comma-separated identifier list.
pub fn parse_vec_str(s: &str) -> (r: Vec<String>)
    ensures
        r.deep_view() == spec_parse_vec_str(s@),
{
    let parts = split_str(s, ',');
    let ghost sparts = split_chars(s@, ',');
    let mut out: Vec<String> = Vec::new();
    let mut i: usize = 0;
    while i < parts.len()
        invariant
            sparts == split_chars(s@, ','),
            parts.deep_view() == sparts,
            0 <= i <= parts@.len(),
            out.deep_view() == spec_vec_str_parts(sparts.subrange(0, i as int)),
        decreases parts@.len() - i,
    {
        assert(parts@[i as int]@ == sparts[i as int]);
        proof {
            assert(sparts.subrange(0, i as int + 1).drop_last() =~= sparts.subrange(0, i as int));
            assert(sparts.subrange(0, i as int + 1).last() == sparts[i as int]);
        }
        if !str_is_blank(&parts[i]) {
            let t = trim_str(&parts[i]);
            out.push(t);
            assert(out.deep_view() =~= spec_vec_str_parts(sparts.subrange(0, i as int + 1)));
        }
        i = i + 1;
    }
    proof {
        assert(sparts.subrange(0, parts@.len() as int) =~= sparts);
    }
    out
}

} // verus!
