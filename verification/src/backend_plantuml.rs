//! Renders a schedule as a PlantUML Gantt script.  The script text is
//! pinned down, character for character, by `spec_chart`.

use vstd::prelude::*;
use crate::calendar::DateObj;
use crate::cfg::{Colors, Config};
use crate::dates::{Weekday, date_chars, push_date, Date};
use crate::gantt_builder::{
    GanttData,
    GanttM,
    AbsenceM,
    LedgerEntryM,
    WorkerLedgerM,
    TaskM,
    TimeMarkerM,
    WorkerDay,
    gantt_model,
};
use crate::text::{dec_chars, push_u64};

verus! {

pub open spec fn weekday_name(w: Weekday) -> Seq<char> {
    match w {
        Weekday::Monday => "monday"@,
        Weekday::Tuesday => "tuesday"@,
        Weekday::Wednesday => "wednesday"@,
        Weekday::Thursday => "thursday"@,
        Weekday::Friday => "friday"@,
        Weekday::Saturday => "saturday"@,
        Weekday::Sunday => "sunday"@,
    }
}

pub open spec fn color_of(c: &Colors, w: WorkerDay) -> Seq<char> {
    match w {
        WorkerDay::PubHolidays => c.worker_pub_holidays@,
        WorkerDay::Holidays => c.worker_holidays@,
        WorkerDay::OtherDuties => c.worker_other_duties@,
        WorkerDay::Overloaded => c.worker_overloaded@,
        WorkerDay::Underloaded => c.worker_underloaded@,
        WorkerDay::Fine => c.worker_fine@,
        WorkerDay::Unassigned => c.worker_unassigned@,
    }
}

// ---------------------------------------------------------------------------
// script lines
// ---------------------------------------------------------------------------

pub open spec fn closed_line(w: Weekday) -> Seq<char> {
    weekday_name(w) + " are closed\n"@
}

pub open spec fn absence_line(w: Seq<char>, d: int) -> Seq<char> {
    "{"@ + w + "} is off on "@ + date_chars(d) + "\n"@
}

pub open spec fn holiday_line(d: int) -> Seq<char> {
    date_chars(d) + " is colored in salmon\n"@
}

pub open spec fn task_start_line(t: TaskM) -> Seq<char> {
    "["@ + t.name + "] as ["@ + t.id + "] on {"@ + t.assignee + "} starts "@ + date_chars(
        t.start_on,
    ) + "\n"@
}

pub open spec fn task_end_line(t: TaskM) -> Seq<char> {
    "["@ + t.id + "] ends at "@ + date_chars(t.end_on) + "\n"@
}

pub open spec fn pause_line(id: Seq<char>, d: int) -> Seq<char> {
    "["@ + id + "] pauses on "@ + date_chars(d) + "\n"@
}

pub open spec fn dep_line(after: Seq<char>, id: Seq<char>) -> Seq<char> {
    "["@ + after + "] -> ["@ + id + "]\n"@
}

pub open spec fn foot_bar_line(w: Seq<char>, idx: int, d: int) -> Seq<char> {
    "[.] as ["@ + w + "_"@ + dec_chars(idx) + "] starts "@ + date_chars(d)
        + " and requires 1 days\n"@
}

pub open spec fn foot_color_line(c: &Colors, w: Seq<char>, idx: int, class: WorkerDay) -> Seq<
    char,
> {
    "["@ + w + "_"@ + dec_chars(idx) + "] is colored in "@ + color_of(c, class) + "\n"@
}

pub open spec fn foot_same_row_line(w: Seq<char>, idx: int) -> Seq<char> {
    "["@ + w + "_"@ + dec_chars(idx) + "] displays on same row as ["@ + w + "_"@ + dec_chars(
        idx - 1,
    ) + "]\n"@
}

pub open spec fn marker_named_line(f: int, t: int, label: Seq<char>) -> Seq<char> {
    date_chars(f) + " to "@ + date_chars(t) + " are named ["@ + label + "]\n"@
}

pub open spec fn marker_color_line(c: &Colors, f: int, t: int) -> Seq<char> {
    date_chars(f) + " to "@ + date_chars(t) + " are colored in "@ + c.time_markers@ + "\n"@
}

pub open spec fn legend_row(color: Seq<char>, rest: Seq<char>) -> Seq<char> {
    "|<#"@ + color + rest
}

pub open spec fn marker_span(o: DateObj) -> (int, int) {
    match o {
        DateObj::Date(d) => (d.day as int, d.day as int),
        DateObj::Range(f, t) => (f.day as int, t.day as int),
    }
}

// ---------------------------------------------------------------------------
// script sections
// ---------------------------------------------------------------------------

/// One `... are closed` line per closing weekday.
pub open spec fn chart_closed(cds: Seq<Weekday>, i: int) -> Seq<char>
    decreases i,
{
    if i <= 0 {
        Seq::empty()
    } else {
        chart_closed(cds, i - 1) + closed_line(cds[i - 1])
    }
}

pub open spec fn chart_absence_dates(w: Seq<char>, dates: Seq<int>, j: int) -> Seq<char>
    decreases j,
{
    if j <= 0 {
        Seq::empty()
    } else {
        chart_absence_dates(w, dates, j - 1) + absence_line(w, dates[j - 1])
    }
}

/// One `is off on` line per recorded absence date.
pub open spec fn chart_absence(abs: Seq<AbsenceM>, i: int) -> Seq<char>
    decreases i,
{
    if i <= 0 {
        Seq::empty()
    } else {
        chart_absence(abs, i - 1) + chart_absence_dates(
            abs[i - 1].worker,
            abs[i - 1].dates,
            abs[i - 1].dates.len() as int,
        )
    }
}

pub open spec fn chart_holidays(hs: Seq<int>, i: int) -> Seq<char>
    decreases i,
{
    if i <= 0 {
        Seq::empty()
    } else {
        chart_holidays(hs, i - 1) + holiday_line(hs[i - 1])
    }
}

pub open spec fn chart_task_pauses(id: Seq<char>, ps: Seq<int>, j: int) -> Seq<char>
    decreases j,
{
    if j <= 0 {
        Seq::empty()
    } else {
        chart_task_pauses(id, ps, j - 1) + pause_line(id, ps[j - 1])
    }
}

/// Start, end and pause lines for each task.
pub open spec fn chart_tasks(ts: Seq<TaskM>, i: int) -> Seq<char>
    decreases i,
{
    if i <= 0 {
        Seq::empty()
    } else {
        let t = ts[i - 1];
        chart_tasks(ts, i - 1) + task_start_line(t) + task_end_line(t) + chart_task_pauses(
            t.id,
            t.pause_days,
            t.pause_days.len() as int,
        )
    }
}

pub open spec fn chart_deps_one(id: Seq<char>, after: Seq<Seq<char>>, j: int) -> Seq<char>
    decreases j,
{
    if j <= 0 {
        Seq::empty()
    } else {
        chart_deps_one(id, after, j - 1) + dep_line(after[j - 1], id)
    }
}

/// One arrow line per dependency edge.
pub open spec fn chart_deps(ts: Seq<TaskM>, i: int) -> Seq<char>
    decreases i,
{
    if i <= 0 {
        Seq::empty()
    } else {
        chart_deps(ts, i - 1) + chart_deps_one(
            ts[i - 1].id,
            ts[i - 1].after,
            ts[i - 1].after.len() as int,
        )
    }
}

pub open spec fn chart_foot_days(c: &Colors, w: Seq<char>, days: Seq<LedgerEntryM>, j: int) -> Seq<
    char,
>
    decreases j,
{
    if j <= 0 {
        Seq::empty()
    } else {
        let same_row = if j - 1 > 0 {
            foot_same_row_line(w, j - 1)
        } else {
            Seq::<char>::empty()
        };
        chart_foot_days(c, w, days, j - 1) + foot_bar_line(w, j - 1, days[j - 1].date)
            + foot_color_line(c, w, j - 1, days[j - 1].class) + same_row
    }
}

/// The per-worker resource footbox: one colored one-day bar per ledger
/// record, all on one row.
pub open spec fn chart_footbox(c: &Colors, led: Seq<WorkerLedgerM>, i: int) -> Seq<char>
    decreases i,
{
    if i <= 0 {
        Seq::empty()
    } else {
        chart_footbox(c, led, i - 1) + ("-- "@ + led[i - 1].worker + " --\n"@) + chart_foot_days(
            c,
            led[i - 1].worker,
            led[i - 1].days,
            led[i - 1].days.len() as int,
        )
    }
}

pub open spec fn chart_marker_times(
    c: &Colors,
    label: Seq<char>,
    times: Seq<DateObj>,
    j: int,
) -> Seq<char>
    decreases j,
{
    if j <= 0 {
        Seq::empty()
    } else {
        let span = marker_span(times[j - 1]);
        chart_marker_times(c, label, times, j - 1) + marker_named_line(span.0, span.1, label)
            + marker_color_line(c, span.0, span.1)
    }
}

pub open spec fn chart_markers(c: &Colors, ms: Seq<TimeMarkerM>, i: int) -> Seq<char>
    decreases i,
{
    if i <= 0 {
        Seq::empty()
    } else {
        chart_markers(c, ms, i - 1) + chart_marker_times(
            c,
            ms[i - 1].label,
            ms[i - 1].time,
            ms[i - 1].time.len() as int,
        )
    }
}

pub open spec fn chart_legend(c: &Colors) -> Seq<char> {
    "\nlegend\n"@ + "Resource allocation legend:\n"@ + "|= Color |= Day Type |\n"@ + legend_row(
        c.worker_pub_holidays@,
        ">| PubHolidays |\n"@,
    ) + legend_row(c.worker_holidays@, ">| Holidays |\n"@) + legend_row(
        c.worker_other_duties@,
        ">| OtherDuties |\n"@,
    ) + legend_row(c.worker_overloaded@, ">| Overloaded |\n"@) + legend_row(
        c.worker_underloaded@,
        ">| Underloaded |\n"@,
    ) + legend_row(c.worker_fine@, ">| Fine |\n"@) + legend_row(
        c.worker_unassigned@,
        ">| Unassigned |\n"@,
    ) + "end legend\n"@
}

/// The whole PlantUML Gantt script for a schedule.
pub open spec fn spec_chart(cfg: &Config, g: GanttM) -> Seq<char> {
    "@startgantt\n"@ + "title "@ + g.title + "\n"@ + chart_closed(
        g.closed_days,
        g.closed_days.len() as int,
    ) + chart_absence(g.workers_absence, g.workers_absence.len() as int)
        + "hide ressources footbox\n"@ + chart_holidays(
        g.public_holidays,
        g.public_holidays.len() as int,
    ) + "\nProject starts "@ + date_chars(g.project_starts) + "\n\n"@ + chart_tasks(
        g.tasks,
        g.tasks.len() as int,
    ) + "\n"@ + chart_deps(g.tasks, g.tasks.len() as int) + chart_footbox(
        &cfg.backend.colors,
        g.ledger,
        g.ledger.len() as int,
    ) + chart_markers(&cfg.backend.colors, g.time_markers, g.time_markers.len() as int)
        + chart_legend(&cfg.backend.colors) + "@endgantt\n"@
}

// ---------------------------------------------------------------------------
// executable line writers
// ---------------------------------------------------------------------------

fn push_weekday_name(s: &mut String, w: Weekday)
    ensures
        final(s)@ == old(s)@ + weekday_name(w),
{
    match w {
        Weekday::Monday => s.append("monday"),
        Weekday::Tuesday => s.append("tuesday"),
        Weekday::Wednesday => s.append("wednesday"),
        Weekday::Thursday => s.append("thursday"),
        Weekday::Friday => s.append("friday"),
        Weekday::Saturday => s.append("saturday"),
        Weekday::Sunday => s.append("sunday"),
    }
}

fn push_color(s: &mut String, c: &Colors, w: WorkerDay)
    ensures
        final(s)@ == old(s)@ + color_of(c, w),
{
    match w {
        WorkerDay::PubHolidays => s.append(c.worker_pub_holidays.as_str()),
        WorkerDay::Holidays => s.append(c.worker_holidays.as_str()),
        WorkerDay::OtherDuties => s.append(c.worker_other_duties.as_str()),
        WorkerDay::Overloaded => s.append(c.worker_overloaded.as_str()),
        WorkerDay::Underloaded => s.append(c.worker_underloaded.as_str()),
        WorkerDay::Fine => s.append(c.worker_fine.as_str()),
        WorkerDay::Unassigned => s.append(c.worker_unassigned.as_str()),
    }
}

fn put_absence_line(s: &mut String, w: &String, d: Date)
    ensures
        final(s)@ == old(s)@ + absence_line(w@, d.day as int),
{
    s.append("{");
    s.append(w.as_str());
    s.append("} is off on ");
    push_date(s, d);
    s.append("\n");
    assert(s@ =~= old(s)@ + absence_line(w@, d.day as int));
}

fn put_holiday_line(s: &mut String, d: Date)
    ensures
        final(s)@ == old(s)@ + holiday_line(d.day as int),
{
    push_date(s, d);
    s.append(" is colored in salmon\n");
    assert(s@ =~= old(s)@ + holiday_line(d.day as int));
}

fn put_task_start_line(s: &mut String, t: &crate::gantt_builder::Task)
    ensures
        final(s)@ == old(s)@ + task_start_line(crate::gantt_builder::task_model(t)),
{
    s.append("[");
    s.append(t.name.as_str());
    s.append("] as [");
    s.append(t.id.as_str());
    assert(s@ =~= old(s)@ + ("["@ + t.name@ + "] as ["@ + t.id@));
    s.append("] on {");
    s.append(t.assignee.as_str());
    s.append("} starts ");
    push_date(s, t.start_on);
    s.append("\n");
    assert(s@ =~= old(s)@ + task_start_line(crate::gantt_builder::task_model(t)));
}

fn put_task_end_line(s: &mut String, t: &crate::gantt_builder::Task)
    ensures
        final(s)@ == old(s)@ + task_end_line(crate::gantt_builder::task_model(t)),
{
    s.append("[");
    s.append(t.id.as_str());
    s.append("] ends at ");
    push_date(s, t.end_on);
    s.append("\n");
    assert(s@ =~= old(s)@ + task_end_line(crate::gantt_builder::task_model(t)));
}

fn put_pause_line(s: &mut String, id: &String, d: Date)
    ensures
        final(s)@ == old(s)@ + pause_line(id@, d.day as int),
{
    s.append("[");
    s.append(id.as_str());
    s.append("] pauses on ");
    push_date(s, d);
    s.append("\n");
    assert(s@ =~= old(s)@ + pause_line(id@, d.day as int));
}

fn put_dep_line(s: &mut String, after: &String, id: &String)
    ensures
        final(s)@ == old(s)@ + dep_line(after@, id@),
{
    s.append("[");
    s.append(after.as_str());
    s.append("] -> [");
    s.append(id.as_str());
    s.append("]\n");
    assert(s@ =~= old(s)@ + dep_line(after@, id@));
}

fn put_foot_bar_line(s: &mut String, w: &String, idx: u64, d: Date)
    ensures
        final(s)@ == old(s)@ + foot_bar_line(w@, idx as int, d.day as int),
{
    s.append("[.] as [");
    s.append(w.as_str());
    s.append("_");
    push_u64(s, idx);
    assert(s@ =~= old(s)@ + ("[.] as ["@ + w@ + "_"@ + dec_chars(idx as int)));
    s.append("] starts ");
    push_date(s, d);
    s.append(" and requires 1 days\n");
    assert(s@ =~= old(s)@ + foot_bar_line(w@, idx as int, d.day as int));
}

fn put_foot_color_line(s: &mut String, c: &Colors, w: &String, idx: u64, class: WorkerDay)
    ensures
        final(s)@ == old(s)@ + foot_color_line(c, w@, idx as int, class),
{
    s.append("[");
    s.append(w.as_str());
    s.append("_");
    push_u64(s, idx);
    assert(s@ =~= old(s)@ + ("["@ + w@ + "_"@ + dec_chars(idx as int)));
    s.append("] is colored in ");
    push_color(s, c, class);
    s.append("\n");
    assert(s@ =~= old(s)@ + foot_color_line(c, w@, idx as int, class));
}

fn put_foot_same_row_line(s: &mut String, w: &String, idx: u64)
    requires
        idx >= 1,
    ensures
        final(s)@ == old(s)@ + foot_same_row_line(w@, idx as int),
{
    s.append("[");
    s.append(w.as_str());
    s.append("_");
    push_u64(s, idx);
    assert(s@ =~= old(s)@ + ("["@ + w@ + "_"@ + dec_chars(idx as int)));
    s.append("] displays on same row as [");
    s.append(w.as_str());
    s.append("_");
    push_u64(s, idx - 1);
    s.append("]\n");
    assert(s@ =~= old(s)@ + foot_same_row_line(w@, idx as int));
}

fn put_marker_named_line(s: &mut String, f: Date, t: Date, label: &String)
    ensures
        final(s)@ == old(s)@ + marker_named_line(f.day as int, t.day as int, label@),
{
    push_date(s, f);
    s.append(" to ");
    push_date(s, t);
    s.append(" are named [");
    s.append(label.as_str());
    s.append("]\n");
    assert(s@ =~= old(s)@ + marker_named_line(f.day as int, t.day as int, label@));
}

fn put_marker_color_line(s: &mut String, c: &Colors, f: Date, t: Date)
    ensures
        final(s)@ == old(s)@ + marker_color_line(c, f.day as int, t.day as int),
{
    push_date(s, f);
    s.append(" to ");
    push_date(s, t);
    s.append(" are colored in ");
    s.append(c.time_markers.as_str());
    s.append("\n");
    assert(s@ =~= old(s)@ + marker_color_line(c, f.day as int, t.day as int));
}

fn put_legend_row(s: &mut String, color: &String, rest: &str)
    ensures
        final(s)@ == old(s)@ + legend_row(color@, rest@),
{
    s.append("|<#");
    s.append(color.as_str());
    s.append(rest);
    assert(s@ =~= old(s)@ + legend_row(color@, rest@));
}

// ---------------------------------------------------------------------------
// executable sections
// ---------------------------------------------------------------------------

#[verifier::loop_isolation(false)]
fn sec_closed(s: &mut String, data: &GanttData)
    ensures
        final(s)@ == old(s)@ + chart_closed(
            gantt_model(data).closed_days,
            gantt_model(data).closed_days.len() as int,
        ),
{
    let ghost g = gantt_model(data);
    let ghost pre = s@;
    let mut i: usize = 0;
    while i < data.closed_days.len()
        invariant
            0 <= i <= data.closed_days@.len(),
            s@ == pre + chart_closed(g.closed_days, i as int),
        decreases data.closed_days@.len() - i,
    {
        push_weekday_name(s, data.closed_days[i]);
        s.append(" are closed\n");
        assert(s@ =~= pre + chart_closed(g.closed_days, i as int + 1));
        i = i + 1;
    }
}

#[verifier::loop_isolation(false)]
fn sec_absence(s: &mut String, data: &GanttData)
    ensures
        final(s)@ == old(s)@ + chart_absence(
            gantt_model(data).workers_absence,
            gantt_model(data).workers_absence.len() as int,
        ),
{
    let ghost g = gantt_model(data);
    let ghost pre = s@;
    let mut wi: usize = 0;
    while wi < data.workers_absence.len()
        invariant
            0 <= wi <= data.workers_absence@.len(),
            s@ == pre + chart_absence(g.workers_absence, wi as int),
        decreases data.workers_absence@.len() - wi,
    {
        let ghost pre_w = s@;
        let ghost wm = g.workers_absence[wi as int];
        let mut j: usize = 0;
        while j < data.workers_absence[wi].dates.len()
            invariant
                0 <= wi < data.workers_absence@.len(),
                0 <= j <= data.workers_absence@[wi as int].dates@.len(),
                wm == g.workers_absence[wi as int],
                s@ == pre_w + chart_absence_dates(wm.worker, wm.dates, j as int),
            decreases data.workers_absence@[wi as int].dates@.len() - j,
        {
            put_absence_line(s, &data.workers_absence[wi].worker, data.workers_absence[wi].dates[j]);
            assert(s@ =~= pre_w + chart_absence_dates(wm.worker, wm.dates, j as int + 1));
            j = j + 1;
        }
        assert(s@ =~= pre + chart_absence(g.workers_absence, wi as int + 1));
        wi = wi + 1;
    }
}

#[verifier::loop_isolation(false)]
fn sec_holidays(s: &mut String, data: &GanttData)
    ensures
        final(s)@ == old(s)@ + chart_holidays(
            gantt_model(data).public_holidays,
            gantt_model(data).public_holidays.len() as int,
        ),
{
    let ghost g = gantt_model(data);
    let ghost pre = s@;
    let mut hi: usize = 0;
    while hi < data.public_holidays.len()
        invariant
            0 <= hi <= data.public_holidays@.len(),
            s@ == pre + chart_holidays(g.public_holidays, hi as int),
        decreases data.public_holidays@.len() - hi,
    {
        put_holiday_line(s, data.public_holidays[hi]);
        assert(s@ =~= pre + chart_holidays(g.public_holidays, hi as int + 1));
        hi = hi + 1;
    }
}

#[verifier::loop_isolation(false)]
fn sec_tasks(s: &mut String, data: &GanttData)
    ensures
        final(s)@ == old(s)@ + chart_tasks(
            gantt_model(data).tasks,
            gantt_model(data).tasks.len() as int,
        ),
{
    let ghost g = gantt_model(data);
    let ghost pre = s@;
    let mut ti: usize = 0;
    while ti < data.tasks.len()
        invariant
            0 <= ti <= data.tasks@.len(),
            s@ == pre + chart_tasks(g.tasks, ti as int),
        decreases data.tasks@.len() - ti,
    {
        let t = &data.tasks[ti];
        let ghost tm = g.tasks[ti as int];
        put_task_start_line(s, t);
        put_task_end_line(s, t);
        let ghost pre_p = s@;
        let mut pj: usize = 0;
        while pj < t.pause_days.len()
            invariant
                0 <= pj <= t.pause_days@.len(),
                tm == g.tasks[ti as int],
                0 <= ti < data.tasks@.len(),
                t == &data.tasks@[ti as int],
                s@ == pre_p + chart_task_pauses(tm.id, tm.pause_days, pj as int),
            decreases t.pause_days@.len() - pj,
        {
            put_pause_line(s, &t.id, t.pause_days[pj]);
            assert(s@ =~= pre_p + chart_task_pauses(tm.id, tm.pause_days, pj as int + 1));
            pj = pj + 1;
        }
        assert(s@ =~= pre + chart_tasks(g.tasks, ti as int + 1));
        ti = ti + 1;
    }
}

#[verifier::loop_isolation(false)]
fn sec_deps(s: &mut String, data: &GanttData)
    ensures
        final(s)@ == old(s)@ + chart_deps(
            gantt_model(data).tasks,
            gantt_model(data).tasks.len() as int,
        ),
{
    let ghost g = gantt_model(data);
    let ghost pre = s@;
    let mut di: usize = 0;
    while di < data.tasks.len()
        invariant
            0 <= di <= data.tasks@.len(),
            s@ == pre + chart_deps(g.tasks, di as int),
        decreases data.tasks@.len() - di,
    {
        let t = &data.tasks[di];
        let ghost tm = g.tasks[di as int];
        let ghost pre_a = s@;
        let mut aj: usize = 0;
        while aj < t.after.len()
            invariant
                0 <= aj <= t.after@.len(),
                tm == g.tasks[di as int],
                0 <= di < data.tasks@.len(),
                t == &data.tasks@[di as int],
                s@ == pre_a + chart_deps_one(tm.id, tm.after, aj as int),
            decreases t.after@.len() - aj,
        {
            put_dep_line(s, &t.after[aj], &t.id);
            assert(s@ =~= pre_a + chart_deps_one(tm.id, tm.after, aj as int + 1));
            aj = aj + 1;
        }
        assert(s@ =~= pre + chart_deps(g.tasks, di as int + 1));
        di = di + 1;
    }
}

/// Model of one worker's ledger record list.
pub open spec fn wa_model(wa: crate::gantt_builder::WorkerAllocation) -> WorkerLedgerM {
    WorkerLedgerM {
        worker: wa.worker@,
        days: Seq::new(
            wa.days@.len(),
            |j: int|
                LedgerEntryM {
                    date: wa.days@[j].date.day as int,
                    hours: wa.days@[j].hours.0 as int,
                    class: wa.days@[j].day,
                },
        ),
    }
}

#[verifier::loop_isolation(false)]
#[verifier::rlimit(100)]
fn sec_foot_days(s: &mut String, c: &Colors, wa: &crate::gantt_builder::WorkerAllocation)
    ensures
        final(s)@ == old(s)@ + chart_foot_days(
            c,
            wa_model(*wa).worker,
            wa_model(*wa).days,
            wa_model(*wa).days.len() as int,
        ),
{
    let ghost wm = wa_model(*wa);
    let ghost pre_d = s@;
    let mut dj: usize = 0;
    while dj < wa.days.len()
        invariant
            0 <= dj <= wa.days@.len(),
            wm == wa_model(*wa),
            wm.days.len() == wa.days@.len(),
            s@ == pre_d + chart_foot_days(c, wm.worker, wm.days, dj as int),
        decreases wa.days@.len() - dj,
    {
        put_foot_bar_line(s, &wa.worker, dj as u64, wa.days[dj].date);
        put_foot_color_line(s, c, &wa.worker, dj as u64, wa.days[dj].day);
        if dj > 0 {
            put_foot_same_row_line(s, &wa.worker, dj as u64);
        }
        proof {
            assert(wm.days[dj as int].date == wa.days@[dj as int].date.day as int);
            assert(wm.days[dj as int].class == wa.days@[dj as int].day);
            assert(s@ =~= pre_d + chart_foot_days(c, wm.worker, wm.days, dj as int + 1));
        }
        dj = dj + 1;
    }
}

#[verifier::loop_isolation(false)]
#[verifier::rlimit(100)]
fn sec_footbox(s: &mut String, cfg: &Config, data: &GanttData)
    ensures
        final(s)@ == old(s)@ + chart_footbox(
            &cfg.backend.colors,
            gantt_model(data).ledger,
            gantt_model(data).ledger.len() as int,
        ),
{
    let ghost g = gantt_model(data);
    let ghost pre = s@;
    let mut fi: usize = 0;
    while fi < data.resource_allocation.0.len()
        invariant
            0 <= fi <= data.resource_allocation.0@.len(),
            s@ == pre + chart_footbox(&cfg.backend.colors, g.ledger, fi as int),
        decreases data.resource_allocation.0@.len() - fi,
    {
        let wa = &data.resource_allocation.0[fi];
        let ghost wm = g.ledger[fi as int];
        proof {
            assert(wm =~~= wa_model(data.resource_allocation.0@[fi as int]));
        }
        s.append("-- ");
        s.append(wa.worker.as_str());
        s.append(" --\n");
        sec_foot_days(s, &cfg.backend.colors, wa);
        assert(s@ =~= pre + chart_footbox(&cfg.backend.colors, g.ledger, fi as int + 1));
        fi = fi + 1;
    }
}

#[verifier::loop_isolation(false)]
fn sec_markers(s: &mut String, cfg: &Config, data: &GanttData)
    ensures
        final(s)@ == old(s)@ + chart_markers(
            &cfg.backend.colors,
            gantt_model(data).time_markers,
            gantt_model(data).time_markers.len() as int,
        ),
{
    let ghost g = gantt_model(data);
    let ghost pre = s@;
    let mut mi: usize = 0;
    while mi < data.time_markers.len()
        invariant
            0 <= mi <= data.time_markers@.len(),
            s@ == pre + chart_markers(&cfg.backend.colors, g.time_markers, mi as int),
        decreases data.time_markers@.len() - mi,
    {
        let m = &data.time_markers[mi];
        let ghost mm = g.time_markers[mi as int];
        let ghost pre_t = s@;
        let mut tj: usize = 0;
        while tj < m.time.len()
            invariant
                0 <= tj <= m.time@.len(),
                mm == g.time_markers[mi as int],
                0 <= mi < data.time_markers@.len(),
                m == &data.time_markers@[mi as int],
                mm.time == m.time@,
                mm.label == m.label@,
                s@ == pre_t + chart_marker_times(&cfg.backend.colors, mm.label, mm.time, tj as int),
            decreases m.time@.len() - tj,
        {
            let (from, to) = match m.time[tj] {
                DateObj::Date(d) => (d, d),
                DateObj::Range(f, t) => (f, t),
            };
            put_marker_named_line(s, from, to, &m.label);
            put_marker_color_line(s, &cfg.backend.colors, from, to);
            assert(s@ =~= pre_t + chart_marker_times(
                &cfg.backend.colors,
                mm.label,
                mm.time,
                tj as int + 1,
            ));
            tj = tj + 1;
        }
        assert(s@ =~= pre + chart_markers(&cfg.backend.colors, g.time_markers, mi as int + 1));
        mi = mi + 1;
    }
}

#[verifier::rlimit(100)]
fn sec_legend(s: &mut String, cfg: &Config)
    ensures
        final(s)@ == old(s)@ + chart_legend(&cfg.backend.colors),
{
    let c = &cfg.backend.colors;
    s.append("\nlegend\n");
    s.append("Resource allocation legend:\n");
    s.append("|= Color |= Day Type |\n");
    assert(s@ =~= old(s)@ + ("\nlegend\n"@ + "Resource allocation legend:\n"@
        + "|= Color |= Day Type |\n"@));
    put_legend_row(s, &c.worker_pub_holidays, ">| PubHolidays |\n");
    put_legend_row(s, &c.worker_holidays, ">| Holidays |\n");
    put_legend_row(s, &c.worker_other_duties, ">| OtherDuties |\n");
    put_legend_row(s, &c.worker_overloaded, ">| Overloaded |\n");
    put_legend_row(s, &c.worker_underloaded, ">| Underloaded |\n");
    put_legend_row(s, &c.worker_fine, ">| Fine |\n");
    put_legend_row(s, &c.worker_unassigned, ">| Unassigned |\n");
    s.append("end legend\n");
    assert(s@ =~= old(s)@ + chart_legend(&cfg.backend.colors));
}

/// Writes the PlantUML Gantt script for a schedule.
#[verifier::rlimit(100)]
fn generate_plantuml_script(cfg: &Config, data: &GanttData) -> (script: String)
    ensures
        script@ == spec_chart(cfg, gantt_model(data)),
{
    let ghost g = gantt_model(data);
    let mut s = String::new();
    s.append("@startgantt\n");
    s.append("title ");
    s.append(data.title.as_str());
    s.append("\n");
    assert(s@ =~= "@startgantt\n"@ + "title "@ + g.title + "\n"@);
    sec_closed(&mut s, data);
    sec_absence(&mut s, data);
    s.append("hide ressources footbox\n");
    sec_holidays(&mut s, data);
    s.append("\nProject starts ");
    push_date(&mut s, data.project_starts);
    s.append("\n\n");
    let ghost mid = "@startgantt\n"@ + "title "@ + g.title + "\n"@ + chart_closed(
        g.closed_days,
        g.closed_days.len() as int,
    ) + chart_absence(g.workers_absence, g.workers_absence.len() as int)
        + "hide ressources footbox\n"@ + chart_holidays(
        g.public_holidays,
        g.public_holidays.len() as int,
    ) + "\nProject starts "@ + date_chars(g.project_starts) + "\n\n"@;
    assert(s@ =~= mid);
    sec_tasks(&mut s, data);
    s.append("\n");
    sec_deps(&mut s, data);
    let ghost mid2 = mid + chart_tasks(g.tasks, g.tasks.len() as int) + "\n"@ + chart_deps(
        g.tasks,
        g.tasks.len() as int,
    );
    assert(s@ =~= mid2);
    sec_footbox(&mut s, cfg, data);
    sec_markers(&mut s, cfg, data);
    sec_legend(&mut s, cfg);
    s.append("@endgantt\n");
    assert(s@ =~= spec_chart(cfg, g));
    s
}

/// Builds the chart script for a schedule.  Writing it out and driving
/// a renderer is the caller's concern.
pub fn build_chart(cfg: &Config, data: &GanttData) -> (r: String)
    ensures
        r@ == spec_chart(cfg, gantt_model(data)),
{
    generate_plantuml_script(cfg, data)
}

} // verus!
