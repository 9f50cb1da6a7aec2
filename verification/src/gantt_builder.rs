//! The scheduling engine: dependency-graph construction, calendar-driven
//! burn-down of task estimates, and per-worker, per-day resource-ledger
//! accounting.
//!
//! All fractional quantities are fixed-point milli-units (1000 = 1.0):
//! offsets and day lengths in milli-days, hours in milli-hours, focus
//! factors in milli-units.

use vstd::prelude::*;
use crate::calendar::{BusinessDaysCalendar, DateObj, DayInfo, in_dates, spec_day_info};
use crate::cfg::Config;
use crate::dates::{Date, Weekday};
use crate::project::{Assignment, ProjectConfig, TeamMember, TimeMarker};
use crate::seqs::{find_first, lemma_find_first};

verus! {

/// Milli-units in one whole unit (one day, one hour, a focus of 1.0).
pub const SCALE: u64 = 1000;

/// Most calendar days one task may span during burn-down; a task that
/// cannot finish within this horizon aborts the run.
pub const BURN_DAY_CAP: u64 = 400000;

/// Most tasks a project may hold.
pub const MAX_TASKS: usize = 1000000;

/// Largest task estimate, in milli-days.
pub const MAX_ESTIMATE: u64 = 1000000000000;

/// Largest accepted project start day number.
pub const MAX_START_DAY: u64 = 36500000;

/// Largest cumulative offset a run can reach, in milli-days: a full
/// burn-down horizon for every task (1000 * BURN_DAY_CAP * MAX_TASKS).
pub const OFFSET_LIMIT: u64 = 400000000000000;

/// Largest committed-hours figure one ledger key can reach, in
/// milli-hours: a full day booked on every horizon day of every task
/// (8000 * BURN_DAY_CAP * MAX_TASKS).
pub const HOURS_CEIL: u64 = 3200000000000000;

// ---------------------------------------------------------------------------
// result types
// ---------------------------------------------------------------------------

/// A task as scheduled in the result.
#[derive(Debug)]
pub struct Task {
    pub id: String,
    pub name: String,
    pub assignee: String,
    pub after: Vec<String>,
    pub start_on: Date,
    pub end_on: Date,
    pub pause_days: Vec<Date>,
    pub duration_hours: u32,
}

/// Classification of a worker's day in the resource ledger.
#[derive(Debug, Clone, Copy, PartialEq, Eq, Structural)]
pub enum WorkerDay {
    PubHolidays,
    Holidays,
    OtherDuties,
    Overloaded,
    Underloaded,
    Fine,
    Unassigned,
}

/// Committed hours in milli-hours: 8000 is a full eight-hour day.
#[derive(Debug, Clone, Copy, PartialEq, Eq, Structural)]
pub struct Hours(pub u64);

/// One ledger record: a worker's committed hours and classification on
/// one calendar day.
#[derive(Debug, Clone, Copy)]
pub struct DayAllocation {
    pub date: Date,
    pub hours: Hours,
    pub day: WorkerDay,
}

/// A worker's ledger records, held in ascending date order.
#[derive(Debug)]
pub struct WorkerAllocation {
    pub worker: String,
    pub days: Vec<DayAllocation>,
}

/// The resource ledger: per worker, per day, committed hours and a
/// classification.  Workers appear in order of first booking.
#[derive(Debug)]
pub struct ResourceAllocation(pub Vec<WorkerAllocation>);

/// A worker's recorded absence dates, in booking order.
#[derive(Debug)]
pub struct WorkerAbsence {
    pub worker: String,
    pub dates: Vec<Date>,
}

/// The full schedule handed to a rendering backend.
#[derive(Debug)]
pub struct GanttData {
    pub title: String,
    pub tasks: Vec<Task>,
    pub project_starts: Date,
    pub closed_days: Vec<Weekday>,
    pub workers_absence: Vec<WorkerAbsence>,
    pub public_holidays: Vec<Date>,
    pub resource_allocation: ResourceAllocation,
    pub time_markers: Vec<TimeMarker>,
}

/// Why a run was aborted.  Every variant is fatal; no partial result is
/// returned.
#[derive(Debug, Clone, PartialEq, Eq)]
pub enum ProcessError {
    /// A dependency id names no task.
    UnknownDependency(String),
    /// A task has no assignment record.
    TaskNotAssigned(String),
    /// An assignment names a worker absent from the team list.
    UnknownWorker(String),
    /// A worker references a calendar that was not supplied.
    UnknownCalendar(String),
    /// The dependency graph has a cycle.
    CyclicDependency,
    /// A task could not finish within the burn-down horizon.
    HorizonExceeded,
}

impl ProcessError {
    /// A short description, usable where the error is reported.
    pub fn message(&self) -> String {
        match self {
            ProcessError::UnknownDependency(id) => {
                let mut s = String::from_str("unknown dependency: ");
                s.append(id.as_str());
                s
            },
            ProcessError::TaskNotAssigned(id) => {
                let mut s = String::from_str("task is not assigned: ");
                s.append(id.as_str());
                s
            },
            ProcessError::UnknownWorker(n) => {
                let mut s = String::from_str("worker not defined: ");
                s.append(n.as_str());
                s
            },
            ProcessError::UnknownCalendar(n) => {
                let mut s = String::from_str("calendar not supplied: ");
                s.append(n.as_str());
                s
            },
            ProcessError::CyclicDependency => String::from_str("dependency cycle"),
            ProcessError::HorizonExceeded => String::from_str("burn-down horizon exceeded"),
        }
    }
}

// ---------------------------------------------------------------------------
// ledger model
// ---------------------------------------------------------------------------

/// Model of one ledger record.
#[verifier::ext_equal]
pub struct LedgerEntryM {
    pub date: int,
    pub hours: int,
    pub class: WorkerDay,
}

/// Model of one worker's ledger.
#[verifier::ext_equal]
pub struct WorkerLedgerM {
    pub worker: Seq<char>,
    pub days: Seq<LedgerEntryM>,
}

/// One booking made by the burn-down loop.
#[verifier::ext_equal]
pub struct PostingM {
    pub worker: Seq<char>,
    pub date: int,
    pub hours: int,
    pub class: WorkerDay,
}

pub open spec fn alloc_model(v: Seq<WorkerAllocation>) -> Seq<WorkerLedgerM> {
    Seq::new(
        v.len(),
        |i: int|
            WorkerLedgerM {
                worker: v[i].worker@,
                days: Seq::new(
                    v[i].days@.len(),
                    |j: int|
                        LedgerEntryM {
                            date: v[i].days@[j].date.day as int,
                            hours: v[i].days@[j].hours.0 as int,
                            class: v[i].days@[j].day,
                        },
                ),
            },
    )
}

impl View for ResourceAllocation {
    type V = Seq<WorkerLedgerM>;

    open spec fn view(&self) -> Seq<WorkerLedgerM> {
        alloc_model(self.0@)
    }
}

/// First ledger index of the worker, or the ledger length.
pub open spec fn find_worker(led: Seq<WorkerLedgerM>, w: Seq<char>) -> int {
    find_first(led, |e: WorkerLedgerM| e.worker == w)
}

/// First index with a date at or past `d`, or the record count.
pub open spec fn find_day_ge(days: Seq<LedgerEntryM>, d: int) -> int {
    find_first(days, |e: LedgerEntryM| e.date >= d)
}

/// Dates strictly ascending.
pub open spec fn days_sorted(days: Seq<LedgerEntryM>) -> bool {
    forall|a: int, b: int|
        0 <= a < b < days.len() ==> #[trigger] days[a].date < #[trigger] days[b].date
}

/// Ledger well-formedness: one record per worker, dates ascending.
pub open spec fn ledger_wf(led: Seq<WorkerLedgerM>) -> bool {
    &&& forall|a: int, b: int|
        0 <= a < b < led.len() ==> #[trigger] led[a].worker != #[trigger] led[b].worker
    &&& forall|k: int| 0 <= k < led.len() ==> days_sorted(#[trigger] led[k].days)
}

/// Contribution of one record to the hours held for day `d`.
pub open spec fn entry_contrib(e: LedgerEntryM, d: int) -> int {
    if e.date == d {
        e.hours
    } else {
        0
    }
}

/// Hours one worker's records hold for day `d`: the sum of all records
/// on that date (well-formed ledgers hold at most one).
pub open spec fn days_hours(days: Seq<LedgerEntryM>, d: int) -> int
    decreases days.len(),
{
    if days.len() == 0 {
        0
    } else {
        days_hours(days.drop_last(), d) + entry_contrib(days.last(), d)
    }
}

/// The new day-record list after a booking: hours accumulate on an
/// existing record for the day, whose classification is replaced;
/// otherwise a record is inserted in date order.
pub open spec fn days_after_add(days: Seq<LedgerEntryM>, d: int, h: int, c: WorkerDay) -> Seq<
    LedgerEntryM,
> {
    let di = find_day_ge(days, d);
    if di < days.len() && days[di].date == d {
        days.update(di, LedgerEntryM { date: d, hours: days[di].hours + h, class: c })
    } else {
        days.insert(di, LedgerEntryM { date: d, hours: h, class: c })
    }
}

/// The ledger after booking `h` milli-hours with classification `c` for
/// worker `w` on day `d`.
pub open spec fn ledger_add(
    led: Seq<WorkerLedgerM>,
    w: Seq<char>,
    d: int,
    h: int,
    c: WorkerDay,
) -> Seq<WorkerLedgerM> {
    let wi = find_worker(led, w);
    if wi == led.len() {
        led.push(
            WorkerLedgerM { worker: w, days: seq![LedgerEntryM { date: d, hours: h, class: c }] },
        )
    } else {
        led.update(
            wi,
            WorkerLedgerM { worker: led[wi].worker, days: days_after_add(led[wi].days, d, h, c) },
        )
    }
}

/// Hours the ledger holds for worker `w` on day `d` (zero when absent).
pub open spec fn ledger_hours(led: Seq<WorkerLedgerM>, w: Seq<char>, d: int) -> int {
    let wi = find_worker(led, w);
    if wi == led.len() {
        0
    } else {
        days_hours(led[wi].days, d)
    }
}

pub proof fn lemma_find_worker(led: Seq<WorkerLedgerM>, w: Seq<char>)
    ensures
        0 <= find_worker(led, w) <= led.len(),
        find_worker(led, w) < led.len() ==> led[find_worker(led, w)].worker == w,
        forall|j: int| 0 <= j < find_worker(led, w) ==> led[j].worker != w,
{
    lemma_find_first(led, |e: WorkerLedgerM| e.worker == w);
}

pub proof fn lemma_find_day_ge(days: Seq<LedgerEntryM>, d: int)
    ensures
        0 <= find_day_ge(days, d) <= days.len(),
        find_day_ge(days, d) < days.len() ==> days[find_day_ge(days, d)].date >= d,
        forall|j: int| 0 <= j < find_day_ge(days, d) ==> days[j].date < d,
{
    lemma_find_first(days, |e: LedgerEntryM| e.date >= d);
}

/// Updating one record changes the day sum by the contribution difference.
proof fn lemma_days_hours_update(days: Seq<LedgerEntryM>, j: int, e2: LedgerEntryM, d2: int)
    requires
        0 <= j < days.len(),
    ensures
        days_hours(days.update(j, e2), d2) == days_hours(days, d2) - entry_contrib(days[j], d2)
            + entry_contrib(e2, d2),
    decreases days.len(),
{
    let days2 = days.update(j, e2);
    if j == days.len() - 1 {
        assert(days2.drop_last() =~= days.drop_last());
        assert(days2.last() == e2);
    } else {
        assert(days2.drop_last() =~= days.drop_last().update(j, e2));
        assert(days2.last() == days.last());
        lemma_days_hours_update(days.drop_last(), j, e2, d2);
    }
}

/// Inserting a record adds its contribution to the day sum.
proof fn lemma_days_hours_insert(days: Seq<LedgerEntryM>, j: int, e: LedgerEntryM, d2: int)
    requires
        0 <= j <= days.len(),
    ensures
        days_hours(days.insert(j, e), d2) == days_hours(days, d2) + entry_contrib(e, d2),
    decreases days.len(),
{
    let days2 = days.insert(j, e);
    days.insert_ensures(j, e);
    if j == days.len() {
        assert(days2.drop_last() =~= days);
        assert(days2.last() == e);
    } else {
        assert(days2.drop_last() =~= days.drop_last().insert(j, e));
        assert(days2.last() == days.last());
        lemma_days_hours_insert(days.drop_last(), j, e, d2);
    }
}

/// With no record on the day, the day sum is zero.
proof fn lemma_days_hours_none(days: Seq<LedgerEntryM>, d: int)
    requires
        forall|j: int| 0 <= j < days.len() ==> days[j].date != d,
    ensures
        days_hours(days, d) == 0,
    decreases days.len(),
{
    if days.len() > 0 {
        lemma_days_hours_none(days.drop_last(), d);
    }
}

/// In a sorted record list, the day sum is the one matching record.
proof fn lemma_days_hours_at(days: Seq<LedgerEntryM>, k: int)
    requires
        days_sorted(days),
        0 <= k < days.len(),
    ensures
        days_hours(days, days[k].date) == days[k].hours,
    decreases days.len(),
{
    let d = days[k].date;
    if k == days.len() - 1 {
        assert(forall|j: int| 0 <= j < days.len() - 1 ==> days[j].date < d);
        lemma_days_hours_none(days.drop_last(), d);
    } else {
        assert(days.last().date > d);
        lemma_days_hours_at(days.drop_last(), k);
    }
}

/// A booking keeps the record list sorted.
proof fn lemma_days_after_add_sorted(days: Seq<LedgerEntryM>, d: int, h: int, c: WorkerDay)
    requires
        days_sorted(days),
    ensures
        days_sorted(days_after_add(days, d, h, c)),
{
    let days2 = days_after_add(days, d, h, c);
    let di = find_day_ge(days, d);
    lemma_find_day_ge(days, d);
    if di < days.len() && days[di].date == d {
        assert(forall|j: int| 0 <= j < days2.len() ==> days2[j].date == days[j].date);
    } else {
        days.insert_ensures(di, LedgerEntryM { date: d, hours: h, class: c });
        assert(di < days.len() ==> days[di].date > d);
        assert forall|a: int, b: int| 0 <= a < b < days2.len() implies #[trigger] days2[a].date
            < #[trigger] days2[b].date by {
            let pa = if a < di { days[a].date } else if a == di { d } else { days[a - 1].date };
            let pb = if b < di { days[b].date } else if b == di { d } else { days[b - 1].date };
            assert(days2[a].date == pa);
            assert(days2[b].date == pb);
        }
    }
}

/// A booking changes the day sum by `h` at its own day and leaves other
/// days unchanged.
proof fn lemma_days_after_add_hours(days: Seq<LedgerEntryM>, d: int, h: int, c: WorkerDay, d2: int)
    ensures
        days_hours(days_after_add(days, d, h, c), d2) == days_hours(days, d2) + if d2 == d {
            h
        } else {
            0
        },
{
    let di = find_day_ge(days, d);
    lemma_find_day_ge(days, d);
    if di < days.len() && days[di].date == d {
        lemma_days_hours_update(
            days,
            di,
            LedgerEntryM { date: d, hours: days[di].hours + h, class: c },
            d2,
        );
    } else {
        lemma_days_hours_insert(days, di, LedgerEntryM { date: d, hours: h, class: c }, d2);
    }
}

/// Booking keeps one record per worker and changes the hours at exactly
/// one (worker, day) key, by exactly the booked amount.
pub proof fn lemma_ledger_add(led: Seq<WorkerLedgerM>, w: Seq<char>, d: int, h: int, c: WorkerDay)
    requires
        ledger_wf(led),
    ensures
        ledger_wf(ledger_add(led, w, d, h, c)),
        forall|w2: Seq<char>, d2: int|
            #[trigger] ledger_hours(ledger_add(led, w, d, h, c), w2, d2) == ledger_hours(
                led,
                w2,
                d2,
            ) + if w2 == w && d2 == d {
                h
            } else {
                0
            },
{
    let led2 = ledger_add(led, w, d, h, c);
    let wi = find_worker(led, w);
    lemma_find_worker(led, w);
    assert(ledger_wf(led2)) by {
        if wi == led.len() {
            assert(forall|j: int| 0 <= j < led.len() ==> led2[j] == led[j]);
            assert(days_sorted(led2[led.len() as int].days));
        } else {
            lemma_days_after_add_sorted(led[wi].days, d, h, c);
            assert(forall|j: int| 0 <= j < led.len() && j != wi ==> led2[j] == led[j]);
            assert(led2[wi].worker == led[wi].worker);
        }
    }
    assert forall|w2: Seq<char>, d2: int| #[trigger] ledger_hours(led2, w2, d2) == ledger_hours(
        led,
        w2,
        d2,
    ) + if w2 == w && d2 == d {
        h
    } else {
        0
    } by {
        lemma_ledger_add_hours(led, w, d, h, c, w2, d2);
    }
}

proof fn lemma_ledger_add_hours(
    led: Seq<WorkerLedgerM>,
    w: Seq<char>,
    d: int,
    h: int,
    c: WorkerDay,
    w2: Seq<char>,
    d2: int,
)
    requires
        ledger_wf(led),
    ensures
        ledger_hours(ledger_add(led, w, d, h, c), w2, d2) == ledger_hours(led, w2, d2) + if w2 == w
            && d2 == d {
            h
        } else {
            0
        },
{
    let led2 = ledger_add(led, w, d, h, c);
    let wi = find_worker(led, w);
    lemma_find_worker(led, w);
    lemma_find_worker(led2, w2);
    lemma_find_worker(led, w2);
    let wj2 = find_worker(led2, w2);
    let wj = find_worker(led, w2);
    if w2 == w {
        if wi == led.len() {
            // the worker is new: one fresh record
            assert(wj == led.len());
            assert(led2[led.len() as int].worker == w);
            assert(wj2 == led.len()) by {
                assert(forall|j: int| 0 <= j < led.len() ==> led2[j] == led[j]);
            }
            let days2 = led2[wj2].days;
            assert(days_hours(days2, d2) == entry_contrib(days2.last(), d2)) by {
                reveal_with_fuel(days_hours, 3);
                assert(days2.drop_last() =~= Seq::<LedgerEntryM>::empty());
            }
        } else {
            assert(wj == wi);
            assert(wj2 == wi) by {
                assert(led2[wi].worker == w);
                assert(forall|j: int| 0 <= j < wi ==> led2[j] == led[j]);
            }
            assert(led2[wi].days == days_after_add(led[wi].days, d, h, c));
            lemma_days_after_add_hours(led[wi].days, d, h, c, d2);
        }
    } else {
        if wj < led.len() {
            // the queried worker exists and its record is untouched
            assert(led[wj].worker == w2);
            assert(wi != wj);
            assert(led2[wj] == led[wj]) by {
                if wi < led.len() {
                    assert(forall|j: int| 0 <= j < led.len() && j != wi ==> led2[j] == led[j]);
                } else {
                    assert(forall|j: int| 0 <= j < led.len() ==> led2[j] == led[j]);
                }
            }
            assert(wj2 == wj) by {
                assert(led2[wj].worker == w2);
                assert(forall|j: int| 0 <= j < wj ==> led2[j].worker == led[j].worker);
                if wj2 < wj {
                    assert(led2[wj2].worker == led[wj2].worker);
                }
            }
        } else {
            // the queried worker exists in neither ledger
            assert(forall|j: int| 0 <= j < led.len() ==> led[j].worker != w2);
            assert(wj2 == led2.len()) by {
                assert(forall|j: int| 0 <= j < led2.len() ==> led2[j].worker != w2) by {
                    assert(forall|j: int|
                        0 <= j < led2.len() ==> led2[j].worker == if j < led.len() {
                            led[j].worker
                        } else {
                            w
                        });
                }
                if wj2 < led2.len() {
                    assert(led2[wj2].worker == w2);
                }
            }
        }
    }
}

// ---------------------------------------------------------------------------
// executable ledger
// ---------------------------------------------------------------------------

fn find_worker_index(v: &Vec<WorkerAllocation>, w: &String) -> (r: usize)
    ensures
        r as int == find_worker(alloc_model(v@), w@),
        r <= v@.len(),
{
    proof {
        lemma_find_worker(alloc_model(v@), w@);
    }
    let mut i: usize = 0;
    while i < v.len()
        invariant
            0 <= i <= v@.len(),
            forall|j: int| 0 <= j < i ==> alloc_model(v@)[j].worker != w@,
        decreases v@.len() - i,
    {
        if v[i].worker == *w {
            proof {
                lemma_find_worker(alloc_model(v@), w@);
                assert(alloc_model(v@)[i as int].worker == w@);
            }
            return i;
        }
        assert(alloc_model(v@)[i as int].worker != w@);
        i = i + 1;
    }
    proof {
        lemma_find_worker(alloc_model(v@), w@);
    }
    i
}

fn find_day_index(days: &Vec<DayAllocation>, d: Date) -> (r: usize)
    ensures
        r as int == find_day_ge(
            Seq::new(
                days@.len(),
                |j: int|
                    LedgerEntryM {
                        date: days@[j].date.day as int,
                        hours: days@[j].hours.0 as int,
                        class: days@[j].day,
                    },
            ),
            d.day as int,
        ),
        r <= days@.len(),
{
    let ghost dm = Seq::new(
        days@.len(),
        |j: int|
            LedgerEntryM {
                date: days@[j].date.day as int,
                hours: days@[j].hours.0 as int,
                class: days@[j].day,
            },
    );
    let mut i: usize = 0;
    while i < days.len()
        invariant
            0 <= i <= days@.len(),
            dm == Seq::new(
                days@.len(),
                |j: int|
                    LedgerEntryM {
                        date: days@[j].date.day as int,
                        hours: days@[j].hours.0 as int,
                        class: days@[j].day,
                    },
            ),
            forall|j: int| 0 <= j < i ==> dm[j].date < d.day as int,
        decreases days@.len() - i,
    {
        if days[i].date.day >= d.day {
            proof {
                lemma_find_day_ge(dm, d.day as int);
                assert(dm[i as int].date >= d.day as int);
            }
            return i;
        }
        assert(dm[i as int].date < d.day as int);
        i = i + 1;
    }
    proof {
        lemma_find_day_ge(dm, d.day as int);
    }
    i
}

impl ResourceAllocation {
    /// An empty ledger.
    pub fn new() -> (r: ResourceAllocation)
        ensures
            r@ == Seq::<WorkerLedgerM>::empty(),
            ledger_wf(r@),
    {
        let r = ResourceAllocation(Vec::new());
        proof {
            assert(r@ =~= Seq::<WorkerLedgerM>::empty());
        }
        r
    }

    /// Books hours for a worker on a day, accumulating with any earlier
    /// booking on the same day and replacing its classification.
    fn add(&mut self, worker: &String, date: Date, day: WorkerDay, hours: Hours)
        requires
            ledger_wf(old(self)@),
            ledger_hours(old(self)@, worker@, date.day as int) + hours.0 <= u64::MAX,
        ensures
            final(self)@ == ledger_add(old(self)@, worker@, date.day as int, hours.0 as int, day),
            ledger_wf(final(self)@),
    {
        proof {
            lemma_ledger_add(old(self)@, worker@, date.day as int, hours.0 as int, day);
            lemma_find_worker(old(self)@, worker@);
        }
        let wi = find_worker_index(&self.0, worker);
        if wi == self.0.len() {
            let mut days: Vec<DayAllocation> = Vec::new();
            days.push(DayAllocation { date, hours, day });
            self.0.push(WorkerAllocation { worker: worker.clone(), days });
            assert(self@ =~= ledger_add(old(self)@, worker@, date.day as int, hours.0 as int, day))
                by {
                assert(self@[old(self)@.len() as int].days =~= seq![
                    LedgerEntryM { date: date.day as int, hours: hours.0 as int, class: day },
                ]);
            }
        } else {
            let ghost led = old(self)@;
            let ghost days_m = led[wi as int].days;
            proof {
                lemma_find_day_ge(days_m, date.day as int);
            }
            let di = find_day_index(&self.0[wi].days, date);
            if di < self.0[wi].days.len() && self.0[wi].days[di].date.day == date.day {
                let h0 = self.0[wi].days[di].hours.0;
                assert(days_m[di as int].hours == h0 as int && days_m[di as int].date
                    == date.day as int);
                assert(ledger_hours(led, worker@, date.day as int) == h0 as int) by {
                    lemma_days_hours_at(days_m, di as int);
                }
                let e = vec_index_mut_day(&mut self.0, wi, di);
                *e = DayAllocation { date, hours: Hours(h0 + hours.0), day };
                assert(self@ =~= ledger_add(led, worker@, date.day as int, hours.0 as int, day))
                    by {
                    assert(self@[wi as int].days =~= days_after_add(
                        led[wi as int].days,
                        date.day as int,
                        hours.0 as int,
                        day,
                    ));
                }
            } else {
                vec_insert_day(&mut self.0, wi, di, DayAllocation { date, hours, day });
                assert(self@ =~= ledger_add(led, worker@, date.day as int, hours.0 as int, day))
                    by {
                    assert(self@[wi as int].days =~= days_after_add(
                        led[wi as int].days,
                        date.day as int,
                        hours.0 as int,
                        day,
                    ));
                }
            }
        }
    }
}

/// Replaces one day record of one worker, in place.
fn vec_index_mut_day<'a>(v: &'a mut Vec<WorkerAllocation>, wi: usize, di: usize) -> (e: &'a mut DayAllocation)
    requires
        wi < old(v)@.len(),
        di < old(v)@[wi as int].days@.len(),
    ensures
        *e == old(v)@[wi as int].days@[di as int],
        final(v)@.len() == old(v)@.len(),
        final(v)@[wi as int].worker == old(v)@[wi as int].worker,
        final(v)@[wi as int].days@ == old(v)@[wi as int].days@.update(di as int, *final(e)),
        forall|j: int| 0 <= j < old(v)@.len() && j != wi ==> final(v)@[j] == old(v)@[j],
{
    let wa: &mut WorkerAllocation = &mut v[wi];
    let e: &mut DayAllocation = &mut wa.days[di];
    e
}

/// Inserts one day record for one worker, in place.
fn vec_insert_day(v: &mut Vec<WorkerAllocation>, wi: usize, di: usize, d: DayAllocation)
    requires
        wi < old(v)@.len(),
        di <= old(v)@[wi as int].days@.len(),
    ensures
        final(v)@.len() == old(v)@.len(),
        final(v)@[wi as int].worker == old(v)@[wi as int].worker,
        final(v)@[wi as int].days@ == old(v)@[wi as int].days@.insert(di as int, d),
        forall|j: int| 0 <= j < old(v)@.len() && j != wi ==> final(v)@[j] == old(v)@[j],
{
    let wa: &mut WorkerAllocation = &mut v[wi];
    wa.days.insert(di, d);
}

// ---------------------------------------------------------------------------
// dependency graph
// ---------------------------------------------------------------------------

/// One graph node: dependency links to parents and dependents.
#[derive(Debug)]
struct GraphNode {
    parents: Vec<usize>,
    children: Vec<usize>,
}

/// The dependency graph: an arena of nodes (one per task, same index)
/// and the dependency-free starting nodes.
#[derive(Debug)]
struct Graph {
    starting_points: Vec<usize>,
    graph: Vec<GraphNode>,
}

/// Model of the dependency graph.
#[verifier::ext_equal]
pub struct GraphM {
    pub starting: Seq<int>,
    pub parents: Seq<Seq<int>>,
    pub children: Seq<Seq<int>>,
}

pub open spec fn find_task(tasks: Seq<crate::project::Task>, id: Seq<char>) -> int {
    find_first(tasks, |t: crate::project::Task| t.id@ == id)
}

pub proof fn lemma_find_task(tasks: Seq<crate::project::Task>, id: Seq<char>)
    ensures
        0 <= find_task(tasks, id) <= tasks.len(),
        find_task(tasks, id) < tasks.len() ==> tasks[find_task(tasks, id)].id@ == id,
        forall|j: int| 0 <= j < find_task(tasks, id) ==> tasks[j].id@ != id,
    decreases tasks.len(),
{
    if tasks.len() > 0 && tasks[0].id@ != id {
        lemma_find_task(tasks.drop_first(), id);
        assert forall|j: int| 0 <= j < find_task(tasks, id) implies tasks[j].id@ != id by {
            if j > 0 {
                assert(tasks.drop_first()[j - 1] == tasks[j]);
            }
        }
    }
}

/// Starting nodes among the first `n` tasks: those with no dependencies.
pub open spec fn spec_starting_upto(tasks: Seq<crate::project::Task>, n: int) -> Seq<int>
    decreases n,
{
    if n <= 0 {
        Seq::empty()
    } else {
        let pre = spec_starting_upto(tasks, n - 1);
        if tasks[n - 1].after@.len() == 0 {
            pre.push(n - 1)
        } else {
            pre
        }
    }
}

/// Walks the dependency lists from position (`i`, `k`), linking each
/// resolved dependency parent-to-child both ways; fails with the first
/// dependency id that names no task.
pub open spec fn spec_link_edges(
    tasks: Seq<crate::project::Task>,
    i: int,
    k: int,
    par: Seq<Seq<int>>,
    ch: Seq<Seq<int>>,
) -> Result<(Seq<Seq<int>>, Seq<Seq<int>>), Seq<char>>
    decreases
            tasks.len() - i,
            (if i < tasks.len() {
                tasks[i].after@.len() - k
            } else {
                0
            })
        when 0 <= i && 0 <= k
{
    if i >= tasks.len() {
        Ok((par, ch))
    } else if k >= tasks[i].after@.len() {
        spec_link_edges(tasks, i + 1, 0, par, ch)
    } else {
        let id = tasks[i].after@[k]@;
        let p = find_task(tasks, id);
        if p == tasks.len() {
            Err(id)
        } else {
            spec_link_edges(
                tasks,
                i,
                k + 1,
                par.update(i, par[i].push(p)),
                ch.update(p, ch[p].push(i)),
            )
        }
    }
}

/// Builds the graph of a task list: per-node parent and child links and
/// the dependency-free starting nodes, or the first unknown dependency.
pub open spec fn spec_build_graph(tasks: Seq<crate::project::Task>) -> Result<GraphM, Seq<char>> {
    let n = tasks.len() as int;
    let init = Seq::new(n as nat, |_i: int| Seq::<int>::empty());
    match spec_link_edges(tasks, 0, 0, init, init) {
        Ok(r) => Ok(GraphM { starting: spec_starting_upto(tasks, n), parents: r.0, children: r.1 }),
        Err(id) => Err(id),
    }
}

pub open spec fn usize_seq(s: Seq<usize>) -> Seq<int> {
    s.map_values(|u: usize| u as int)
}

spec fn nodes_parents(nodes: Seq<GraphNode>) -> Seq<Seq<int>> {
    Seq::new(nodes.len(), |i: int| usize_seq(nodes[i].parents@))
}

spec fn nodes_children(nodes: Seq<GraphNode>) -> Seq<Seq<int>> {
    Seq::new(nodes.len(), |i: int| usize_seq(nodes[i].children@))
}

spec fn graph_starting(g: &Graph) -> Seq<int> {
    usize_seq(g.starting_points@)
}

/// Starting nodes are in range, dependency-free, and strictly ascending.
pub proof fn lemma_starting_upto(tasks: Seq<crate::project::Task>, m: int)
    requires
        0 <= m <= tasks.len(),
    ensures
        forall|k: int|
            0 <= k < spec_starting_upto(tasks, m).len() ==> 0 <= #[trigger] spec_starting_upto(
                tasks,
                m,
            )[k] < m && tasks[spec_starting_upto(tasks, m)[k]].after@.len() == 0,
        forall|a: int, b: int|
            0 <= a < b < spec_starting_upto(tasks, m).len() ==> #[trigger] spec_starting_upto(
                tasks,
                m,
            )[a] < #[trigger] spec_starting_upto(tasks, m)[b],
    decreases m,
{
    if m > 0 {
        lemma_starting_upto(tasks, m - 1);
        let pre = spec_starting_upto(tasks, m - 1);
        let cur = spec_starting_upto(tasks, m);
        if tasks[m - 1].after@.len() == 0 {
            assert(cur == pre.push(m - 1));
            assert forall|k: int| 0 <= k < cur.len() implies 0 <= cur[k] < m
                && tasks[cur[k]].after@.len() == 0 by {
                if k < pre.len() {
                    assert(cur[k] == pre[k]);
                } else {
                    assert(cur[k] == m - 1);
                }
            }
            assert forall|a: int, b: int| 0 <= a < b < cur.len() implies cur[a] < cur[b] by {
                if b < pre.len() {
                    assert(cur[a] == pre[a] && cur[b] == pre[b]);
                } else {
                    assert(cur[a] == pre[a] && cur[b] == m - 1);
                }
            }
        } else {
            assert(cur == pre);
        }
    }
}

/// After linking, every node holds one parent link per dependency entry
/// not yet walked.
pub proof fn lemma_link_edges_par_len(
    tasks: Seq<crate::project::Task>,
    i: int,
    k: int,
    par: Seq<Seq<int>>,
    ch: Seq<Seq<int>>,
)
    requires
        0 <= i <= tasks.len(),
        0 <= k,
        i < tasks.len() ==> k <= tasks[i].after@.len(),
        i == tasks.len() ==> k == 0,
        par.len() == tasks.len(),
        spec_link_edges(tasks, i, k, par, ch) is Ok,
    ensures
        spec_link_edges(tasks, i, k, par, ch)->Ok_0.0.len() == tasks.len(),
        forall|j: int|
            0 <= j < tasks.len() ==> (#[trigger] spec_link_edges(tasks, i, k, par, ch)->Ok_0.0[j]).len()
                == par[j].len() + (if j > i {
                tasks[j].after@.len() as int
            } else if j == i {
                tasks[i].after@.len() - k
            } else {
                0
            }),
    decreases
            tasks.len() - i,
            (if i < tasks.len() {
                tasks[i].after@.len() - k
            } else {
                0
            }),
{
    if i >= tasks.len() {
    } else if k >= tasks[i].after@.len() {
        lemma_link_edges_par_len(tasks, i + 1, 0, par, ch);
    } else {
        let id = tasks[i].after@[k]@;
        let p = find_task(tasks, id);
        let par2 = par.update(i, par[i].push(p));
        let ch2 = ch.update(p, ch[p].push(i));
        lemma_link_edges_par_len(tasks, i, k + 1, par2, ch2);
    }
}

spec fn graph_parents(g: &Graph) -> Seq<Seq<int>> {
    nodes_parents(g.graph@)
}

spec fn graph_children(g: &Graph) -> Seq<Seq<int>> {
    nodes_children(g.graph@)
}

fn find_task_index(tasks: &Vec<crate::project::Task>, id: &String) -> (r: usize)
    ensures
        r as int == find_task(tasks@, id@),
        r <= tasks@.len(),
{
    proof {
        lemma_find_task(tasks@, id@);
    }
    let mut i: usize = 0;
    while i < tasks.len()
        invariant
            0 <= i <= tasks@.len(),
            forall|j: int| 0 <= j < i ==> tasks@[j].id@ != id@,
        decreases tasks@.len() - i,
    {
        if tasks[i].id == *id {
            proof {
                lemma_find_task(tasks@, id@);
            }
            return i;
        }
        i = i + 1;
    }
    proof {
        lemma_find_task(tasks@, id@);
    }
    i
}

/// Builds the dependency graph, failing on a dependency id that names
/// no task.
fn build_task_graph(tasks: &Vec<crate::project::Task>) -> (r: Result<Graph, ProcessError>)
    ensures
        match spec_build_graph(tasks@) {
            Ok(gm) => r matches Ok(g) && graph_starting(&g) == gm.starting && graph_parents(&g)
                == gm.parents && graph_children(&g) == gm.children && g.graph@.len()
                == tasks@.len(),
            Err(id) => r matches Err(e) && e matches ProcessError::UnknownDependency(s) && s@
                == id,
        },
{
    let n = tasks.len();
    let mut graph: Vec<GraphNode> = Vec::new();
    let mut starting_points: Vec<usize> = Vec::new();
    let mut i: usize = 0;
    while i < n
        invariant
            n == tasks@.len(),
            0 <= i <= n,
            graph@.len() == i,
            forall|j: int|
                0 <= j < i ==> (#[trigger] graph@[j]).parents@.len() == 0 && graph@[j].children@.len()
                    == 0,
            starting_points@.map_values(|u: usize| u as int) == spec_starting_upto(
                tasks@,
                i as int,
            ),
        decreases n - i,
    {
        if tasks[i].after.len() == 0 {
            starting_points.push(i);
            assert(starting_points@.map_values(|u: usize| u as int) =~= spec_starting_upto(
                tasks@,
                i as int + 1,
            ));
        } else {
            assert(starting_points@.map_values(|u: usize| u as int) =~= spec_starting_upto(
                tasks@,
                i as int + 1,
            ));
        }
        graph.push(GraphNode { parents: Vec::new(), children: Vec::new() });
        i = i + 1;
    }
    let mut g = Graph { starting_points, graph };
    let ghost init = Seq::new(tasks@.len(), |_i: int| Seq::<int>::empty());
    let ghost goal = spec_link_edges(tasks@, 0, 0, init, init);
    proof {
        assert(graph_parents(&g) =~~= init);
        assert(graph_children(&g) =~~= init);
    }
    let mut ii: usize = 0;
    while ii < n
        invariant
            n == tasks@.len(),
            0 <= ii <= n,
            g.graph@.len() == n,
            g.starting_points@.map_values(|u: usize| u as int) == spec_starting_upto(
                tasks@,
                n as int,
            ),
            goal == spec_link_edges(tasks@, 0, 0, init, init),
            init == Seq::new(tasks@.len(), |_i: int| Seq::<int>::empty()),
            spec_link_edges(tasks@, ii as int, 0, graph_parents(&g), graph_children(&g)) == goal,
        decreases n - ii,
    {
        let after_len = tasks[ii].after.len();
        let mut k: usize = 0;
        while k < after_len
            invariant
                n == tasks@.len(),
                0 <= ii < n,
                0 <= k <= after_len,
                after_len == tasks@[ii as int].after@.len(),
                g.graph@.len() == n,
                g.starting_points@.map_values(|u: usize| u as int) == spec_starting_upto(
                    tasks@,
                    n as int,
                ),
                goal == spec_link_edges(tasks@, 0, 0, init, init),
                init == Seq::new(tasks@.len(), |_i: int| Seq::<int>::empty()),
                spec_link_edges(tasks@, ii as int, k as int, graph_parents(&g), graph_children(&g))
                    == goal,
            decreases after_len - k,
        {
            let ghost par0 = graph_parents(&g);
            let ghost ch0 = graph_children(&g);
            let p = find_task_index(tasks, &tasks[ii].after[k]);
            if p == n {
                return Err(ProcessError::UnknownDependency(tasks[ii].after[k].clone()));
            }
            let node_p: &mut GraphNode = &mut g.graph[p];
            node_p.children.push(ii);
            let node_i: &mut GraphNode = &mut g.graph[ii];
            node_i.parents.push(p);
            proof {
                assert(graph_parents(&g) =~~= par0.update(
                    ii as int,
                    par0[ii as int].push(p as int),
                ));
                assert(graph_children(&g) =~~= ch0.update(p as int, ch0[p as int].push(ii as int)));
            }
            k = k + 1;
        }
        proof {
            assert(spec_link_edges(
                tasks@,
                ii as int,
                after_len as int,
                graph_parents(&g),
                graph_children(&g),
            ) == spec_link_edges(tasks@, ii as int + 1, 0, graph_parents(&g), graph_children(&g)));
        }
        ii = ii + 1;
    }
    Ok(g)
}

// ---------------------------------------------------------------------------
// day classification with worker overlays
// ---------------------------------------------------------------------------

/// Classification of one day for one worker: the base calendar takes
/// precedence, then the worker's personal holidays, then other duties.
pub open spec fn spec_worker_day_info(
    cal: &BusinessDaysCalendar,
    holidays: Seq<DateObj>,
    duties: Seq<DateObj>,
    day: int,
) -> DayInfo {
    match spec_day_info(cal, day) {
        DayInfo::WorkingDay(h) => if in_dates(day, holidays) {
            DayInfo::WorkerHolidays
        } else if in_dates(day, duties) {
            DayInfo::WorkerOtherDuties
        } else {
            DayInfo::WorkingDay(h)
        },
        di => di,
    }
}

/// Classifies a day for a worker, overlaying personal absences on the
/// base calendar.
fn get_day_info(d: &Date, cal: &BusinessDaysCalendar, worker: &TeamMember) -> (r: DayInfo)
    ensures
        r == spec_worker_day_info(cal, worker.holidays@, worker.other_duties@, d.day as int),
{
    let hrs = match cal.day_info(d) {
        DayInfo::WorkingDay(h) => h,
        di => {
            return di;
        },
    };
    if crate::calendar::in_date_obj_vec(d, &worker.holidays) {
        return DayInfo::WorkerHolidays;
    }
    if crate::calendar::in_date_obj_vec(d, &worker.other_duties) {
        return DayInfo::WorkerOtherDuties;
    }
    DayInfo::WorkingDay(hrs)
}

// ---------------------------------------------------------------------------
// absence bookkeeping
// ---------------------------------------------------------------------------

/// Model of one worker's absence record.
#[verifier::ext_equal]
pub struct AbsenceM {
    pub worker: Seq<char>,
    pub dates: Seq<int>,
}

pub open spec fn dates_model(v: Seq<Date>) -> Seq<int> {
    v.map_values(|d: Date| d.day as int)
}

pub open spec fn absence_model(v: Seq<WorkerAbsence>) -> Seq<AbsenceM> {
    Seq::new(
        v.len(),
        |i: int| AbsenceM { worker: v[i].worker@, dates: dates_model(v[i].dates@) },
    )
}

pub open spec fn find_absence(abs: Seq<AbsenceM>, w: Seq<char>) -> int {
    find_first(abs, |e: AbsenceM| e.worker == w)
}

/// One more absence date for a worker, appended to its record (created
/// on first absence).
pub open spec fn absence_add(abs: Seq<AbsenceM>, w: Seq<char>, d: int) -> Seq<AbsenceM> {
    let wi = find_absence(abs, w);
    if wi == abs.len() {
        abs.push(AbsenceM { worker: w, dates: seq![d] })
    } else {
        abs.update(wi, AbsenceM { worker: abs[wi].worker, dates: abs[wi].dates.push(d) })
    }
}

proof fn lemma_find_absence(abs: Seq<AbsenceM>, w: Seq<char>)
    ensures
        0 <= find_absence(abs, w) <= abs.len(),
        find_absence(abs, w) < abs.len() ==> abs[find_absence(abs, w)].worker == w,
        forall|j: int| 0 <= j < find_absence(abs, w) ==> abs[j].worker != w,
{
    lemma_find_first(abs, |e: AbsenceM| e.worker == w);
}

fn record_absence(workers_absence: &mut Vec<WorkerAbsence>, worker: &String, d: Date)
    ensures
        absence_model(final(workers_absence)@) == absence_add(
            absence_model(old(workers_absence)@),
            worker@,
            d.day as int,
        ),
{
    let ghost abs0 = absence_model(old(workers_absence)@);
    proof {
        lemma_find_absence(abs0, worker@);
    }
    let mut i: usize = 0;
    while i < workers_absence.len()
        invariant
            workers_absence@ == old(workers_absence)@,
            abs0 == absence_model(old(workers_absence)@),
            0 <= i <= workers_absence@.len(),
            forall|j: int| 0 <= j < i ==> abs0[j].worker != worker@,
        decreases workers_absence@.len() - i,
    {
        if workers_absence[i].worker == *worker {
            proof {
                lemma_find_absence(abs0, worker@);
                assert(abs0[i as int].worker == worker@);
                assert(find_absence(abs0, worker@) == i);
            }
            let wa: &mut WorkerAbsence = &mut workers_absence[i];
            wa.dates.push(d);
            assert(absence_model(workers_absence@) =~~= absence_add(abs0, worker@, d.day as int));
            return ;
        }
        i = i + 1;
    }
    proof {
        lemma_find_absence(abs0, worker@);
        assert(find_absence(abs0, worker@) == abs0.len());
    }
    let mut dates: Vec<Date> = Vec::new();
    dates.push(d);
    workers_absence.push(WorkerAbsence { worker: worker.clone(), dates });
    assert(absence_model(workers_absence@) =~~= absence_add(abs0, worker@, d.day as int));
}

// ---------------------------------------------------------------------------
// burn-down
// ---------------------------------------------------------------------------

/// State carried through one task's burn-down.
#[verifier::ext_equal]
pub struct BurnStateM {
    /// Milli-hours still to burn.
    pub hours_left: int,
    /// Cumulative offset from project start, milli-days.
    pub offset: int,
    /// The day under consideration.
    pub date: int,
    pub ledger: Seq<WorkerLedgerM>,
    pub absence: Seq<AbsenceM>,
    pub holidays: Seq<int>,
    pub pauses: Seq<int>,
    pub postings: Seq<PostingM>,
}

/// The completion day of a task whose final cumulative offset is
/// `offset` milli-days past project start `begin`: the day holding the
/// offset's ceiling, or the start day for an empty span.
pub open spec fn end_day(begin: int, offset: int) -> int {
    let c = (offset + 999) / 1000;
    if c > 0 {
        begin + c - 1
    } else {
        begin
    }
}

/// One task's burn-down from state `st`: walks calendar days forward,
/// consuming effective hours on working days and recording pauses and
/// ledger bookings, until the estimate is exhausted.  `None` when
/// `fuel` days do not finish the task.
pub open spec fn spec_burn(
    cal: &BusinessDaysCalendar,
    holidays: Seq<DateObj>,
    duties: Seq<DateObj>,
    w: Seq<char>,
    ff: int,
    begin: int,
    st: BurnStateM,
    fuel: nat,
) -> Option<(BurnStateM, int)>
    decreases fuel,
{
    if fuel == 0 {
        None
    } else {
        match spec_worker_day_info(cal, holidays, duties, st.date) {
            DayInfo::WorkingDay(h) => {
                let eff0 = h * ff;
                let left = st.offset % 1000;
                let day_len = if left != 0 {
                    1000 - left
                } else {
                    1000
                };
                let eff = if left != 0 {
                    eff0 * (1000 - left) / 1000
                } else {
                    eff0
                };
                if st.hours_left >= eff {
                    // consume the whole remaining day
                    let booked = 8 * day_len;
                    let st2 = BurnStateM {
                        hours_left: st.hours_left - eff,
                        offset: st.offset + day_len,
                        date: st.date + 1,
                        ledger: ledger_add(st.ledger, w, st.date, booked, WorkerDay::Fine),
                        absence: st.absence,
                        holidays: st.holidays,
                        pauses: st.pauses,
                        postings: st.postings.push(
                            PostingM { worker: w, date: st.date, hours: booked, class: WorkerDay::Fine },
                        ),
                    };
                    if st.hours_left - eff == 0 {
                        Some((st2, end_day(begin, st2.offset)))
                    } else {
                        spec_burn(cal, holidays, duties, w, ff, begin, st2, (fuel - 1) as nat)
                    }
                } else {
                    // only a fraction of the day is needed; the task ends
                    let fraction = st.hours_left * 1000 / eff;
                    let booked = 8 * fraction * day_len / 1000;
                    let st2 = BurnStateM {
                        hours_left: st.hours_left,
                        offset: st.offset + day_len * fraction / 1000,
                        date: st.date + 1,
                        ledger: ledger_add(st.ledger, w, st.date, booked, WorkerDay::Underloaded),
                        absence: st.absence,
                        holidays: st.holidays,
                        pauses: st.pauses,
                        postings: st.postings.push(
                            PostingM {
                                worker: w,
                                date: st.date,
                                hours: booked,
                                class: WorkerDay::Underloaded,
                            },
                        ),
                    };
                    Some((st2, end_day(begin, st2.offset)))
                }
            },
            info => {
                // a pause day: no hours consumed, a full day elapses
                let class = match info {
                    DayInfo::WorkerHolidays => WorkerDay::Holidays,
                    DayInfo::WorkerOtherDuties => WorkerDay::OtherDuties,
                    _ => WorkerDay::PubHolidays,
                };
                let absence2 = if info is NonWorking {
                    st.absence
                } else {
                    absence_add(st.absence, w, st.date)
                };
                let holidays2 = if info is NonWorkingPubHoliday {
                    st.holidays.push(st.date)
                } else {
                    st.holidays
                };
                let st2 = BurnStateM {
                    hours_left: st.hours_left,
                    offset: st.offset + 1000,
                    date: st.date + 1,
                    ledger: ledger_add(st.ledger, w, st.date, 0, class),
                    absence: absence2,
                    holidays: holidays2,
                    pauses: st.pauses.push(st.date),
                    postings: st.postings.push(
                        PostingM { worker: w, date: st.date, hours: 0, class },
                    ),
                };
                spec_burn(cal, holidays, duties, w, ff, begin, st2, (fuel - 1) as nat)
            },
        }
    }
}

/// Every committed-hours figure in the ledger is at most `b`.
pub open spec fn ledger_bounded(led: Seq<WorkerLedgerM>, b: int) -> bool {
    forall|w: Seq<char>, d: int| #[trigger] ledger_hours(led, w, d) <= b
}

/// Builds a burn-down state from its parts.
pub open spec fn burn_st(
    hours_left: int,
    offset: int,
    date: int,
    ledger: Seq<WorkerLedgerM>,
    absence: Seq<AbsenceM>,
    holidays: Seq<int>,
    pauses: Seq<int>,
    postings: Seq<PostingM>,
) -> BurnStateM {
    BurnStateM { hours_left, offset, date, ledger, absence, holidays, pauses, postings }
}

/// Records the bookkeeping of one non-working day, or yields the
/// working hours of a working day.
fn get_working_day_len(
    day_info: &DayInfo,
    d: Date,
    worker_name: &String,
    workers_absence: &mut Vec<WorkerAbsence>,
    resource_allocation: &mut ResourceAllocation,
    pause_days: &mut Vec<Date>,
    public_holidays: &mut Vec<Date>,
) -> (r: Option<u32>)
    requires
        ledger_wf(old(resource_allocation)@),
        ledger_hours(old(resource_allocation)@, worker_name@, d.day as int) <= u64::MAX - 8000,
    ensures
        ledger_wf(final(resource_allocation)@),
        match *day_info {
            DayInfo::WorkingDay(h) => r == Some(h) && final(workers_absence)@ == old(
                workers_absence,
            )@ && final(resource_allocation)@ == old(resource_allocation)@ && final(pause_days)@
                == old(pause_days)@ && final(public_holidays)@ == old(public_holidays)@,
            _ => r is None && final(resource_allocation)@ == ledger_add(
                old(resource_allocation)@,
                worker_name@,
                d.day as int,
                0,
                match *day_info {
                    DayInfo::WorkerHolidays => WorkerDay::Holidays,
                    DayInfo::WorkerOtherDuties => WorkerDay::OtherDuties,
                    _ => WorkerDay::PubHolidays,
                },
            ) && final(pause_days)@ == old(pause_days)@.push(d) && absence_model(
                final(workers_absence)@,
            ) == (if *day_info is NonWorking {
                absence_model(old(workers_absence)@)
            } else {
                absence_add(absence_model(old(workers_absence)@), worker_name@, d.day as int)
            }) && final(public_holidays)@ == (if *day_info is NonWorkingPubHoliday {
                old(public_holidays)@.push(d)
            } else {
                old(public_holidays)@
            }),
        },
{
    match day_info {
        DayInfo::WorkerHolidays | DayInfo::WorkerOtherDuties => {
            record_absence(workers_absence, worker_name, d);
            if *day_info == DayInfo::WorkerHolidays {
                resource_allocation.add(worker_name, d, WorkerDay::Holidays, Hours(0));
            } else {
                resource_allocation.add(worker_name, d, WorkerDay::OtherDuties, Hours(0));
            }
            pause_days.push(d);
            None
        },
        DayInfo::WorkingDay(h) => Some(*h),
        DayInfo::NonWorkingPubHoliday => {
            public_holidays.push(d);
            record_absence(workers_absence, worker_name, d);
            resource_allocation.add(worker_name, d, WorkerDay::PubHolidays, Hours(0));
            pause_days.push(d);
            None
        },
        DayInfo::NonWorking => {
            pause_days.push(d);
            resource_allocation.add(worker_name, d, WorkerDay::PubHolidays, Hours(0));
            None
        },
    }
}

/// The completion date for a final cumulative offset.
fn end_date(begin: Date, offset: u64) -> (r: Date)
    requires
        begin.day <= MAX_START_DAY,
        offset <= OFFSET_LIMIT + 1000 * BURN_DAY_CAP + 1000,
    ensures
        r.day as int == end_day(begin.day as int, offset as int),
        begin.day <= r.day <= begin.day + (offset as int + 999) / 1000,
{
    let c = (offset + 999) / 1000;
    if c > 0 {
        begin.add_days(c - 1)
    } else {
        begin
    }
}

/// Burns one task's estimate forward from its start date, booking
/// ledger hours, pause days and absences as it goes; yields the final
/// cumulative offset and the completion date.  Fails when the task
/// cannot finish within `BURN_DAY_CAP` calendar days.
#[verifier::loop_isolation(false)]
fn burn_task(
    cal: &BusinessDaysCalendar,
    worker: &TeamMember,
    worker_name: &String,
    ff: u32,
    begin: Date,
    estimate_hours: u64,
    offset0: u64,
    resource_allocation: &mut ResourceAllocation,
    workers_absence: &mut Vec<WorkerAbsence>,
    public_holidays: &mut Vec<Date>,
    pause_days: &mut Vec<Date>,
) -> (r: Result<(u64, Date), ProcessError>)
    requires
        ledger_wf(old(resource_allocation)@),
        ledger_bounded(old(resource_allocation)@, HOURS_CEIL as int),
        1 <= ff <= 1000,
        estimate_hours <= 8 * MAX_ESTIMATE,
        offset0 <= OFFSET_LIMIT,
        begin.day <= MAX_START_DAY,
    ensures
        ledger_wf(final(resource_allocation)@),
        forall|w2: Seq<char>, d2: int|
            #[trigger] ledger_hours(final(resource_allocation)@, w2, d2) <= ledger_hours(
                old(resource_allocation)@,
                w2,
                d2,
            ) + 8000 * BURN_DAY_CAP,
        ({
            let st0 = burn_st(
                estimate_hours as int,
                offset0 as int,
                begin.day as int + offset0 as int / 1000,
                old(resource_allocation)@,
                absence_model(old(workers_absence)@),
                dates_model(old(public_holidays)@),
                dates_model(old(pause_days)@),
                Seq::empty(),
            );
            let res = spec_burn(
                cal,
                worker.holidays@,
                worker.other_duties@,
                worker_name@,
                ff as int,
                begin.day as int,
                st0,
                BURN_DAY_CAP as nat,
            );
            match r {
                Ok(pr) => {
                    &&& res matches Some(fin)
                    &&& final(resource_allocation)@ == fin.0.ledger
                    &&& absence_model(final(workers_absence)@) == fin.0.absence
                    &&& dates_model(final(public_holidays)@) == fin.0.holidays
                    &&& dates_model(final(pause_days)@) == fin.0.pauses
                    &&& pr.0 as int == fin.0.offset
                    &&& pr.1.day as int == fin.1
                    &&& pr.0 <= offset0 + 1000 * BURN_DAY_CAP
                    &&& begin.day <= pr.1.day <= begin.day + (pr.0 as int + 999) / 1000
                },
                Err(e) => res is None && e == ProcessError::HorizonExceeded,
            }
        }),
{
    let ghost wh = worker.holidays@;
    let ghost wd = worker.other_duties@;
    let ghost wname = worker_name@;
    let ghost st0 = burn_st(
        estimate_hours as int,
        offset0 as int,
        begin.day as int + offset0 as int / 1000,
        old(resource_allocation)@,
        absence_model(old(workers_absence)@),
        dates_model(old(public_holidays)@),
        dates_model(old(pause_days)@),
        Seq::empty(),
    );
    let ghost goal = spec_burn(cal, wh, wd, wname, ff as int, begin.day as int, st0, BURN_DAY_CAP as nat);
    let mut hours_to_burn = estimate_hours;
    let mut cumulative = offset0;
    let mut d = begin.add_days(cumulative / 1000);
    let mut steps: u64 = 0;
    let ghost mut postings: Seq<PostingM> = Seq::empty();
    while steps < BURN_DAY_CAP
        invariant
            0 <= steps <= BURN_DAY_CAP,
            cumulative <= offset0 + 1000 * steps,
            hours_to_burn <= estimate_hours,
            d.day as int == st0.date + steps,
            ledger_wf(resource_allocation@),
            forall|w2: Seq<char>, d2: int|
                #[trigger] ledger_hours(resource_allocation@, w2, d2) <= ledger_hours(
                    old(resource_allocation)@,
                    w2,
                    d2,
                ) + 8000 * steps,
            spec_burn(
                cal,
                wh,
                wd,
                wname,
                ff as int,
                begin.day as int,
                burn_st(
                    hours_to_burn as int,
                    cumulative as int,
                    d.day as int,
                    resource_allocation@,
                    absence_model(workers_absence@),
                    dates_model(public_holidays@),
                    dates_model(pause_days@),
                    postings,
                ),
                (BURN_DAY_CAP - steps) as nat,
            ) == goal,
        decreases BURN_DAY_CAP - steps,
    {
        let ghost stp = burn_st(
            hours_to_burn as int,
            cumulative as int,
            d.day as int,
            resource_allocation@,
            absence_model(workers_absence@),
            dates_model(public_holidays@),
            dates_model(pause_days@),
            postings,
        );
        let ghost rem = (BURN_DAY_CAP - steps) as nat;
        let day_info = get_day_info(&d, cal, worker);
        proof {
            assert(ledger_hours(resource_allocation@, wname, d.day as int) <= HOURS_CEIL + 8000
                * BURN_DAY_CAP);
        }
        let working_hrs_opt = get_working_day_len(
            &day_info,
            d,
            worker_name,
            workers_absence,
            resource_allocation,
            pause_days,
            public_holidays,
        );
        let working_hrs = match working_hrs_opt {
            Some(h) => h,
            None => {
                let ghost class = match day_info {
                    DayInfo::WorkerHolidays => WorkerDay::Holidays,
                    DayInfo::WorkerOtherDuties => WorkerDay::OtherDuties,
                    _ => WorkerDay::PubHolidays,
                };
                proof {
                    postings = postings.push(
                        PostingM { worker: wname, date: d.day as int, hours: 0, class },
                    );
                    lemma_ledger_add(stp.ledger, wname, d.day as int, 0, class);
                }
                cumulative = cumulative + 1000;
                d = d.add_days(1);
                steps = steps + 1;
                proof {
                    let stn = burn_st(
                        hours_to_burn as int,
                        cumulative as int,
                        d.day as int,
                        resource_allocation@,
                        absence_model(workers_absence@),
                        dates_model(public_holidays@),
                        dates_model(pause_days@),
                        postings,
                    );
                    assert(spec_burn(cal, wh, wd, wname, ff as int, begin.day as int, stp, rem)
                        == spec_burn(
                        cal,
                        wh,
                        wd,
                        wname,
                        ff as int,
                        begin.day as int,
                        stn,
                        (rem - 1) as nat,
                    )) by {
                        assert(stn =~~= BurnStateM {
                            hours_left: stp.hours_left,
                            offset: stp.offset + 1000,
                            date: stp.date + 1,
                            ledger: ledger_add(stp.ledger, wname, stp.date, 0, class),
                            absence: if day_info is NonWorking {
                                stp.absence
                            } else {
                                absence_add(stp.absence, wname, stp.date)
                            },
                            holidays: if day_info is NonWorkingPubHoliday {
                                stp.holidays.push(stp.date)
                            } else {
                                stp.holidays
                            },
                            pauses: stp.pauses.push(stp.date),
                            postings: stp.postings.push(
                                PostingM { worker: wname, date: stp.date, hours: 0, class },
                            ),
                        });
                    }
                }
                continue ;
            },
        };
        // a working day: compute the effective hours on offer
        proof {
            assert(working_hrs as int * ff as int <= 4294967295000) by (nonlinear_arith)
                requires
                    working_hrs <= 4294967295,
                    0 <= ff <= 1000,
            ;
        }
        let eff0 = (working_hrs as u64) * (ff as u64);
        proof {
            assert(eff0 as int * 1000 <= 4294967295000000);
        }
        let left = cumulative % 1000;
        let day_len = if left != 0 {
            1000 - left
        } else {
            1000
        };
        let eff = if left != 0 {
            proof {
                assert(eff0 as int * (1000 - left as int) <= 4294967295000000) by (nonlinear_arith)
                    requires
                        eff0 <= 4294967295000,
                        0 < left < 1000,
                ;
            }
            eff0 * (1000 - left) / 1000
        } else {
            eff0
        };
        if hours_to_burn >= eff {
            // consume the whole remaining day
            let booked = 8 * day_len;
            proof {
                lemma_ledger_add(stp.ledger, wname, d.day as int, booked as int, WorkerDay::Fine);
            }
            resource_allocation.add(worker_name, d, WorkerDay::Fine, Hours(booked));
            proof {
                postings = postings.push(
                    PostingM {
                        worker: wname,
                        date: d.day as int,
                        hours: booked as int,
                        class: WorkerDay::Fine,
                    },
                );
            }
            hours_to_burn = hours_to_burn - eff;
            cumulative = cumulative + day_len;
            if hours_to_burn == 0 {
                let end = end_date(begin, cumulative);
                proof {
                    let stn = burn_st(
                        0,
                        cumulative as int,
                        d.day as int + 1,
                        resource_allocation@,
                        absence_model(workers_absence@),
                        dates_model(public_holidays@),
                        dates_model(pause_days@),
                        postings,
                    );
                    assert(spec_burn(cal, wh, wd, wname, ff as int, begin.day as int, stp, rem)
                        == Some((stn, end_day(begin.day as int, cumulative as int)))) by {
                        assert(stn =~~= BurnStateM {
                            hours_left: stp.hours_left - eff,
                            offset: stp.offset + day_len,
                            date: stp.date + 1,
                            ledger: ledger_add(
                                stp.ledger,
                                wname,
                                stp.date,
                                8 * day_len,
                                WorkerDay::Fine,
                            ),
                            absence: stp.absence,
                            holidays: stp.holidays,
                            pauses: stp.pauses,
                            postings: stp.postings.push(
                                PostingM {
                                    worker: wname,
                                    date: stp.date,
                                    hours: 8 * day_len,
                                    class: WorkerDay::Fine,
                                },
                            ),
                        });
                    }
                }
                return Ok((cumulative, end));
            }
            d = d.add_days(1);
            steps = steps + 1;
            proof {
                let stn = burn_st(
                    hours_to_burn as int,
                    cumulative as int,
                    d.day as int,
                    resource_allocation@,
                    absence_model(workers_absence@),
                    dates_model(public_holidays@),
                    dates_model(pause_days@),
                    postings,
                );
                assert(spec_burn(cal, wh, wd, wname, ff as int, begin.day as int, stp, rem)
                    == spec_burn(
                    cal,
                    wh,
                    wd,
                    wname,
                    ff as int,
                    begin.day as int,
                    stn,
                    (rem - 1) as nat,
                )) by {
                    assert(stn =~~= BurnStateM {
                        hours_left: stp.hours_left - eff,
                        offset: stp.offset + day_len,
                        date: stp.date + 1,
                        ledger: ledger_add(
                            stp.ledger,
                            wname,
                            stp.date,
                            8 * day_len,
                            WorkerDay::Fine,
                        ),
                        absence: stp.absence,
                        holidays: stp.holidays,
                        pauses: stp.pauses,
                        postings: stp.postings.push(
                            PostingM {
                                worker: wname,
                                date: stp.date,
                                hours: 8 * day_len,
                                class: WorkerDay::Fine,
                            },
                        ),
                    });
                }
            }
        } else {
            // only a fraction of this day is needed; the task ends here
            let fraction = hours_to_burn * 1000 / eff;
            proof {
                assert(fraction < 1000) by (nonlinear_arith)
                    requires
                        hours_to_burn < eff,
                        eff > 0,
                        fraction == hours_to_burn as int * 1000 / eff as int,
                ;
            }
            proof {
                assert(8 * fraction as int * day_len as int <= 8000000) by (nonlinear_arith)
                    requires
                        0 <= fraction < 1000,
                        0 <= day_len <= 1000,
                ;
                assert(day_len as int * fraction as int <= 1000000) by (nonlinear_arith)
                    requires
                        0 <= fraction < 1000,
                        0 <= day_len <= 1000,
                ;
            }
            let booked = 8 * fraction * day_len / 1000;
            proof {
                lemma_ledger_add(
                    stp.ledger,
                    wname,
                    d.day as int,
                    booked as int,
                    WorkerDay::Underloaded,
                );
            }
            resource_allocation.add(worker_name, d, WorkerDay::Underloaded, Hours(booked));
            proof {
                postings = postings.push(
                    PostingM {
                        worker: wname,
                        date: d.day as int,
                        hours: booked as int,
                        class: WorkerDay::Underloaded,
                    },
                );
            }
            cumulative = cumulative + day_len * fraction / 1000;
            let end = end_date(begin, cumulative);
            proof {
                let stn = burn_st(
                    hours_to_burn as int,
                    cumulative as int,
                    d.day as int + 1,
                    resource_allocation@,
                    absence_model(workers_absence@),
                    dates_model(public_holidays@),
                    dates_model(pause_days@),
                    postings,
                );
                assert(spec_burn(cal, wh, wd, wname, ff as int, begin.day as int, stp, rem)
                    == Some((stn, end_day(begin.day as int, cumulative as int)))) by {
                    assert(stn =~~= BurnStateM {
                        hours_left: stp.hours_left,
                        offset: stp.offset + day_len * fraction / 1000,
                        date: stp.date + 1,
                        ledger: ledger_add(
                            stp.ledger,
                            wname,
                            stp.date,
                            8 * fraction * day_len / 1000,
                            WorkerDay::Underloaded,
                        ),
                        absence: stp.absence,
                        holidays: stp.holidays,
                        pauses: stp.pauses,
                        postings: stp.postings.push(
                            PostingM {
                                worker: wname,
                                date: stp.date,
                                hours: 8 * fraction * day_len / 1000,
                                class: WorkerDay::Underloaded,
                            },
                        ),
                    });
                }
            }
            return Ok((cumulative, end));
        }
    }
    Err(ProcessError::HorizonExceeded)
}

// ---------------------------------------------------------------------------
// the worklist run
// ---------------------------------------------------------------------------

/// Model of one scheduled task.
#[verifier::ext_equal]
pub struct TaskM {
    pub id: Seq<char>,
    pub name: Seq<char>,
    pub assignee: Seq<char>,
    pub after: Seq<Seq<char>>,
    pub start_on: int,
    pub end_on: int,
    pub pause_days: Seq<int>,
    pub duration_hours: int,
}

/// Model of a pass-through time marker.
#[verifier::ext_equal]
pub struct TimeMarkerM {
    pub time: Seq<DateObj>,
    pub label: Seq<char>,
    pub color: Option<Seq<char>>,
}

/// Model of the whole schedule result.
#[verifier::ext_equal]
pub struct GanttM {
    pub title: Seq<char>,
    pub tasks: Seq<TaskM>,
    pub project_starts: int,
    pub closed_days: Seq<Weekday>,
    pub workers_absence: Seq<AbsenceM>,
    pub public_holidays: Seq<int>,
    pub ledger: Seq<WorkerLedgerM>,
    pub time_markers: Seq<TimeMarkerM>,
}

/// Model of a run error.
pub enum ProcErrM {
    UnknownDependency(Seq<char>),
    TaskNotAssigned(Seq<char>),
    UnknownWorker(Seq<char>),
    UnknownCalendar(Seq<char>),
    CyclicDependency,
    HorizonExceeded,
}

pub open spec fn err_model(e: &ProcessError) -> ProcErrM {
    match e {
        ProcessError::UnknownDependency(s) => ProcErrM::UnknownDependency(s@),
        ProcessError::TaskNotAssigned(s) => ProcErrM::TaskNotAssigned(s@),
        ProcessError::UnknownWorker(s) => ProcErrM::UnknownWorker(s@),
        ProcessError::UnknownCalendar(s) => ProcErrM::UnknownCalendar(s@),
        ProcessError::CyclicDependency => ProcErrM::CyclicDependency,
        ProcessError::HorizonExceeded => ProcErrM::HorizonExceeded,
    }
}

pub open spec fn task_model(t: &Task) -> TaskM {
    TaskM {
        id: t.id@,
        name: t.name@,
        assignee: t.assignee@,
        after: t.after.deep_view(),
        start_on: t.start_on.day as int,
        end_on: t.end_on.day as int,
        pause_days: dates_model(t.pause_days@),
        duration_hours: t.duration_hours as int,
    }
}

pub open spec fn marker_model(tm: TimeMarker) -> TimeMarkerM {
    TimeMarkerM {
        time: tm.time@,
        label: tm.label@,
        color: if tm.color is Some {
            Some(tm.color->0@)
        } else {
            None
        },
    }
}

/// Model of the result aggregate.
pub open spec fn gantt_model(g: &GanttData) -> GanttM {
    GanttM {
        title: g.title@,
        tasks: g.tasks@.map_values(|t: Task| task_model(&t)),
        project_starts: g.project_starts.day as int,
        closed_days: g.closed_days@,
        workers_absence: absence_model(g.workers_absence@),
        public_holidays: dates_model(g.public_holidays@),
        ledger: g.resource_allocation@,
        time_markers: g.time_markers@.map_values(|tm: TimeMarker| marker_model(tm)),
    }
}

/// State of the worklist traversal.
#[verifier::ext_equal]
pub struct RunStateM {
    pub queue: Seq<int>,
    pub pending: Seq<int>,
    pub offsets: Seq<Option<int>>,
    pub starts: Seq<Option<int>>,
    pub processed: int,
    pub tasks: Seq<TaskM>,
    pub absence: Seq<AbsenceM>,
    pub holidays: Seq<int>,
    pub ledger: Seq<WorkerLedgerM>,
    pub postings: Seq<PostingM>,
    pub project_end: int,
}

pub open spec fn find_assignment(assignments: Seq<Assignment>, id: Seq<char>) -> int {
    find_first(assignments, |a: Assignment| a.task@ == id)
}

pub proof fn lemma_find_assignment(assignments: Seq<Assignment>, id: Seq<char>)
    ensures
        0 <= find_assignment(assignments, id) <= assignments.len(),
        find_assignment(assignments, id) < assignments.len() ==> assignments[find_assignment(
            assignments,
            id,
        )].task@ == id,
        forall|j: int| 0 <= j < find_assignment(assignments, id) ==> assignments[j].task@ != id,
    decreases assignments.len(),
{
    if assignments.len() > 0 && assignments[0].task@ != id {
        lemma_find_assignment(assignments.drop_first(), id);
        assert forall|j: int| 0 <= j < find_assignment(assignments, id) implies assignments[j].task@
            != id by {
            if j > 0 {
                assert(assignments.drop_first()[j - 1] == assignments[j]);
            }
        }
    }
}

pub open spec fn find_member(team: Seq<TeamMember>, name: Seq<char>) -> int {
    find_first(team, |t: TeamMember| t.name@ == name)
}

pub proof fn lemma_find_member(team: Seq<TeamMember>, name: Seq<char>)
    ensures
        0 <= find_member(team, name) <= team.len(),
        find_member(team, name) < team.len() ==> team[find_member(team, name)].name@ == name,
        forall|j: int| 0 <= j < find_member(team, name) ==> team[j].name@ != name,
    decreases team.len(),
{
    if team.len() > 0 && team[0].name@ != name {
        lemma_find_member(team.drop_first(), name);
        assert forall|j: int| 0 <= j < find_member(team, name) implies team[j].name@ != name by {
            if j > 0 {
                assert(team.drop_first()[j - 1] == team[j]);
            }
        }
    }
}

pub open spec fn find_calendar(cals: Seq<(String, BusinessDaysCalendar)>, name: Seq<char>) -> int {
    find_first(cals, |c: (String, BusinessDaysCalendar)| c.0@ == name)
}

pub proof fn lemma_find_calendar(cals: Seq<(String, BusinessDaysCalendar)>, name: Seq<char>)
    ensures
        0 <= find_calendar(cals, name) <= cals.len(),
        find_calendar(cals, name) < cals.len() ==> cals[find_calendar(cals, name)].0@ == name,
        forall|j: int| 0 <= j < find_calendar(cals, name) ==> cals[j].0@ != name,
    decreases cals.len(),
{
    if cals.len() > 0 && cals[0].0@ != name {
        lemma_find_calendar(cals.drop_first(), name);
        assert forall|j: int| 0 <= j < find_calendar(cals, name) implies cals[j].0@ != name by {
            if j > 0 {
                assert(cals.drop_first()[j - 1] == cals[j]);
            }
        }
    }
}

/// The start offset of a node: the largest memoized offset among its
/// parents (zero without parents; an unresolved parent counts as zero,
/// which the traversal order rules out).
pub open spec fn max_parent_offset(offsets: Seq<Option<int>>, parents: Seq<int>) -> int
    decreases parents.len(),
{
    if parents.len() == 0 {
        0
    } else {
        let rest = max_parent_offset(offsets, parents.drop_last());
        let p = parents.last();
        let v = if 0 <= p < offsets.len() && offsets[p] is Some {
            offsets[p]->0
        } else {
            0
        };
        if v > rest {
            v
        } else {
            rest
        }
    }
}

/// Hands the finished node's children their parent-done notice: each
/// pending count drops by one, and a child whose count reaches zero is
/// pushed to the front of the worklist (depth-first bias).
pub open spec fn enqueue_children(
    queue: Seq<int>,
    pending: Seq<int>,
    children: Seq<int>,
    k: int,
) -> (Seq<int>, Seq<int>)
    decreases children.len() - k when 0 <= k
{
    if k >= children.len() {
        (queue, pending)
    } else {
        let c = children[k];
        if 0 <= c < pending.len() && pending[c] == 1 {
            enqueue_children(queue.insert(0, c), pending.update(c, 0), children, k + 1)
        } else if 0 <= c < pending.len() && pending[c] > 1 {
            enqueue_children(queue, pending.update(c, pending[c] - 1), children, k + 1)
        } else {
            enqueue_children(queue, pending, children, k + 1)
        }
    }
}

/// Saturating u32-to-hours of a milli-day estimate: a full day counts
/// 24 hours.
pub open spec fn dur_hours(estimate: int) -> int {
    let q = 24 * estimate / 1000;
    if q > u32::MAX {
        u32::MAX as int
    } else {
        q
    }
}

/// Processes the node at the front of the worklist: resolves its start
/// offset from its parents, burns the task down against its assignee's
/// calendar, emits the scheduled task, and notifies its children.
pub open spec fn spec_step(
    proj: &ProjectConfig,
    cals: Seq<(String, BusinessDaysCalendar)>,
    gm: GraphM,
    st: RunStateM,
) -> Result<RunStateM, ProcErrM> {
    let i = st.queue[0];
    let queue1 = st.queue.drop_first();
    let task = proj.tasks@[i];
    let ai = find_assignment(proj.assignments@, task.id@);
    if !(0 <= i < proj.tasks@.len()) {
        Err(ProcErrM::CyclicDependency)
    } else if ai == proj.assignments@.len() {
        Err(ProcErrM::TaskNotAssigned(task.id@))
    } else {
        let assignment = proj.assignments@[ai];
        let wi = find_member(proj.team@, assignment.owner@);
        if wi == proj.team@.len() {
            Err(ProcErrM::UnknownWorker(assignment.owner@))
        } else {
            let worker = proj.team@[wi];
            let ci = find_calendar(cals, worker.base_calendar@);
            if ci == cals.len() {
                Err(ProcErrM::UnknownCalendar(worker.base_calendar@))
            } else {
                let start_offset = max_parent_offset(st.offsets, gm.parents[i]);
                let start_day = proj.start_date.day + start_offset / 1000;
                let ff = if assignment.focus_factor is Some {
                    assignment.focus_factor->0 as int
                } else {
                    worker.focus_factor as int
                };
                let bst0 = burn_st(
                    task.estimate * 8,
                    start_offset,
                    start_day,
                    st.ledger,
                    st.absence,
                    st.holidays,
                    Seq::empty(),
                    Seq::empty(),
                );
                match spec_burn(
                    &cals[ci].1,
                    worker.holidays@,
                    worker.other_duties@,
                    assignment.owner@,
                    ff,
                    proj.start_date.day as int,
                    bst0,
                    BURN_DAY_CAP as nat,
                ) {
                    None => Err(ProcErrM::HorizonExceeded),
                    Some(fin) => {
                        let tm = TaskM {
                            id: task.id@,
                            name: task.name@,
                            assignee: assignment.owner@,
                            after: task.after.deep_view(),
                            start_on: start_day,
                            end_on: fin.1,
                            pause_days: fin.0.pauses,
                            duration_hours: dur_hours(task.estimate as int),
                        };
                        let qp = enqueue_children(queue1, st.pending, gm.children[i], 0);
                        Ok(
                            RunStateM {
                                queue: qp.0,
                                pending: qp.1,
                                offsets: st.offsets.update(i, Some(fin.0.offset)),
                                starts: st.starts.update(i, Some(start_offset)),
                                processed: st.processed + 1,
                                tasks: st.tasks.push(tm),
                                absence: fin.0.absence,
                                holidays: fin.0.holidays,
                                ledger: fin.0.ledger,
                                postings: st.postings + fin.0.postings,
                                project_end: if fin.1 > st.project_end {
                                    fin.1
                                } else {
                                    st.project_end
                                },
                            },
                        )
                    },
                }
            }
        }
    }
}

/// Drains the worklist, processing one node per step.
pub open spec fn spec_run(
    proj: &ProjectConfig,
    cals: Seq<(String, BusinessDaysCalendar)>,
    gm: GraphM,
    st: RunStateM,
    fuel: nat,
) -> Result<RunStateM, ProcErrM>
    decreases fuel,
{
    if st.queue.len() == 0 {
        Ok(st)
    } else if fuel == 0 {
        Err(ProcErrM::CyclicDependency)
    } else {
        match spec_step(proj, cals, gm, st) {
            Err(e) => Err(e),
            Ok(st2) => spec_run(proj, cals, gm, st2, (fuel - 1) as nat),
        }
    }
}

// ---------------------------------------------------------------------------
// finalize
// ---------------------------------------------------------------------------

/// Reclassification by committed-hour thresholds (milli-hours, nominal
/// day 8000, tolerance 1): an overfull day is Overloaded, a partial day
/// Underloaded, a full day Fine; a zero-hour record keeps its
/// classification.
pub open spec fn spec_reclass(e: LedgerEntryM) -> LedgerEntryM {
    if e.hours >= 8001 {
        LedgerEntryM { date: e.date, hours: e.hours, class: WorkerDay::Overloaded }
    } else if 1 <= e.hours <= 7999 {
        LedgerEntryM { date: e.date, hours: e.hours, class: WorkerDay::Underloaded }
    } else if 7999 < e.hours < 8001 {
        LedgerEntryM { date: e.date, hours: e.hours, class: WorkerDay::Fine }
    } else {
        e
    }
}

/// Walks the project span day by day: an existing record is
/// reclassified, a missing day filled with a zero-hour Unassigned
/// record; records past the span are kept as they are.
pub open spec fn finalize_walk(
    days: Seq<LedgerEntryM>,
    j: int,
    day: int,
    end: int,
    acc: Seq<LedgerEntryM>,
) -> Seq<LedgerEntryM>
    decreases end + 1 - day when 0 <= j <= days.len()
{
    if day > end {
        acc + days.subrange(j, days.len() as int)
    } else if j < days.len() && days[j].date == day {
        finalize_walk(days, j + 1, day + 1, end, acc.push(spec_reclass(days[j])))
    } else {
        finalize_walk(
            days,
            j,
            day + 1,
            end,
            acc.push(LedgerEntryM { date: day, hours: 0, class: WorkerDay::Unassigned }),
        )
    }
}

/// The finalized ledger: every worker with any record gets exactly one
/// record for every day of the project span, reclassified by
/// committed-hour thresholds.
pub open spec fn ledger_finalize(led: Seq<WorkerLedgerM>, begin: int, end: int) -> Seq<
    WorkerLedgerM,
> {
    Seq::new(
        led.len(),
        |k: int|
            WorkerLedgerM {
                worker: led[k].worker,
                days: finalize_walk(led[k].days, 0, begin, end, Seq::empty()),
            },
    )
}

/// How many entries are memoized.
pub open spec fn count_some(s: Seq<Option<int>>) -> int
    decreases s.len(),
{
    if s.len() == 0 {
        0
    } else {
        count_some(s.drop_last()) + if s.last() is Some {
            1int
        } else {
            0int
        }
    }
}

pub proof fn lemma_count_some_le(s: Seq<Option<int>>, i: int)
    requires
        0 <= i < s.len(),
        s[i] is None,
    ensures
        count_some(s) < s.len(),
    decreases s.len(),
{
    if i < s.len() - 1 {
        lemma_count_some_le(s.drop_last(), i);
    } else {
        lemma_count_some_bound(s.drop_last());
    }
}

pub proof fn lemma_count_some_bound(s: Seq<Option<int>>)
    ensures
        0 <= count_some(s) <= s.len(),
    decreases s.len(),
{
    if s.len() > 0 {
        lemma_count_some_bound(s.drop_last());
    }
}

pub proof fn lemma_count_some_zero(s: Seq<Option<int>>)
    requires
        forall|k: int| 0 <= k < s.len() ==> (#[trigger] s[k]) is None,
    ensures
        count_some(s) == 0,
    decreases s.len(),
{
    if s.len() > 0 {
        lemma_count_some_zero(s.drop_last());
    }
}

pub proof fn lemma_count_some_update(s: Seq<Option<int>>, i: int, v: int)
    requires
        0 <= i < s.len(),
        s[i] is None,
    ensures
        count_some(s.update(i, Some(v))) == count_some(s) + 1,
    decreases s.len(),
{
    let s2 = s.update(i, Some(v));
    if i == s.len() - 1 {
        assert(s2.drop_last() =~= s.drop_last());
    } else {
        assert(s2.drop_last() =~= s.drop_last().update(i, Some(v)));
        assert(s2.last() == s.last());
        lemma_count_some_update(s.drop_last(), i, v);
    }
}

proof fn lemma_max_parent_bound(offsets: Seq<Option<int>>, parents: Seq<int>, b: int)
    requires
        b >= 0,
        forall|p: int| 0 <= p < offsets.len() && offsets[p] is Some ==> (#[trigger] offsets[p])->0 <= b,
    ensures
        0 <= max_parent_offset(offsets, parents) <= b,
    decreases parents.len(),
{
    if parents.len() > 0 {
        lemma_max_parent_bound(offsets, parents.drop_last(), b);
    }
}

/// Input bounds forced by the machine word size.
pub open spec fn process_input_ok(proj: &ProjectConfig) -> bool {
    &&& proj.tasks@.len() <= MAX_TASKS
    &&& forall|i: int| 0 <= i < proj.tasks@.len() ==> (#[trigger] proj.tasks@[i]).estimate
        <= MAX_ESTIMATE
    &&& forall|i: int|
        0 <= i < proj.team@.len() ==> 1 <= (#[trigger] proj.team@[i]).focus_factor <= 1000
    &&& forall|i: int|
        0 <= i < proj.assignments@.len() ==> ((#[trigger] proj.assignments@[i]).focus_factor
            matches Some(f) ==> 1 <= f <= 1000)
    &&& proj.start_date.day <= MAX_START_DAY
}

/// The initial worklist state for a built graph.
pub open spec fn spec_init_state(proj: &ProjectConfig, gm: GraphM) -> RunStateM {
    let n = proj.tasks@.len() as int;
    RunStateM {
        queue: gm.starting,
        pending: Seq::new(n as nat, |i: int| gm.parents[i].len() as int),
        offsets: Seq::new(n as nat, |_i: int| None),
        starts: Seq::new(n as nat, |_i: int| None),
        processed: 0,
        tasks: Seq::empty(),
        absence: Seq::empty(),
        holidays: Seq::empty(),
        ledger: Seq::empty(),
        postings: Seq::empty(),
        project_end: proj.start_date.day as int,
    }
}

/// The traversal's final state: graph build, worklist drain, and cycle
/// detection.
pub open spec fn spec_run_result(
    proj: &ProjectConfig,
    cals: Seq<(String, BusinessDaysCalendar)>,
) -> Result<RunStateM, ProcErrM> {
    match spec_build_graph(proj.tasks@) {
        Err(id) => Err(ProcErrM::UnknownDependency(id)),
        Ok(gm) => {
            match spec_run(proj, cals, gm, spec_init_state(proj, gm), proj.tasks@.len()) {
                Err(e) => Err(e),
                Ok(st) => if st.processed < proj.tasks@.len() {
                    Err(ProcErrM::CyclicDependency)
                } else {
                    Ok(st)
                },
            }
        },
    }
}

/// The meaning of a whole run: graph build, worklist traversal with
/// cycle detection, ledger finalize, and result assembly.
pub open spec fn spec_process(
    proj: &ProjectConfig,
    cals: Seq<(String, BusinessDaysCalendar)>,
) -> Result<GanttM, ProcErrM> {
    match spec_run_result(proj, cals) {
        Err(e) => Err(e),
        Ok(st) => Ok(
            GanttM {
                            title: proj.project_name@,
                            tasks: st.tasks,
                            project_starts: proj.start_date.day as int,
                            closed_days: if cals.len() > 0 {
                                cals[0].1.closed_days@
                            } else {
                                Seq::empty()
                            },
                            workers_absence: st.absence,
                            public_holidays: st.holidays,
                            ledger: ledger_finalize(
                                st.ledger,
                                proj.start_date.day as int,
                                st.project_end,
                            ),
                            time_markers: if proj.time_markers is Some {
                                proj.time_markers->0@.map_values(
                                    |tm: TimeMarker| marker_model(tm),
                                )
                            } else {
                                Seq::empty()
                            },
            },
        ),
    }
}

// ---------------------------------------------------------------------------
// executable finalize and helpers
// ---------------------------------------------------------------------------

/// Model of one ledger record.
pub open spec fn day_alloc_m(e: DayAllocation) -> LedgerEntryM {
    LedgerEntryM { date: e.date.day as int, hours: e.hours.0 as int, class: e.day }
}

fn reclass_day(e: DayAllocation) -> (r: DayAllocation)
    ensures
        day_alloc_m(r) == spec_reclass(day_alloc_m(e)),
{
    let h = e.hours.0;
    if h >= 8001 {
        DayAllocation { date: e.date, hours: e.hours, day: WorkerDay::Overloaded }
    } else if 1 <= h && h <= 7999 {
        DayAllocation { date: e.date, hours: e.hours, day: WorkerDay::Underloaded }
    } else if 7999 < h && h < 8001 {
        DayAllocation { date: e.date, hours: e.hours, day: WorkerDay::Fine }
    } else {
        e
    }
}

/// Fills every gap day of the project span with a zero-hour Unassigned
/// record and reclassifies every record by committed-hour thresholds.
#[verifier::loop_isolation(false)]
fn finalize_allocation(alloc: &mut ResourceAllocation, begin: Date, end: Date)
    requires
        begin.day <= end.day,
        end.day < u64::MAX - 2,
    ensures
        final(alloc)@ == ledger_finalize(old(alloc)@, begin.day as int, end.day as int),
{
    let ghost led0 = old(alloc)@;
    let ghost b = begin.day as int;
    let ghost e = end.day as int;
    let n = alloc.0.len();
    let mut wi: usize = 0;
    while wi < n
        invariant
            n == alloc.0@.len(),
            0 <= wi <= n,
            forall|k: int| 0 <= k < wi ==> alloc@[k] == ledger_finalize(led0, b, e)[k],
            forall|k: int| wi <= k < n ==> alloc@[k] == led0[k],
        decreases n - wi,
    {
        let ghost days_m = led0[wi as int].days;
        let ghost snap = alloc.0@;
        let mut new_days: Vec<DayAllocation> = Vec::new();
        let mut j: usize = 0;
        let mut dcur: u64 = begin.day;
        proof {
            assert(Seq::new(new_days@.len(), |x: int| day_alloc_m(new_days@[x]))
                =~= Seq::<LedgerEntryM>::empty());
        }
        while dcur <= end.day
            invariant
                0 <= wi < n,
                alloc.0@ == snap,
                n == alloc.0@.len(),
                forall|k: int| wi <= k < n ==> alloc@[k] == led0[k],
                begin.day <= dcur <= end.day + 1,
                0 <= j <= alloc.0@[wi as int].days@.len(),
                days_m == led0[wi as int].days,
                finalize_walk(
                    days_m,
                    j as int,
                    dcur as int,
                    e,
                    Seq::new(new_days@.len(), |x: int| day_alloc_m(new_days@[x])),
                ) == finalize_walk(days_m, 0, b, e, Seq::empty()),
            decreases end.day + 1 - dcur,
        {
            let ghost acc0 = Seq::new(new_days@.len(), |x: int| day_alloc_m(new_days@[x]));
            if j < alloc.0[wi].days.len() && alloc.0[wi].days[j].date.day == dcur {
                new_days.push(reclass_day(alloc.0[wi].days[j]));
                j = j + 1;
                proof {
                    assert(Seq::new(new_days@.len(), |x: int| day_alloc_m(new_days@[x]))
                        =~= acc0.push(spec_reclass(days_m[j as int - 1])));
                }
            } else {
                new_days.push(
                    DayAllocation {
                        date: Date { day: dcur },
                        hours: Hours(0),
                        day: WorkerDay::Unassigned,
                    },
                );
                proof {
                    assert(Seq::new(new_days@.len(), |x: int| day_alloc_m(new_days@[x]))
                        =~= acc0.push(
                        LedgerEntryM { date: dcur as int, hours: 0, class: WorkerDay::Unassigned },
                    ));
                }
            }
            dcur = dcur + 1;
        }
        while j < alloc.0[wi].days.len()
            invariant
                0 <= wi < n,
                alloc.0@ == snap,
                n == alloc.0@.len(),
                forall|k: int| wi <= k < n ==> alloc@[k] == led0[k],
                0 <= j <= alloc.0@[wi as int].days@.len(),
                days_m == led0[wi as int].days,
                Seq::new(new_days@.len(), |x: int| day_alloc_m(new_days@[x])) + days_m.subrange(
                    j as int,
                    days_m.len() as int,
                ) == finalize_walk(days_m, 0, b, e, Seq::empty()),
            decreases alloc.0@[wi as int].days@.len() - j,
        {
            let ghost acc0 = Seq::new(new_days@.len(), |x: int| day_alloc_m(new_days@[x]));
            new_days.push(alloc.0[wi].days[j]);
            j = j + 1;
            proof {
                assert(Seq::new(new_days@.len(), |x: int| day_alloc_m(new_days@[x])) =~= acc0.push(
                    days_m[j as int - 1],
                ));
                assert(acc0.push(days_m[j as int - 1]) + days_m.subrange(
                    j as int,
                    days_m.len() as int,
                ) =~= acc0 + days_m.subrange(j as int - 1, days_m.len() as int));
            }
        }
        let ghost led_before = alloc@;
        let wa: &mut WorkerAllocation = &mut alloc.0[wi];
        wa.days = new_days;
        proof {
            assert(alloc@[wi as int].days =~= finalize_walk(days_m, 0, b, e, Seq::empty()));
            assert(alloc@[wi as int] =~~= ledger_finalize(led0, b, e)[wi as int]);
            assert forall|k: int| 0 <= k < wi as int + 1 implies alloc@[k] == ledger_finalize(
                led0,
                b,
                e,
            )[k] by {
                if k < wi as int {
                    assert(alloc.0@[k] == snap[k]);
                    assert(alloc@[k] =~~= led_before[k]);
                    assert(led_before[k] == ledger_finalize(led0, b, e)[k]);
                }
            }
        }
        wi = wi + 1;
    }
    assert(alloc@ =~~= ledger_finalize(led0, b, e));
}

/// A deep copy of a string list.
fn clone_strings(v: &Vec<String>) -> (r: Vec<String>)
    ensures
        r.deep_view() == v.deep_view(),
{
    let mut r: Vec<String> = Vec::new();
    let mut i: usize = 0;
    while i < v.len()
        invariant
            0 <= i <= v@.len(),
            r@.len() == i,
            forall|j: int| 0 <= j < i ==> #[trigger] r@[j]@ == v@[j]@,
        decreases v@.len() - i,
    {
        r.push(v[i].clone());
        i = i + 1;
    }
    assert(r.deep_view() =~~= v.deep_view());
    r
}

/// A copy of a weekday list.
fn clone_weekdays(v: &Vec<Weekday>) -> (r: Vec<Weekday>)
    ensures
        r@ == v@,
{
    let mut r: Vec<Weekday> = Vec::new();
    let mut i: usize = 0;
    while i < v.len()
        invariant
            0 <= i <= v@.len(),
            r@ =~= v@.subrange(0, i as int),
        decreases v@.len() - i,
    {
        r.push(v[i]);
        i = i + 1;
    }
    assert(r@ =~= v@);
    r
}

/// A deep copy of the pass-through time markers.
fn clone_markers(v: &Vec<TimeMarker>) -> (r: Vec<TimeMarker>)
    ensures
        r@.map_values(|tm: TimeMarker| marker_model(tm)) == v@.map_values(
            |tm: TimeMarker| marker_model(tm),
        ),
{
    let mut r: Vec<TimeMarker> = Vec::new();
    let mut i: usize = 0;
    while i < v.len()
        invariant
            0 <= i <= v@.len(),
            r@.len() == i,
            forall|j: int|
                0 <= j < i ==> #[trigger] marker_model(r@[j]) == marker_model(v@[j]),
        decreases v@.len() - i,
    {
        let m = &v[i];
        let mut time: Vec<DateObj> = Vec::new();
        let mut k: usize = 0;
        while k < m.time.len()
            invariant
                0 <= k <= m.time@.len(),
                time@ =~= m.time@.subrange(0, k as int),
            decreases m.time@.len() - k,
        {
            time.push(m.time[k]);
            k = k + 1;
        }
        assert(time@ =~= m.time@);
        let color = match &m.color {
            Some(c) => Some(c.clone()),
            None => None,
        };
        let tm = TimeMarker { time, label: m.label.clone(), color };
        assert(marker_model(tm) =~~= marker_model(v@[i as int]));
        r.push(tm);
        i = i + 1;
    }
    assert(r@.map_values(|tm: TimeMarker| marker_model(tm)) =~= v@.map_values(
        |tm: TimeMarker| marker_model(tm),
    ));
    r
}

fn find_assignment_index(assignments: &Vec<Assignment>, id: &String) -> (r: usize)
    ensures
        r as int == find_assignment(assignments@, id@),
        r <= assignments@.len(),
{
    proof {
        lemma_find_assignment(assignments@, id@);
    }
    let mut i: usize = 0;
    while i < assignments.len()
        invariant
            0 <= i <= assignments@.len(),
            forall|j: int| 0 <= j < i ==> assignments@[j].task@ != id@,
        decreases assignments@.len() - i,
    {
        if assignments[i].task == *id {
            proof {
                lemma_find_assignment(assignments@, id@);
            }
            return i;
        }
        i = i + 1;
    }
    proof {
        lemma_find_assignment(assignments@, id@);
    }
    i
}

fn find_member_index(team: &Vec<TeamMember>, name: &String) -> (r: usize)
    ensures
        r as int == find_member(team@, name@),
        r <= team@.len(),
{
    proof {
        lemma_find_member(team@, name@);
    }
    let mut i: usize = 0;
    while i < team.len()
        invariant
            0 <= i <= team@.len(),
            forall|j: int| 0 <= j < i ==> team@[j].name@ != name@,
        decreases team@.len() - i,
    {
        if team[i].name == *name {
            proof {
                lemma_find_member(team@, name@);
            }
            return i;
        }
        i = i + 1;
    }
    proof {
        lemma_find_member(team@, name@);
    }
    i
}

pub open spec fn offsets_model(s: Seq<Option<u64>>) -> Seq<Option<int>> {
    s.map_values(
        |o: Option<u64>|
            if o is Some {
                Some(o->0 as int)
            } else {
                None
            },
    )
}

pub open spec fn tasks_model(s: Seq<Task>) -> Seq<TaskM> {
    s.map_values(|t: Task| task_model(&t))
}

pub open spec fn in_queue(q: Seq<usize>, c: int) -> bool {
    exists|k: int| 0 <= k < q.len() && #[trigger] q[k] == c
}

/// Builds a run state from its parts.
pub open spec fn run_st(
    queue: Seq<int>,
    pending: Seq<int>,
    offsets: Seq<Option<int>>,
    starts: Seq<Option<int>>,
    processed: int,
    tasks: Seq<TaskM>,
    absence: Seq<AbsenceM>,
    holidays: Seq<int>,
    ledger: Seq<WorkerLedgerM>,
    postings: Seq<PostingM>,
    project_end: int,
) -> RunStateM {
    RunStateM {
        queue,
        pending,
        offsets,
        starts,
        processed,
        tasks,
        absence,
        holidays,
        ledger,
        postings,
        project_end,
    }
}

fn find_calendar_index(cals: &Vec<(String, BusinessDaysCalendar)>, name: &String) -> (r: usize)
    ensures
        r as int == find_calendar(cals@, name@),
        r <= cals@.len(),
{
    proof {
        lemma_find_calendar(cals@, name@);
    }
    let mut i: usize = 0;
    while i < cals.len()
        invariant
            0 <= i <= cals@.len(),
            forall|j: int| 0 <= j < i ==> cals@[j].0@ != name@,
        decreases cals@.len() - i,
    {
        if cals[i].0 == *name {
            proof {
                lemma_find_calendar(cals@, name@);
            }
            return i;
        }
        i = i + 1;
    }
    proof {
        lemma_find_calendar(cals@, name@);
    }
    i
}

/// Computes the whole schedule: builds the dependency graph, drains the
/// worklist resolving each task's start from its parents and burning its
/// estimate down against its assignee's calendar, then finalizes the
/// resource ledger over the project span.
#[verifier::loop_isolation(false)]
#[verifier::rlimit(100)]
pub fn process(
    _cfg: &Config,
    proj: &ProjectConfig,
    calendars: &Vec<(String, BusinessDaysCalendar)>,
) -> (r: Result<GanttData, ProcessError>)
    requires
        process_input_ok(proj),
    ensures
        match spec_process(proj, calendars@) {
            Ok(m) => r matches Ok(g) && gantt_model(&g) == m,
            Err(e) => r matches Err(e2) && err_model(&e2) == e,
        },
{
    let n = proj.tasks.len();
    let g = match build_task_graph(&proj.tasks) {
        Ok(g) => g,
        Err(e) => {
            return Err(e);
        },
    };
    let ghost gm = spec_build_graph(proj.tasks@)->Ok_0;
    let Graph { starting_points: mut task_queue, graph: nodes } = g;
    let mut pending: Vec<usize> = Vec::new();
    let mut i0: usize = 0;
    while i0 < n
        invariant
            0 <= i0 <= n,
            pending@.len() == i0,
            forall|k: int| 0 <= k < i0 ==> #[trigger] pending@[k] == nodes@[k].parents@.len(),
        decreases n - i0,
    {
        pending.push(nodes[i0].parents.len());
        i0 = i0 + 1;
    }
    let mut offsets: Vec<Option<u64>> = Vec::new();
    let mut i1: usize = 0;
    while i1 < n
        invariant
            0 <= i1 <= n,
            offsets@.len() == i1,
            forall|k: int| 0 <= k < i1 ==> (#[trigger] offsets@[k]) is None,
        decreases n - i1,
    {
        offsets.push(None);
        i1 = i1 + 1;
    }
    let ghost mut starts_g: Seq<Option<int>> = Seq::new(n as nat, |_i: int| None);
    let mut tasks_out: Vec<Task> = Vec::new();
    let mut workers_absence: Vec<WorkerAbsence> = Vec::new();
    let mut public_holidays: Vec<Date> = Vec::new();
    let mut resource_allocation = ResourceAllocation::new();
    let ghost mut postings_g: Seq<PostingM> = Seq::empty();
    let project_begin = proj.start_date;
    let mut project_end = project_begin;
    let mut processed: usize = 0;
    let ghost st0 = run_st(
        gm.starting,
        Seq::new(n as nat, |i: int| gm.parents[i].len() as int),
        Seq::new(n as nat, |_i: int| None),
        Seq::new(n as nat, |_i: int| None),
        0,
        Seq::empty(),
        Seq::empty(),
        Seq::empty(),
        Seq::empty(),
        Seq::empty(),
        proj.start_date.day as int,
    );
    let ghost goal = spec_run(proj, calendars@, gm, st0, n as nat);
    proof {
        assert(usize_seq(task_queue@) == gm.starting);
        assert(usize_seq(pending@) =~= Seq::new(n as nat, |i: int| gm.parents[i].len() as int)) by {
            assert(forall|k: int|
                0 <= k < n ==> #[trigger] gm.parents[k] == usize_seq(nodes@[k].parents@));
        }
        assert(offsets_model(offsets@) =~= Seq::new(n as nat, |_i: int| None::<int>));
        assert(tasks_model(tasks_out@) =~= Seq::<TaskM>::empty());
        assert(absence_model(workers_absence@) =~= Seq::<AbsenceM>::empty());
        assert(dates_model(public_holidays@) =~= Seq::<int>::empty());
        assert(count_some(offsets_model(offsets@)) == 0) by {
            lemma_count_some_zero(offsets_model(offsets@));
        }
        lemma_starting_upto(proj.tasks@, n as int);
        assert(gm.starting == spec_starting_upto(proj.tasks@, n as int));
        lemma_link_edges_par_len(
            proj.tasks@,
            0,
            0,
            Seq::new(proj.tasks@.len(), |_i: int| Seq::<int>::empty()),
            Seq::new(proj.tasks@.len(), |_i: int| Seq::<int>::empty()),
        );
        assert(usize_seq(task_queue@).no_duplicates()) by {
            assert forall|a: int, b: int|
                0 <= a < usize_seq(task_queue@).len() && 0 <= b < usize_seq(task_queue@).len() && a
                    != b implies usize_seq(task_queue@)[a] != usize_seq(task_queue@)[b] by {
                if a < b {
                    assert(gm.starting[a] < gm.starting[b]);
                } else {
                    assert(gm.starting[b] < gm.starting[a]);
                }
            }
        }
        assert forall|k: int| 0 <= k < task_queue@.len() implies (#[trigger] task_queue@[k]) < n
            && offsets@[task_queue@[k] as int] is None by {
            assert(gm.starting[k] == task_queue@[k] as int);
            assert(0 <= gm.starting[k] < n);
        }
        assert forall|c: int|
            0 <= c < n && (offsets@[c] is Some || in_queue(task_queue@, c)) implies pending@[c]
            == 0 by {
            if in_queue(task_queue@, c) {
                let k = choose|k: int|
                    0 <= k < task_queue@.len() && #[trigger] task_queue@[k] == c;
                assert(gm.starting[k] == c);
                assert(proj.tasks@[c].after@.len() == 0);
                assert(gm.parents[c].len() == 0);
            }
        }
        assert(run_st(
            usize_seq(task_queue@),
            usize_seq(pending@),
            offsets_model(offsets@),
            starts_g,
            0,
            tasks_model(tasks_out@),
            absence_model(workers_absence@),
            dates_model(public_holidays@),
            resource_allocation@,
            postings_g,
            project_end.day as int,
        ) =~~= st0);
    }
    while task_queue.len() > 0
        invariant
            offsets@.len() == n,
            pending@.len() == n,
            nodes@.len() == n,
            starts_g.len() == n,
            0 <= processed <= n,
            processed as int == count_some(offsets_model(offsets@)),
            usize_seq(task_queue@).no_duplicates(),
            forall|k: int|
                0 <= k < task_queue@.len() ==> (#[trigger] task_queue@[k]) < n
                    && offsets@[task_queue@[k] as int] is None,
            forall|c: int|
                0 <= c < n && (offsets@[c] is Some || in_queue(task_queue@, c))
                    ==> (#[trigger] pending@[c]) == 0,
            ledger_wf(resource_allocation@),
            forall|w2: Seq<char>, d2: int|
                #[trigger] ledger_hours(resource_allocation@, w2, d2) <= 3200000000 * processed,
            forall|c: int|
                0 <= c < n && (#[trigger] offsets@[c]) is Some ==> offsets@[c]->0 <= 400000000
                    * processed,
            project_begin.day <= project_end.day,
            project_end.day as int <= project_begin.day as int + 400000400001,
            spec_run(
                proj,
                calendars@,
                gm,
                run_st(
                    usize_seq(task_queue@),
                    usize_seq(pending@),
                    offsets_model(offsets@),
                    starts_g,
                    processed as int,
                    tasks_model(tasks_out@),
                    absence_model(workers_absence@),
                    dates_model(public_holidays@),
                    resource_allocation@,
                    postings_g,
                    project_end.day as int,
                ),
                (n - processed) as nat,
            ) == goal,
        decreases n - processed,
    {
        let ghost cur = run_st(
            usize_seq(task_queue@),
            usize_seq(pending@),
            offsets_model(offsets@),
            starts_g,
            processed as int,
            tasks_model(tasks_out@),
            absence_model(workers_absence@),
            dates_model(public_holidays@),
            resource_allocation@,
            postings_g,
            project_end.day as int,
        );
        let ghost fuel = (n - processed) as nat;
        let ghost q0 = task_queue@;
        let i = task_queue.remove(0);
        proof {
            assert(cur.queue[0] == i as int);
            assert(i < n && offsets@[i as int] is None);
            lemma_count_some_le(offsets_model(offsets@), i as int);
            assert(fuel >= 1);
            assert(usize_seq(task_queue@) =~= cur.queue.drop_first());
            assert forall|k: int| 0 <= k < task_queue@.len() implies (#[trigger] task_queue@[k])
                < n && offsets@[task_queue@[k] as int] is None by {
                assert(task_queue@[k] == q0[k + 1]);
            }
            assert(usize_seq(task_queue@).no_duplicates()) by {
                assert(forall|k: int|
                    0 <= k < task_queue@.len() ==> usize_seq(task_queue@)[k] == usize_seq(q0)[k
                        + 1]);
            }
            assert forall|c: int|
                0 <= c < n && (offsets@[c] is Some || in_queue(task_queue@, c)) implies (
            #[trigger] pending@[c]) == 0 by {
                if in_queue(task_queue@, c) {
                    let k = choose|k: int|
                        0 <= k < task_queue@.len() && #[trigger] task_queue@[k] == c;
                    assert(q0[k + 1] == c);
                    assert(in_queue(q0, c));
                }
            }
        }
        let task_id = &proj.tasks[i].id;
        let ai = find_assignment_index(&proj.assignments, task_id);
        if ai == proj.assignments.len() {
            proof {
                assert(spec_step(proj, calendars@, gm, cur) == Err::<RunStateM, ProcErrM>(
                    ProcErrM::TaskNotAssigned(proj.tasks@[i as int].id@),
                ));
                assert(goal == Err::<RunStateM, ProcErrM>(
                    ProcErrM::TaskNotAssigned(proj.tasks@[i as int].id@),
                ));
            }
            return Err(ProcessError::TaskNotAssigned(proj.tasks[i].id.clone()));
        }
        let assignment = &proj.assignments[ai];
        let wi = find_member_index(&proj.team, &assignment.owner);
        if wi == proj.team.len() {
            proof {
                assert(spec_step(proj, calendars@, gm, cur) == Err::<RunStateM, ProcErrM>(
                    ProcErrM::UnknownWorker(assignment.owner@),
                ));
                assert(goal == Err::<RunStateM, ProcErrM>(
                    ProcErrM::UnknownWorker(assignment.owner@),
                ));
            }
            return Err(ProcessError::UnknownWorker(assignment.owner.clone()));
        }
        let worker = &proj.team[wi];
        let ci = find_calendar_index(calendars, &worker.base_calendar);
        if ci == calendars.len() {
            proof {
                assert(spec_step(proj, calendars@, gm, cur) == Err::<RunStateM, ProcErrM>(
                    ProcErrM::UnknownCalendar(worker.base_calendar@),
                ));
                assert(goal == Err::<RunStateM, ProcErrM>(
                    ProcErrM::UnknownCalendar(worker.base_calendar@),
                ));
            }
            return Err(ProcessError::UnknownCalendar(worker.base_calendar.clone()));
        }
        let worker_cal = &calendars[ci].1;
        // start offset: the largest memoized offset among the parents
        let parents_len = nodes[i].parents.len();
        let mut so: u64 = 0;
        let mut pk: usize = 0;
        while pk < parents_len
            invariant
                0 <= pk <= parents_len,
                parents_len == nodes@[i as int].parents@.len(),
                i < n,
                so as int == max_parent_offset(
                    offsets_model(offsets@),
                    usize_seq(nodes@[i as int].parents@).subrange(0, pk as int),
                ),
                so <= 400000000 * processed,
            decreases parents_len - pk,
        {
            let p = nodes[i].parents[pk];
            proof {
                let ps = usize_seq(nodes@[i as int].parents@);
                assert(ps.subrange(0, pk as int + 1).drop_last() =~= ps.subrange(0, pk as int));
                assert(ps.subrange(0, pk as int + 1).last() == p as int);
            }
            if p < n {
                match offsets[p] {
                    Some(v) => {
                        if v > so {
                            so = v;
                        }
                    },
                    None => {},
                }
            }
            pk = pk + 1;
        }
        proof {
            assert(usize_seq(nodes@[i as int].parents@).subrange(0, parents_len as int)
                =~= usize_seq(nodes@[i as int].parents@));
            assert(gm.parents[i as int] == usize_seq(nodes@[i as int].parents@));
        }
        let ff = match assignment.focus_factor {
            Some(f) => f,
            None => worker.focus_factor,
        };
        let est_hours = proj.tasks[i].estimate * 8;
        let start_on = project_begin.add_days(so / 1000);
        let mut pause_days: Vec<Date> = Vec::new();
        proof {
            assert(dates_model(pause_days@) =~= Seq::<int>::empty());
            assert(ledger_bounded(resource_allocation@, HOURS_CEIL as int)) by {
                assert(forall|w2: Seq<char>, d2: int|
                    #[trigger] ledger_hours(resource_allocation@, w2, d2) <= 3200000000
                        * processed);
            }
        }
        let ghost led_before = resource_allocation@;
        let ghost bst0 = burn_st(
            est_hours as int,
            so as int,
            project_begin.day as int + so as int / 1000,
            led_before,
            absence_model(workers_absence@),
            dates_model(public_holidays@),
            Seq::empty(),
            Seq::empty(),
        );
        let burn_res = burn_task(
            worker_cal,
            worker,
            &assignment.owner,
            ff,
            project_begin,
            est_hours,
            so,
            &mut resource_allocation,
            &mut workers_absence,
            &mut public_holidays,
            &mut pause_days,
        );
        let (new_offset, end_on) = match burn_res {
            Ok(pr) => pr,
            Err(e) => {
                proof {
                    assert(spec_step(proj, calendars@, gm, cur) == Err::<RunStateM, ProcErrM>(
                        ProcErrM::HorizonExceeded,
                    ));
                    assert(goal == Err::<RunStateM, ProcErrM>(ProcErrM::HorizonExceeded));
                }
                return Err(e);
            },
        };
        let ghost fin = spec_burn(
            &calendars@[ci as int].1,
            worker.holidays@,
            worker.other_duties@,
            assignment.owner@,
            ff as int,
            project_begin.day as int,
            bst0,
            BURN_DAY_CAP as nat,
        )->0;
        let ghost om_before = offsets_model(offsets@);
        offsets.set(i, Some(new_offset));
        proof {
            assert(offsets_model(offsets@) =~= om_before.update(
                i as int,
                Some(new_offset as int),
            ));
            lemma_count_some_update(om_before, i as int, new_offset as int);
            starts_g = starts_g.update(i as int, Some(so as int));
            postings_g = postings_g + fin.0.postings;
            assert forall|k: int| 0 <= k < task_queue@.len() implies (#[trigger] task_queue@[k])
                < n && offsets@[task_queue@[k] as int] is None by {
                assert(task_queue@[k] == q0[k + 1]);
                assert(usize_seq(q0)[k + 1] != usize_seq(q0)[0]);
            }
            assert forall|c: int|
                0 <= c < n && (offsets@[c] is Some || in_queue(task_queue@, c)) implies pending@[c]
                == 0 by {
                if c == i as int {
                    assert(in_queue(q0, c));
                } else {
                    assert(offsets_model(offsets@)[c] == om_before[c]);
                    if in_queue(task_queue@, c) {
                        let k = choose|k: int|
                            0 <= k < task_queue@.len() && #[trigger] task_queue@[k] == c;
                        assert(q0[k + 1] == c);
                        assert(in_queue(q0, c));
                    }
                }
            }
        }
        processed = processed + 1;
        let duration_hours_u = 24 * proj.tasks[i].estimate / 1000;
        let duration_hours: u32 = if duration_hours_u > u32::MAX as u64 {
            u32::MAX
        } else {
            duration_hours_u as u32
        };
        let new_task = Task {
            id: proj.tasks[i].id.clone(),
            name: proj.tasks[i].name.clone(),
            assignee: assignment.owner.clone(),
            after: clone_strings(&proj.tasks[i].after),
            start_on,
            end_on,
            pause_days,
            duration_hours,
        };
        let ghost tasks_before = tasks_model(tasks_out@);
        tasks_out.push(new_task);
        if end_on.day > project_end.day {
            project_end = end_on;
        }
        // notify the children: a child whose last parent finished joins
        // the front of the worklist
        let ghost q1 = usize_seq(task_queue@);
        let ghost p1 = usize_seq(pending@);
        let ghost chs = usize_seq(nodes@[i as int].children@);
        let children_len = nodes[i].children.len();
        let mut ck: usize = 0;
        while ck < children_len
            invariant
                0 <= ck <= children_len,
                children_len == nodes@[i as int].children@.len(),
                i < n,
                pending@.len() == n,
                offsets@.len() == n,
                chs == usize_seq(nodes@[i as int].children@),
                enqueue_children(usize_seq(task_queue@), usize_seq(pending@), chs, ck as int)
                    == enqueue_children(q1, p1, chs, 0),
                usize_seq(task_queue@).no_duplicates(),
                forall|k: int|
                    0 <= k < task_queue@.len() ==> (#[trigger] task_queue@[k]) < n
                        && offsets@[task_queue@[k] as int] is None,
                forall|c: int|
                    0 <= c < n && (offsets@[c] is Some || in_queue(task_queue@, c))
                        ==> (#[trigger] pending@[c]) == 0,
            decreases children_len - ck,
        {
            let c = nodes[i].children[ck];
            let ghost qa = task_queue@;
            let ghost pa = pending@;
            proof {
                assert(chs[ck as int] == c as int);
            }
            if c < n {
                let pc = pending[c];
                if pc == 1 {
                    proof {
                        assert(!in_queue(qa, c as int));
                        assert(offsets@[c as int] is None);
                    }
                    pending.set(c, 0);
                    task_queue.insert(0, c);
                    proof {
                        assert(task_queue@ =~= seq![c].add(qa));
                        assert(usize_seq(task_queue@) =~= usize_seq(qa).insert(0, c as int));
                        assert(usize_seq(pending@) =~= usize_seq(pa).update(c as int, 0));
                        assert(usize_seq(task_queue@).no_duplicates()) by {
                            assert(forall|k: int|
                                1 <= k < task_queue@.len() ==> task_queue@[k] == qa[k - 1]);
                            assert forall|a: int, b: int|
                                0 <= a < b < task_queue@.len() implies usize_seq(task_queue@)[a]
                                != usize_seq(task_queue@)[b] by {
                                if a == 0 {
                                    assert(task_queue@[b] == qa[b - 1]);
                                    if task_queue@[b] == c {
                                        assert(in_queue(qa, c as int));
                                    }
                                }
                            }
                        }
                        assert forall|c2: int|
                            0 <= c2 < n && (offsets@[c2] is Some || in_queue(task_queue@, c2))
                                implies (#[trigger] pending@[c2]) == 0 by {
                            if c2 != c as int {
                                if in_queue(task_queue@, c2) {
                                    let k = choose|k: int|
                                        0 <= k < task_queue@.len() && #[trigger] task_queue@[k]
                                            == c2;
                                    assert(k >= 1);
                                    assert(qa[k - 1] == c2);
                                    assert(in_queue(qa, c2));
                                }
                            }
                        }
                        assert forall|k: int|
                            0 <= k < task_queue@.len() implies (#[trigger] task_queue@[k]) < n
                                && offsets@[task_queue@[k] as int] is None by {
                            if k >= 1 {
                                assert(task_queue@[k] == qa[k - 1]);
                            }
                        }
                    }
                } else if pc > 1 {
                    proof {
                        assert(!in_queue(qa, c as int) && !(offsets@[c as int] is Some));
                    }
                    pending.set(c, pc - 1);
                    proof {
                        assert(usize_seq(pending@) =~= usize_seq(pa).update(
                            c as int,
                            pc as int - 1,
                        ));
                        assert forall|c2: int|
                            0 <= c2 < n && (offsets@[c2] is Some || in_queue(task_queue@, c2))
                                implies (#[trigger] pending@[c2]) == 0 by {
                            assert(c2 != c as int);
                        }
                    }
                }
            }
            ck = ck + 1;
        }
        proof {
            let nextst = run_st(
                usize_seq(task_queue@),
                usize_seq(pending@),
                offsets_model(offsets@),
                starts_g,
                processed as int,
                tasks_model(tasks_out@),
                absence_model(workers_absence@),
                dates_model(public_holidays@),
                resource_allocation@,
                postings_g,
                project_end.day as int,
            );
            assert(tasks_model(tasks_out@) =~= tasks_before.push(task_model(&new_task)));
            assert(spec_step(proj, calendars@, gm, cur) == Ok::<RunStateM, ProcErrM>(nextst)) by {
                assert(gm.children[i as int] == chs);
                assert(spec_step(proj, calendars@, gm, cur) matches Ok(s2) && s2 =~~= nextst);
            }
            assert(spec_run(proj, calendars@, gm, cur, fuel) == spec_run(
                proj,
                calendars@,
                gm,
                nextst,
                (fuel - 1) as nat,
            ));
        }
    }
    proof {
        assert(goal == Ok::<RunStateM, ProcErrM>(run_st(
            usize_seq(task_queue@),
            usize_seq(pending@),
            offsets_model(offsets@),
            starts_g,
            processed as int,
            tasks_model(tasks_out@),
            absence_model(workers_absence@),
            dates_model(public_holidays@),
            resource_allocation@,
            postings_g,
            project_end.day as int,
        )));
    }
    if processed < n {
        return Err(ProcessError::CyclicDependency);
    }
    let ghost led_run = resource_allocation@;
    finalize_allocation(&mut resource_allocation, project_begin, project_end);
    let closed_days = if calendars.len() > 0 {
        clone_weekdays(&calendars[0].1.closed_days)
    } else {
        Vec::new()
    };
    let time_markers = match &proj.time_markers {
        Some(v) => clone_markers(v),
        None => Vec::new(),
    };
    let result = GanttData {
        title: proj.project_name.clone(),
        tasks: tasks_out,
        project_starts: project_begin,
        closed_days,
        workers_absence,
        public_holidays,
        resource_allocation,
        time_markers,
    };
    proof {
        let m = spec_process(proj, calendars@)->Ok_0;
        assert(gantt_model(&result) =~~= m);
    }
    Ok(result)
}

} // verus!
