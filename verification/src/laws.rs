//! The library's cross-cutting laws, stated and proved over the same
//! spec functions that the executable contracts use: determinism of the
//! engine and the renderer, conservation of booked hours in the ledger,
//! and full-span coverage after finalize.

use vstd::prelude::*;
use crate::calendar::BusinessDaysCalendar;
use crate::cfg::Config;
use crate::gantt_builder::{
    spec_process,
    spec_run_result,
    spec_run,
    spec_step,
    spec_burn,
    spec_init_state,
    spec_build_graph,
    spec_link_edges,
    spec_starting_upto,
    spec_reclass,
    burn_st,
    count_some,
    finalize_walk,
    find_task,
    ledger_finalize,
    ledger_add,
    ledger_hours,
    ledger_wf,
    lemma_ledger_add,
    lemma_find_worker,
    lemma_find_task,
    find_worker,
    days_hours,
    entry_contrib,
    enqueue_children,
    max_parent_offset,
    gantt_model,
    GanttData,
    GanttM,
    ProcErrM,
    PostingM,
    RunStateM,
    BurnStateM,
    LedgerEntryM,
    WorkerLedgerM,
    GraphM,
    WorkerDay,
    BURN_DAY_CAP,
};
use crate::project::ProjectConfig;
use crate::calendar::DateObj;
use crate::backend_plantuml::spec_chart;

verus! {

// ---------------------------------------------------------------------------
// determinism
// ---------------------------------------------------------------------------

/// Running the engine twice on identical input yields identical
/// schedules: the result model is a function of the input alone.
pub proof fn lemma_process_deterministic(
    proj: &ProjectConfig,
    cals: Seq<(String, BusinessDaysCalendar)>,
    g1: &GanttData,
    g2: &GanttData,
)
    requires
        spec_process(proj, cals) == Ok::<GanttM, ProcErrM>(gantt_model(g1)),
        spec_process(proj, cals) == Ok::<GanttM, ProcErrM>(gantt_model(g2)),
    ensures
        gantt_model(g1) == gantt_model(g2),
{
}

/// Rendering twice from equal schedules yields byte-identical scripts.
pub proof fn lemma_chart_deterministic(
    cfg: &Config,
    g1: &GanttData,
    g2: &GanttData,
    s1: Seq<char>,
    s2: Seq<char>,
)
    requires
        gantt_model(g1) == gantt_model(g2),
        s1 == spec_chart(cfg, gantt_model(g1)),
        s2 == spec_chart(cfg, gantt_model(g2)),
    ensures
        s1 == s2,
{
}

// ---------------------------------------------------------------------------
// booked hours are conserved
// ---------------------------------------------------------------------------

/// The hours the burn-down loop booked for a worker on a day, summed
/// over a booking list.
pub open spec fn posting_sum(ps: Seq<PostingM>, w: Seq<char>, d: int) -> int
    decreases ps.len(),
{
    if ps.len() == 0 {
        0
    } else {
        posting_sum(ps.drop_last(), w, d) + if ps.last().worker == w && ps.last().date == d {
            ps.last().hours
        } else {
            0
        }
    }
}

proof fn lemma_posting_sum_push(ps: Seq<PostingM>, p: PostingM, w: Seq<char>, d: int)
    ensures
        posting_sum(ps.push(p), w, d) == posting_sum(ps, w, d) + if p.worker == w && p.date == d {
            p.hours
        } else {
            0
        },
{
    assert(ps.push(p).drop_last() =~= ps);
}

proof fn lemma_posting_sum_concat(a: Seq<PostingM>, b: Seq<PostingM>, w: Seq<char>, d: int)
    ensures
        posting_sum(a + b, w, d) == posting_sum(a, w, d) + posting_sum(b, w, d),
    decreases b.len(),
{
    if b.len() == 0 {
        assert(a + b =~= a);
    } else {
        assert((a + b).drop_last() =~= a + b.drop_last());
        assert((a + b).last() == b.last());
        lemma_posting_sum_concat(a, b.drop_last(), w, d);
    }
}

/// Through one task's burn-down, the change of the ledger's hours at
/// every (worker, day) key equals the change of the booking sums.
proof fn lemma_burn_conserves(
    cal: &BusinessDaysCalendar,
    wh: Seq<DateObj>,
    wd: Seq<DateObj>,
    w: Seq<char>,
    ff: int,
    begin: int,
    st: BurnStateM,
    fuel: nat,
)
    requires
        ledger_wf(st.ledger),
    ensures
        spec_burn(cal, wh, wd, w, ff, begin, st, fuel) matches Some(fin) ==> ledger_wf(fin.0.ledger)
            && forall|w2: Seq<char>, d2: int|
            #[trigger] ledger_hours(fin.0.ledger, w2, d2) - posting_sum(fin.0.postings, w2, d2)
                == ledger_hours(st.ledger, w2, d2) - posting_sum(st.postings, w2, d2),
    decreases fuel,
{
    if fuel == 0 {
    } else {
        match crate::gantt_builder::spec_worker_day_info(cal, wh, wd, st.date) {
            crate::calendar::DayInfo::WorkingDay(h) => {
                let eff0 = h * ff;
                let left = st.offset % 1000;
                let day_len: int = if left != 0 {
                    1000 - left
                } else {
                    1000
                };
                let eff = if left != 0 {
                    eff0 * (1000 - left) / 1000
                } else {
                    eff0
                };
                if st.hours_left >= eff {
                    let booked = 8 * day_len;
                    lemma_ledger_add(st.ledger, w, st.date, booked, WorkerDay::Fine);
                    let st2 = BurnStateM {
                        hours_left: st.hours_left - eff,
                        offset: st.offset + day_len,
                        date: st.date + 1,
                        ledger: ledger_add(st.ledger, w, st.date, booked, WorkerDay::Fine),
                        absence: st.absence,
                        holidays: st.holidays,
                        pauses: st.pauses,
                        postings: st.postings.push(
                            PostingM {
                                worker: w,
                                date: st.date,
                                hours: booked,
                                class: WorkerDay::Fine,
                            },
                        ),
                    };
                    assert forall|w2: Seq<char>, d2: int|
                        #[trigger] ledger_hours(st2.ledger, w2, d2) - posting_sum(
                            st2.postings,
                            w2,
                            d2,
                        ) == ledger_hours(st.ledger, w2, d2) - posting_sum(st.postings, w2, d2) by {
                        lemma_posting_sum_push(
                            st.postings,
                            PostingM {
                                worker: w,
                                date: st.date,
                                hours: booked,
                                class: WorkerDay::Fine,
                            },
                            w2,
                            d2,
                        );
                    }
                    if st.hours_left - eff == 0 {
                    } else {
                        lemma_burn_conserves(cal, wh, wd, w, ff, begin, st2, (fuel - 1) as nat);
                    }
                } else {
                    let fraction = st.hours_left * 1000 / eff;
                    let booked = 8 * fraction * day_len / 1000;
                    lemma_ledger_add(st.ledger, w, st.date, booked, WorkerDay::Underloaded);
                    let p = PostingM {
                        worker: w,
                        date: st.date,
                        hours: booked,
                        class: WorkerDay::Underloaded,
                    };
                    assert forall|w2: Seq<char>, d2: int|
                        #[trigger] ledger_hours(
                            ledger_add(st.ledger, w, st.date, booked, WorkerDay::Underloaded),
                            w2,
                            d2,
                        ) - posting_sum(st.postings.push(p), w2, d2) == ledger_hours(
                            st.ledger,
                            w2,
                            d2,
                        ) - posting_sum(st.postings, w2, d2) by {
                        lemma_posting_sum_push(st.postings, p, w2, d2);
                    }
                }
            },
            info => {
                let class = match info {
                    crate::calendar::DayInfo::WorkerHolidays => WorkerDay::Holidays,
                    crate::calendar::DayInfo::WorkerOtherDuties => WorkerDay::OtherDuties,
                    _ => WorkerDay::PubHolidays,
                };
                lemma_ledger_add(st.ledger, w, st.date, 0, class);
                let absence2 = if info is NonWorking {
                    st.absence
                } else {
                    crate::gantt_builder::absence_add(st.absence, w, st.date)
                };
                let holidays2 = if info is NonWorkingPubHoliday {
                    st.holidays.push(st.date)
                } else {
                    st.holidays
                };
                let p = PostingM { worker: w, date: st.date, hours: 0, class };
                let st2 = BurnStateM {
                    hours_left: st.hours_left,
                    offset: st.offset + 1000,
                    date: st.date + 1,
                    ledger: ledger_add(st.ledger, w, st.date, 0, class),
                    absence: absence2,
                    holidays: holidays2,
                    pauses: st.pauses.push(st.date),
                    postings: st.postings.push(p),
                };
                assert forall|w2: Seq<char>, d2: int|
                    #[trigger] ledger_hours(st2.ledger, w2, d2) - posting_sum(st2.postings, w2, d2)
                        == ledger_hours(st.ledger, w2, d2) - posting_sum(st.postings, w2, d2) by {
                    lemma_posting_sum_push(st.postings, p, w2, d2);
                }
                lemma_burn_conserves(cal, wh, wd, w, ff, begin, st2, (fuel - 1) as nat);
            },
        }
    }
}

/// Through the whole traversal, the change of the ledger's hours at
/// every (worker, day) key equals the change of the booking sums.
proof fn lemma_run_conserves(
    proj: &ProjectConfig,
    cals: Seq<(String, BusinessDaysCalendar)>,
    gm: GraphM,
    st: RunStateM,
    fuel: nat,
)
    requires
        ledger_wf(st.ledger),
    ensures
        spec_run(proj, cals, gm, st, fuel) matches Ok(stf) ==> ledger_wf(stf.ledger) && forall|
            w2: Seq<char>,
            d2: int,
        |
            #[trigger] ledger_hours(stf.ledger, w2, d2) - posting_sum(stf.postings, w2, d2)
                == ledger_hours(st.ledger, w2, d2) - posting_sum(st.postings, w2, d2),
    decreases fuel,
{
    if st.queue.len() == 0 || fuel == 0 {
    } else {
        match spec_step(proj, cals, gm, st) {
            Err(_) => {},
            Ok(st2) => {
                let i = st.queue[0];
                let task = proj.tasks@[i];
                let ai = crate::gantt_builder::find_assignment(proj.assignments@, task.id@);
                let assignment = proj.assignments@[ai];
                let wi = crate::gantt_builder::find_member(proj.team@, assignment.owner@);
                let worker = proj.team@[wi];
                let ci = crate::gantt_builder::find_calendar(cals, worker.base_calendar@);
                let start_offset = crate::gantt_builder::max_parent_offset(
                    st.offsets,
                    gm.parents[i],
                );
                let start_day = proj.start_date.day + start_offset / 1000;
                let ff = if assignment.focus_factor is Some {
                    assignment.focus_factor->0 as int
                } else {
                    worker.focus_factor as int
                };
                let bst0 = burn_st(
                    task.estimate * 8,
                    start_offset,
                    start_day,
                    st.ledger,
                    st.absence,
                    st.holidays,
                    Seq::empty(),
                    Seq::empty(),
                );
                lemma_burn_conserves(
                    &cals[ci].1,
                    worker.holidays@,
                    worker.other_duties@,
                    assignment.owner@,
                    ff,
                    proj.start_date.day as int,
                    bst0,
                    BURN_DAY_CAP as nat,
                );
                let fin = spec_burn(
                    &cals[ci].1,
                    worker.holidays@,
                    worker.other_duties@,
                    assignment.owner@,
                    ff,
                    proj.start_date.day as int,
                    bst0,
                    BURN_DAY_CAP as nat,
                )->0;
                assert(st2.ledger == fin.0.ledger && st2.postings == st.postings + fin.0.postings);
                assert forall|w2: Seq<char>, d2: int|
                    #[trigger] ledger_hours(st2.ledger, w2, d2) - posting_sum(st2.postings, w2, d2)
                        == ledger_hours(st.ledger, w2, d2) - posting_sum(st.postings, w2, d2) by {
                    lemma_posting_sum_concat(st.postings, fin.0.postings, w2, d2);
                }
                lemma_run_conserves(proj, cals, gm, st2, (fuel - 1) as nat);
            },
        }
    }
}

proof fn lemma_days_hours_concat(a: Seq<LedgerEntryM>, b: Seq<LedgerEntryM>, d: int)
    ensures
        days_hours(a + b, d) == days_hours(a, d) + days_hours(b, d),
    decreases b.len(),
{
    if b.len() == 0 {
        assert(a + b =~= a);
    } else {
        assert((a + b).drop_last() =~= a + b.drop_last());
        assert((a + b).last() == b.last());
        lemma_days_hours_concat(a, b.drop_last(), d);
    }
}

/// The finalize walk moves every existing record into the result (in
/// range reclassified, past the span untouched) and adds only zero-hour
/// fillers, so day sums are unchanged.
proof fn lemma_finalize_walk_hours(
    days: Seq<LedgerEntryM>,
    j: int,
    day: int,
    end: int,
    acc: Seq<LedgerEntryM>,
    d2: int,
)
    requires
        0 <= j <= days.len(),
    ensures
        days_hours(finalize_walk(days, j, day, end, acc), d2) == days_hours(acc, d2) + days_hours(
            days.subrange(j, days.len() as int),
            d2,
        ),
    decreases end + 1 - day,
{
    if day > end {
        lemma_days_hours_concat(acc, days.subrange(j, days.len() as int), d2);
    } else if j < days.len() && days[j].date == day {
        lemma_finalize_walk_hours(days, j + 1, day + 1, end, acc.push(spec_reclass(days[j])), d2);
        assert(acc.push(spec_reclass(days[j])).drop_last() =~= acc);
        assert(days.subrange(j, days.len() as int) =~= seq![days[j]] + days.subrange(
            j + 1,
            days.len() as int,
        ));
        lemma_days_hours_concat(seq![days[j]], days.subrange(j + 1, days.len() as int), d2);
        assert(days_hours(seq![days[j]], d2) == entry_contrib(days[j], d2)) by {
            reveal_with_fuel(days_hours, 3);
            assert(seq![days[j]].drop_last() =~= Seq::<LedgerEntryM>::empty());
        }
        assert(entry_contrib(spec_reclass(days[j]), d2) == entry_contrib(days[j], d2));
    } else {
        let filler = LedgerEntryM { date: day, hours: 0, class: WorkerDay::Unassigned };
        lemma_finalize_walk_hours(days, j, day + 1, end, acc.push(filler), d2);
        assert(acc.push(filler).drop_last() =~= acc);
    }
}

/// Finalize keeps every (worker, day) committed-hours figure unchanged.
proof fn lemma_finalize_conserves(
    led: Seq<WorkerLedgerM>,
    begin: int,
    end: int,
    w: Seq<char>,
    d: int,
)
    ensures
        ledger_hours(ledger_finalize(led, begin, end), w, d) == ledger_hours(led, w, d),
{
    let led2 = ledger_finalize(led, begin, end);
    lemma_find_worker(led, w);
    lemma_find_worker(led2, w);
    let wi = find_worker(led, w);
    let wi2 = find_worker(led2, w);
    assert(forall|k: int| 0 <= k < led.len() ==> (#[trigger] led2[k]).worker == led[k].worker);
    assert(wi2 == wi) by {
        if wi < led.len() {
            assert(led2[wi].worker == w);
        }
        if wi2 < led2.len() {
            assert(led[wi2].worker == w);
        }
    }
    if wi < led.len() {
        lemma_finalize_walk_hours(led[wi].days, 0, begin, end, Seq::empty(), d);
        assert(led[wi].days.subrange(0, led[wi].days.len() as int) =~= led[wi].days);
    }
}

/// For every worker and day, the finalized ledger's committed hours
/// equal the sum of the hours the burn-down loop booked for that worker
/// on that day across all tasks of the run.
pub proof fn lemma_committed_hours_are_booked_sums(
    proj: &ProjectConfig,
    cals: Seq<(String, BusinessDaysCalendar)>,
)
    requires
        spec_process(proj, cals) is Ok,
    ensures
        forall|w: Seq<char>, d: int|
            #[trigger] ledger_hours(spec_process(proj, cals)->Ok_0.ledger, w, d) == posting_sum(
                spec_run_result(proj, cals)->Ok_0.postings,
                w,
                d,
            ),
{
    let gm = spec_build_graph(proj.tasks@)->Ok_0;
    let st0 = spec_init_state(proj, gm);
    assert(ledger_wf(st0.ledger));
    lemma_run_conserves(proj, cals, gm, st0, proj.tasks@.len());
    let st = spec_run_result(proj, cals)->Ok_0;
    assert forall|w: Seq<char>, d: int|
        #[trigger] ledger_hours(spec_process(proj, cals)->Ok_0.ledger, w, d) == posting_sum(
            st.postings,
            w,
            d,
        ) by {
        lemma_finalize_conserves(st.ledger, proj.start_date.day as int, st.project_end, w, d);
        assert(ledger_hours(st0.ledger, w, d) == 0);
        assert(posting_sum(st0.postings, w, d) == 0);
    }
}

// ---------------------------------------------------------------------------
// finalize covers the whole project span
// ---------------------------------------------------------------------------

proof fn lemma_finalize_walk_shape(
    days: Seq<LedgerEntryM>,
    j: int,
    day: int,
    end: int,
    acc: Seq<LedgerEntryM>,
)
    requires
        0 <= j <= days.len(),
    ensures
        finalize_walk(days, j, day, end, acc).len() >= acc.len() + (if day <= end {
            end + 1 - day
        } else {
            0
        }),
        forall|x: int|
            0 <= x < acc.len() ==> #[trigger] finalize_walk(days, j, day, end, acc)[x] == acc[x],
        forall|d: int|
            day <= d <= end ==> (#[trigger] finalize_walk(days, j, day, end, acc)[acc.len() + d
                - day]).date == d,
    decreases end + 1 - day,
{
    if day > end {
    } else if j < days.len() && days[j].date == day {
        let acc2 = acc.push(spec_reclass(days[j]));
        lemma_finalize_walk_shape(days, j + 1, day + 1, end, acc2);
        assert(spec_reclass(days[j]).date == days[j].date);
        assert forall|d: int|
            day <= d <= end implies (#[trigger] finalize_walk(days, j, day, end, acc)[acc.len() + d
            - day]).date == d by {
            if d == day {
                assert(finalize_walk(days, j + 1, day + 1, end, acc2)[acc.len() as int]
                    == acc2[acc.len() as int]);
            } else {
                assert(finalize_walk(days, j + 1, day + 1, end, acc2)[acc2.len() + d - (day + 1)].date
                    == d);
            }
        }
    } else {
        let filler = LedgerEntryM { date: day, hours: 0, class: WorkerDay::Unassigned };
        let acc2 = acc.push(filler);
        lemma_finalize_walk_shape(days, j, day + 1, end, acc2);
        assert forall|d: int|
            day <= d <= end implies (#[trigger] finalize_walk(days, j, day, end, acc)[acc.len() + d
            - day]).date == d by {
            if d == day {
                assert(finalize_walk(days, j, day + 1, end, acc2)[acc.len() as int]
                    == acc2[acc.len() as int]);
            } else {
                assert(finalize_walk(days, j, day + 1, end, acc2)[acc2.len() + d - (day + 1)].date
                    == d);
            }
        }
    }
}

/// After finalize, every worker with any ledger record holds one record
/// for every calendar day of the project span, in order: the record for
/// day `d` stands at index `d - begin`.
pub proof fn lemma_finalize_covers_span(led: Seq<WorkerLedgerM>, begin: int, end: int)
    requires
        begin <= end,
    ensures
        forall|k: int|
            0 <= k < led.len() ==> (#[trigger] ledger_finalize(led, begin, end)[k]).days.len() >= end
                + 1 - begin,
        forall|k: int, d: int|
            0 <= k < led.len() && begin <= d <= end ==> (#[trigger] ledger_finalize(
                led,
                begin,
                end,
            )[k].days[d - begin]).date == d,
{
    assert forall|k: int|
        0 <= k < led.len() implies (#[trigger] ledger_finalize(led, begin, end)[k]).days.len()
        >= end + 1 - begin by {
        lemma_finalize_walk_shape(led[k].days, 0, begin, end, Seq::empty());
    }
    assert forall|k: int, d: int|
        0 <= k < led.len() && begin <= d <= end implies (#[trigger] ledger_finalize(
        led,
        begin,
        end,
    )[k].days[d - begin]).date == d by {
        lemma_finalize_walk_shape(led[k].days, 0, begin, end, Seq::empty());
        let walk = finalize_walk(led[k].days, 0, begin, end, Seq::<LedgerEntryM>::empty());
        assert(walk[Seq::<LedgerEntryM>::empty().len() + d - begin].date == d);
        assert(Seq::<LedgerEntryM>::empty().len() + d - begin == d - begin);
        assert(ledger_finalize(led, begin, end)[k].days == walk);
    }
}

// ---------------------------------------------------------------------------
// acyclic inputs resolve completely
// ---------------------------------------------------------------------------

/// Occurrences of `x` in an index list.
pub open spec fn count_of(s: Seq<int>, x: int) -> int
    decreases s.len(),
{
    if s.len() == 0 {
        0
    } else {
        count_of(s.drop_last(), x) + if s.last() == x {
            1int
        } else {
            0int
        }
    }
}

/// Parent-link occurrences whose node is not yet resolved.
pub open spec fn unresolved_parents(ps: Seq<int>, offsets: Seq<Option<int>>) -> int
    decreases ps.len(),
{
    if ps.len() == 0 {
        0
    } else {
        unresolved_parents(ps.drop_last(), offsets) + if 0 <= ps.last() < offsets.len()
            && offsets[ps.last()] is None {
            1int
        } else {
            0int
        }
    }
}

/// Every dependency edge appears in both directions equally often, and
/// all links point at real nodes.
pub open spec fn graph_linked(parents: Seq<Seq<int>>, children: Seq<Seq<int>>, n: int) -> bool {
    &&& parents.len() == n
    &&& children.len() == n
    &&& forall|c: int, k: int|
        0 <= c < n && 0 <= k < parents[c].len() ==> 0 <= #[trigger] parents[c][k] < n
    &&& forall|i: int, k: int|
        0 <= i < n && 0 <= k < children[i].len() ==> 0 <= #[trigger] children[i][k] < n
    &&& forall|i: int, c: int|
        0 <= i < n && 0 <= c < n ==> #[trigger] count_of(children[i], c) == count_of(
            parents[c],
            i,
        )
}

/// The dependency graph is acyclic: some rank strictly decreases along
/// every parent link.
pub open spec fn acyclic(parents: Seq<Seq<int>>) -> bool {
    exists|rank: Seq<int>|
        rank.len() == parents.len() && #[trigger] rank_consistent(parents, rank)
}

pub open spec fn rank_consistent(parents: Seq<Seq<int>>, rank: Seq<int>) -> bool {
    forall|i: int, k: int|
        0 <= i < parents.len() && 0 <= k < parents[i].len() ==> 0 <= #[trigger] parents[i][k]
            < parents.len() && rank[parents[i][k]] < rank[i]
}

proof fn lemma_count_of_push(s: Seq<int>, v: int, x: int)
    ensures
        count_of(s.push(v), x) == count_of(s, x) + if v == x {
            1int
        } else {
            0int
        },
{
    assert(s.push(v).drop_last() =~= s);
}

proof fn lemma_count_of_nonneg(s: Seq<int>, x: int)
    ensures
        count_of(s, x) >= 0,
    decreases s.len(),
{
    if s.len() > 0 {
        lemma_count_of_nonneg(s.drop_last(), x);
    }
}

proof fn lemma_unresolved_nonneg(ps: Seq<int>, offsets: Seq<Option<int>>)
    ensures
        unresolved_parents(ps, offsets) >= 0,
    decreases ps.len(),
{
    if ps.len() > 0 {
        lemma_unresolved_nonneg(ps.drop_last(), offsets);
    }
}

/// Resolving node `i` settles exactly its parent-link occurrences.
proof fn lemma_unresolved_update(ps: Seq<int>, offsets: Seq<Option<int>>, i: int, v: int)
    requires
        0 <= i < offsets.len(),
        offsets[i] is None,
    ensures
        unresolved_parents(ps, offsets.update(i, Some(v))) == unresolved_parents(ps, offsets)
            - count_of(ps, i),
    decreases ps.len(),
{
    if ps.len() > 0 {
        lemma_unresolved_update(ps.drop_last(), offsets, i, v);
    }
}

/// With every parent resolved, nothing is unresolved.
proof fn lemma_unresolved_zero(ps: Seq<int>, offsets: Seq<Option<int>>)
    requires
        forall|k: int|
            0 <= k < ps.len() ==> !(0 <= #[trigger] ps[k] < offsets.len() && offsets[ps[k]] is None),
    ensures
        unresolved_parents(ps, offsets) == 0,
    decreases ps.len(),
{
    if ps.len() > 0 {
        lemma_unresolved_zero(ps.drop_last(), offsets);
        assert(ps.last() == ps[ps.len() - 1]);
    }
}

/// Conversely, an unresolved count of zero resolves every parent.
proof fn lemma_unresolved_zero_inv(ps: Seq<int>, offsets: Seq<Option<int>>)
    requires
        unresolved_parents(ps, offsets) == 0,
    ensures
        forall|k: int|
            0 <= k < ps.len() ==> !(0 <= #[trigger] ps[k] < offsets.len() && offsets[ps[k]] is None),
    decreases ps.len(),
{
    if ps.len() > 0 {
        lemma_unresolved_nonneg(ps.drop_last(), offsets);
        lemma_unresolved_zero_inv(ps.drop_last(), offsets);
        assert forall|k: int|
            0 <= k < ps.len() implies !(0 <= #[trigger] ps[k] < offsets.len()
            && offsets[ps[k]] is None) by {
            if k < ps.len() - 1 {
                assert(ps.drop_last()[k] == ps[k]);
            } else {
                assert(ps[k] == ps.last());
            }
        }
    }
}

/// A node's start offset does not move when an unrelated node resolves.
proof fn lemma_max_parent_stable(
    offsets: Seq<Option<int>>,
    ps: Seq<int>,
    i: int,
    v: int,
)
    requires
        0 <= i < offsets.len(),
        offsets[i] is None,
        unresolved_parents(ps, offsets) == 0,
        forall|k: int| 0 <= k < ps.len() ==> 0 <= #[trigger] ps[k] < offsets.len(),
    ensures
        max_parent_offset(offsets.update(i, Some(v)), ps) == max_parent_offset(offsets, ps),
    decreases ps.len(),
{
    if ps.len() > 0 {
        lemma_unresolved_nonneg(ps.drop_last(), offsets);
        lemma_max_parent_stable(offsets, ps.drop_last(), i, v);
        assert(!(offsets[ps.last()] is None));
        assert(ps.last() != i);
    }
}

/// How one linking step's result `r` extends the lists `(par, ch)`:
/// both kept as prefixes, new links in range, and the two directions
/// grown by matching occurrence counts.
pub open spec fn link_extends(
    par: Seq<Seq<int>>,
    ch: Seq<Seq<int>>,
    r: (Seq<Seq<int>>, Seq<Seq<int>>),
    n: int,
) -> bool {
    &&& r.0.len() == n
    &&& r.1.len() == n
    &&& forall|a: int, c: int|
        0 <= a < n && 0 <= c < n ==> #[trigger] count_of(r.1[a], c) - count_of(ch[a], c)
            == count_of(r.0[c], a) - count_of(par[c], a)
    &&& forall|c: int, x: int|
        0 <= c < n && 0 <= x < r.0[c].len() && par[c].len() <= x ==> 0 <= #[trigger] r.0[c][x] < n
    &&& forall|a: int, x: int|
        0 <= a < n && 0 <= x < r.1[a].len() && ch[a].len() <= x ==> 0 <= #[trigger] r.1[a][x] < n
    &&& forall|c: int| 0 <= c < n ==> #[trigger] par[c].is_prefix_of(r.0[c])
    &&& forall|a: int| 0 <= a < n ==> #[trigger] ch[a].is_prefix_of(r.1[a])
}

/// The two-pass link walk keeps both edge directions in step.
#[verifier::rlimit(100)]
proof fn lemma_link_edges_mirror(
    tasks: Seq<crate::project::Task>,
    i: int,
    k: int,
    par: Seq<Seq<int>>,
    ch: Seq<Seq<int>>,
    r: (Seq<Seq<int>>, Seq<Seq<int>>),
)
    requires
        0 <= i <= tasks.len(),
        0 <= k,
        i < tasks.len() ==> k <= tasks[i].after@.len(),
        i == tasks.len() ==> k == 0,
        par.len() == tasks.len(),
        ch.len() == tasks.len(),
        spec_link_edges(tasks, i, k, par, ch) == Ok::<(Seq<Seq<int>>, Seq<Seq<int>>), Seq<char>>(r),
    ensures
        link_extends(par, ch, r, tasks.len() as int),
    decreases
            tasks.len() - i,
            (if i < tasks.len() {
                tasks[i].after@.len() - k
            } else {
                0
            }),
{
    let n = tasks.len() as int;
    if i >= tasks.len() {
        assert(r == (par, ch));
        assert(link_extends(par, ch, r, n)) by {
            assert(r.0 == par && r.1 == ch);
            assert forall|c: int| 0 <= c < n implies #[trigger] par[c].is_prefix_of(r.0[c]) by {
                assert(par[c] =~= r.0[c].subrange(0, par[c].len() as int));
            }
            assert forall|a: int| 0 <= a < n implies #[trigger] ch[a].is_prefix_of(r.1[a]) by {
                assert(ch[a] =~= r.1[a].subrange(0, ch[a].len() as int));
            }
        }
    } else if k >= tasks[i].after@.len() {
        lemma_link_edges_mirror(tasks, i + 1, 0, par, ch, r);
    } else {
        let id = tasks[i].after@[k]@;
        let p = find_task(tasks, id);
        lemma_find_task(tasks, id);
        let par2 = par.update(i, par[i].push(p));
        let ch2 = ch.update(p, ch[p].push(i));
        lemma_link_edges_mirror(tasks, i, k + 1, par2, ch2, r);
        assert(0 <= p < n);
        assert(forall|c: int| 0 <= c < n && c != i ==> par2[c] == par[c]);
        assert(forall|a: int| 0 <= a < n && a != p ==> ch2[a] == ch[a]);
        assert(par2[i] == par[i].push(p));
        assert(ch2[p] == ch[p].push(i));
        assert forall|a: int, c: int|
            0 <= a < n && 0 <= c < n implies #[trigger] count_of(r.1[a], c) - count_of(ch[a], c)
            == count_of(r.0[c], a) - count_of(par[c], a) by {
            lemma_count_of_push(par[i], p, a);
            lemma_count_of_push(ch[p], i, c);
            assert(count_of(r.1[a], c) - count_of(ch2[a], c) == count_of(r.0[c], a) - count_of(
                par2[c],
                a,
            ));
        }
        assert forall|c: int| 0 <= c < n implies #[trigger] par[c].is_prefix_of(r.0[c]) by {
            assert(par2[c].is_prefix_of(r.0[c]));
            assert(par[c].is_prefix_of(par2[c])) by {
                assert(par[c] =~= par2[c].subrange(0, par[c].len() as int));
            }
            assert(par[c] =~= r.0[c].subrange(0, par[c].len() as int)) by {
                assert(par2[c] =~= r.0[c].subrange(0, par2[c].len() as int));
            }
        }
        assert forall|a: int| 0 <= a < n implies #[trigger] ch[a].is_prefix_of(r.1[a]) by {
            assert(ch2[a].is_prefix_of(r.1[a]));
            assert(ch[a].is_prefix_of(ch2[a])) by {
                assert(ch[a] =~= ch2[a].subrange(0, ch[a].len() as int));
            }
            assert(ch[a] =~= r.1[a].subrange(0, ch[a].len() as int)) by {
                assert(ch2[a] =~= r.1[a].subrange(0, ch2[a].len() as int));
            }
        }
        assert forall|c: int, x: int|
            0 <= c < n && 0 <= x < r.0[c].len() && par[c].len() <= x implies 0
            <= #[trigger] r.0[c][x] < n by {
            assert(par2[c].is_prefix_of(r.0[c]));
            if x < par2[c].len() {
                assert(c == i && x == par[i].len());
                assert(par2[c] =~= r.0[c].subrange(0, par2[c].len() as int));
                assert(r.0[c][x] == par2[c][x]);
                assert(par2[i][x] == p);
            }
        }
        assert forall|a: int, x: int|
            0 <= a < n && 0 <= x < r.1[a].len() && ch[a].len() <= x implies 0
            <= #[trigger] r.1[a][x] < n by {
            assert(ch2[a].is_prefix_of(r.1[a]));
            if x < ch2[a].len() {
                assert(a == p && x == ch[p].len());
                assert(ch2[a] =~= r.1[a].subrange(0, ch2[a].len() as int));
                assert(r.1[a][x] == ch2[a][x]);
                assert(ch2[p][x] == i);
            }
        }
        assert(link_extends(par, ch, r, n));
    }
}

/// A successfully built graph is fully linked: both edge directions
/// agree and all links are in range.
proof fn lemma_build_graph_linked(tasks: Seq<crate::project::Task>)
    requires
        spec_build_graph(tasks) is Ok,
    ensures
        graph_linked(
            spec_build_graph(tasks)->Ok_0.parents,
            spec_build_graph(tasks)->Ok_0.children,
            tasks.len() as int,
        ),
{
    let init = Seq::new(tasks.len(), |_i: int| Seq::<int>::empty());
    let gm = spec_build_graph(tasks)->Ok_0;
    let r = spec_link_edges(tasks, 0, 0, init, init)->Ok_0;
    lemma_link_edges_mirror(tasks, 0, 0, init, init, r);
    assert(gm.parents == r.0 && gm.children == r.1);
    assert forall|i: int, c: int|
        0 <= i < tasks.len() && 0 <= c < tasks.len() implies #[trigger] count_of(gm.children[i], c)
        == count_of(gm.parents[c], i) by {
        assert(count_of(r.1[i], c) - count_of(init[i], c) == count_of(r.0[c], i) - count_of(
            init[c],
            i,
        ));
        assert(count_of(Seq::<int>::empty(), c) == 0);
        assert(count_of(Seq::<int>::empty(), i) == 0);
    }
    assert forall|c: int, k: int|
        0 <= c < tasks.len() && 0 <= k < gm.parents[c].len() implies 0 <= #[trigger] gm.parents[c][k]
        < tasks.len() by {
        assert(init[c].len() == 0);
        assert(0 <= r.0[c][k] < tasks.len());
    }
    assert forall|i: int, k: int|
        0 <= i < tasks.len() && 0 <= k < gm.children[i].len() implies 0
        <= #[trigger] gm.children[i][k] < tasks.len() by {
        assert(init[i].len() == 0);
        assert(0 <= r.1[i][k] < tasks.len());
    }
}


/// Every dependency-free node of the first `m` tasks stands among the
/// starting nodes.
proof fn lemma_starting_contains(tasks: Seq<crate::project::Task>, m: int, c: int)
    requires
        0 <= c < m <= tasks.len(),
        tasks[c].after@.len() == 0,
    ensures
        exists|k: int|
            0 <= k < spec_starting_upto(tasks, m).len() && #[trigger] spec_starting_upto(
                tasks,
                m,
            )[k] == c,
    decreases m,
{
    let pre = spec_starting_upto(tasks, m - 1);
    let cur = spec_starting_upto(tasks, m);
    if c == m - 1 {
        assert(cur[pre.len() as int] == c);
    } else {
        lemma_starting_contains(tasks, m - 1, c);
        let k = choose|k: int| 0 <= k < pre.len() && #[trigger] pre[k] == c;
        assert(cur[k] == c);
    }
}

/// A node index is on the worklist.
pub open spec fn in_iqueue(q: Seq<int>, c: int) -> bool {
    exists|k: int| 0 <= k < q.len() && #[trigger] q[k] == c
}

/// The traversal invariant behind cycle detection: pending counts track
/// unresolved parent links, the worklist holds exactly the unprocessed
/// ready nodes, and each resolved node took its start offset from its
/// parents.
pub open spec fn p1_inv(gm: GraphM, n: int, st: RunStateM) -> bool {
    &&& st.offsets.len() == n
    &&& st.starts.len() == n
    &&& st.pending.len() == n
    &&& graph_linked(gm.parents, gm.children, n)
    &&& st.processed == count_some(st.offsets)
    &&& forall|k: int|
        0 <= k < st.queue.len() ==> 0 <= #[trigger] st.queue[k] < n
            && st.offsets[st.queue[k]] is None && st.pending[st.queue[k]] == 0
    &&& forall|a: int, b: int|
        0 <= a < b < st.queue.len() ==> #[trigger] st.queue[a] != #[trigger] st.queue[b]
    &&& forall|c: int|
        0 <= c < n ==> #[trigger] st.pending[c] == unresolved_parents(gm.parents[c], st.offsets)
    &&& forall|c: int|
        0 <= c < n && #[trigger] st.pending[c] == 0 && st.offsets[c] is None ==> in_iqueue(
            st.queue,
            c,
        )
    &&& forall|c: int| 0 <= c < n && (#[trigger] st.offsets[c]) is Some ==> st.pending[c] == 0
    &&& forall|c: int|
        0 <= c < n ==> ((#[trigger] st.starts[c]) is Some <==> st.offsets[c] is Some)
    &&& forall|c: int|
        0 <= c < n && (#[trigger] st.offsets[c]) is Some ==> st.starts[c]->0 == max_parent_offset(
            st.offsets,
            gm.parents[c],
        )
}

/// With nothing resolved, every in-range parent link is unresolved.
proof fn lemma_unresolved_all(ps: Seq<int>, offsets: Seq<Option<int>>)
    requires
        forall|k: int| 0 <= k < ps.len() ==> 0 <= #[trigger] ps[k] < offsets.len(),
        forall|p: int| 0 <= p < offsets.len() ==> (#[trigger] offsets[p]) is None,
    ensures
        unresolved_parents(ps, offsets) == ps.len(),
    decreases ps.len(),
{
    if ps.len() > 0 {
        assert(ps.last() == ps[ps.len() - 1]);
        lemma_unresolved_all(ps.drop_last(), offsets);
    }
}

/// One occurrence split off the front of a sub-list count.
proof fn lemma_count_sub_step(ch: Seq<int>, k: int, c: int)
    requires
        0 <= k < ch.len(),
    ensures
        count_of(ch.subrange(k, ch.len() as int), c) == (if ch[k] == c {
            1int
        } else {
            0int
        }) + count_of(ch.subrange(k + 1, ch.len() as int), c),
{
    let tail = ch.subrange(k + 1, ch.len() as int);
    assert(ch.subrange(k, ch.len() as int) =~= seq![ch[k]] + tail);
    lemma_count_concat(seq![ch[k]], tail, c);
    assert(count_of(seq![ch[k]], c) == if ch[k] == c {
        1int
    } else {
        0int
    }) by {
        reveal_with_fuel(count_of, 3);
        assert(seq![ch[k]].drop_last() =~= Seq::<int>::empty());
    }
}

proof fn lemma_count_concat(a: Seq<int>, b: Seq<int>, x: int)
    ensures
        count_of(a + b, x) == count_of(a, x) + count_of(b, x),
    decreases b.len(),
{
    if b.len() == 0 {
        assert(a + b =~= a);
    } else {
        assert((a + b).drop_last() =~= a + b.drop_last());
        assert((a + b).last() == b.last());
        lemma_count_concat(a, b.drop_last(), x);
    }
}

/// Handing a finished node's children their notice keeps the traversal
/// invariant, with the remaining notices accounted against the pending
/// counts.
#[verifier::rlimit(100)]
proof fn lemma_enqueue_p1(
    queue: Seq<int>,
    pending: Seq<int>,
    ch: Seq<int>,
    k: int,
    offsets2: Seq<Option<int>>,
    gm: GraphM,
    n: int,
)
    requires
        0 <= k <= ch.len(),
        pending.len() == n,
        offsets2.len() == n,
        gm.parents.len() == n,
        forall|x: int| 0 <= x < ch.len() ==> 0 <= #[trigger] ch[x] < n,
        forall|c: int|
            0 <= c < n ==> #[trigger] pending[c] == unresolved_parents(gm.parents[c], offsets2)
                + count_of(ch.subrange(k, ch.len() as int), c),
        forall|kk: int|
            0 <= kk < queue.len() ==> 0 <= #[trigger] queue[kk] < n
                && offsets2[queue[kk]] is None && pending[queue[kk]] == 0,
        forall|a: int, b: int|
            0 <= a < b < queue.len() ==> #[trigger] queue[a] != #[trigger] queue[b],
        forall|c: int| 0 <= c < n && (#[trigger] offsets2[c]) is Some ==> pending[c] == 0,
        forall|c: int|
            0 <= c < n && #[trigger] pending[c] == 0 && offsets2[c] is None ==> in_iqueue(
                queue,
                c,
            ),
    ensures
        ({
            let qp = enqueue_children(queue, pending, ch, k);
            &&& qp.1.len() == n
            &&& forall|c: int|
                0 <= c < n ==> #[trigger] qp.1[c] == unresolved_parents(gm.parents[c], offsets2)
            &&& forall|kk: int|
                0 <= kk < qp.0.len() ==> 0 <= #[trigger] qp.0[kk] < n
                    && offsets2[qp.0[kk]] is None && qp.1[qp.0[kk]] == 0
            &&& forall|a: int, b: int|
                0 <= a < b < qp.0.len() ==> #[trigger] qp.0[a] != #[trigger] qp.0[b]
            &&& forall|c: int| 0 <= c < n && (#[trigger] offsets2[c]) is Some ==> qp.1[c] == 0
            &&& forall|c: int|
                0 <= c < n && #[trigger] qp.1[c] == 0 && offsets2[c] is None ==> in_iqueue(
                    qp.0,
                    c,
                )
        }),
    decreases ch.len() - k,
{
    if k >= ch.len() {
        assert forall|c: int| 0 <= c < n implies #[trigger] pending[c] == unresolved_parents(
            gm.parents[c],
            offsets2,
        ) by {
            assert(ch.subrange(k, ch.len() as int) =~= Seq::<int>::empty());
            assert(count_of(Seq::<int>::empty(), c) == 0);
        }
    } else {
        let c = ch[k];
        lemma_count_sub_step(ch, k, c);
        lemma_unresolved_nonneg(gm.parents[c], offsets2);
        lemma_count_of_nonneg(ch.subrange(k + 1, ch.len() as int), c);
        assert(pending[c] >= 1) by {
            lemma_count_of_nonneg(ch.subrange(k + 1, ch.len() as int), c);
        }
        assert(!in_iqueue(queue, c) && !(offsets2[c] is Some)) by {
            if in_iqueue(queue, c) {
                let kk = choose|kk: int| 0 <= kk < queue.len() && #[trigger] queue[kk] == c;
                assert(pending[queue[kk]] == 0);
            }
        }
        if pending[c] == 1 {
            let q2 = queue.insert(0, c);
            let p2 = pending.update(c, 0);
            assert(q2 =~= seq![c] + queue);
            assert forall|c2: int| 0 <= c2 < n implies #[trigger] p2[c2] == unresolved_parents(
                gm.parents[c2],
                offsets2,
            ) + count_of(ch.subrange(k + 1, ch.len() as int), c2) by {
                lemma_count_sub_step(ch, k, c2);
                if c2 == c {
                    lemma_unresolved_nonneg(gm.parents[c], offsets2);
                    lemma_count_of_nonneg(ch.subrange(k + 1, ch.len() as int), c);
                }
            }
            assert forall|kk: int|
                0 <= kk < q2.len() implies 0 <= #[trigger] q2[kk] < n && offsets2[q2[kk]] is None
                && p2[q2[kk]] == 0 by {
                if kk > 0 {
                    assert(q2[kk] == queue[kk - 1]);
                }
            }
            assert forall|a: int, b: int|
                0 <= a < b < q2.len() implies #[trigger] q2[a] != #[trigger] q2[b] by {
                if a == 0 {
                    assert(q2[b] == queue[b - 1]);
                    if q2[b] == c {
                        assert(in_iqueue(queue, c));
                    }
                } else {
                    assert(q2[a] == queue[a - 1] && q2[b] == queue[b - 1]);
                }
            }
            assert forall|c2: int|
                0 <= c2 < n && #[trigger] p2[c2] == 0 && offsets2[c2] is None implies in_iqueue(
                q2,
                c2,
            ) by {
                if c2 == c {
                    assert(q2[0] == c);
                } else {
                    assert(pending[c2] == 0);
                    assert(in_iqueue(queue, c2));
                    let kk = choose|kk: int|
                        0 <= kk < queue.len() && #[trigger] queue[kk] == c2;
                    assert(q2[kk + 1] == c2);
                }
            }
            lemma_enqueue_p1(q2, p2, ch, k + 1, offsets2, gm, n);
            assert(enqueue_children(queue, pending, ch, k) == enqueue_children(q2, p2, ch, k + 1));
        } else {
            let p2 = pending.update(c, pending[c] - 1);
            assert(pending[c] > 1);
            assert forall|c2: int| 0 <= c2 < n implies #[trigger] p2[c2] == unresolved_parents(
                gm.parents[c2],
                offsets2,
            ) + count_of(ch.subrange(k + 1, ch.len() as int), c2) by {
                lemma_count_sub_step(ch, k, c2);
            }
            assert forall|kk: int|
                0 <= kk < queue.len() implies 0 <= #[trigger] queue[kk] < n
                && offsets2[queue[kk]] is None && p2[queue[kk]] == 0 by {
                assert(queue[kk] != c);
            }
            assert forall|c2: int|
                0 <= c2 < n && #[trigger] p2[c2] == 0 && offsets2[c2] is None implies in_iqueue(
                queue,
                c2,
            ) by {
                assert(c2 != c);
                assert(pending[c2] == 0);
            }
            lemma_enqueue_p1(queue, p2, ch, k + 1, offsets2, gm, n);
            assert(enqueue_children(queue, pending, ch, k) == enqueue_children(
                queue,
                p2,
                ch,
                k + 1,
            ));
        }
    }
}


/// Processing the worklist head keeps the traversal invariant and
/// resolves exactly one more node.
#[verifier::rlimit(100)]
proof fn lemma_step_p1(
    proj: &ProjectConfig,
    cals: Seq<(String, BusinessDaysCalendar)>,
    gm: GraphM,
    st: RunStateM,
)
    requires
        p1_inv(gm, proj.tasks@.len() as int, st),
        st.queue.len() > 0,
        spec_step(proj, cals, gm, st) is Ok,
    ensures
        p1_inv(gm, proj.tasks@.len() as int, spec_step(proj, cals, gm, st)->Ok_0),
        spec_step(proj, cals, gm, st)->Ok_0.processed == st.processed + 1,
        count_some(spec_step(proj, cals, gm, st)->Ok_0.offsets) == count_some(st.offsets) + 1,
{
    let n = proj.tasks@.len() as int;
    let st2 = spec_step(proj, cals, gm, st)->Ok_0;
    let i = st.queue[0];
    let queue1 = st.queue.drop_first();
    assert(0 <= i < n && st.offsets[i] is None && st.pending[i] == 0);
    let start_offset = max_parent_offset(st.offsets, gm.parents[i]);
    let offsets2 = st.offsets.update(i, Some(st2.offsets[i]->0));
    assert(st2.offsets == offsets2);
    crate::gantt_builder::lemma_count_some_update(st.offsets, i, st2.offsets[i]->0);
    // parents of already-resolved nodes keep their offsets, so resolved
    // start offsets stay put
    assert forall|c: int|
        0 <= c < n && (#[trigger] st.offsets[c]) is Some implies max_parent_offset(
        offsets2,
        gm.parents[c],
    ) == max_parent_offset(st.offsets, gm.parents[c]) by {
        lemma_max_parent_stable(st.offsets, gm.parents[c], i, st2.offsets[i]->0);
    }
    assert(max_parent_offset(offsets2, gm.parents[i]) == start_offset) by {
        lemma_max_parent_stable(st.offsets, gm.parents[i], i, st2.offsets[i]->0);
    }
    // the remaining worklist keeps its properties under the update
    assert forall|kk: int|
        0 <= kk < queue1.len() implies 0 <= #[trigger] queue1[kk] < n
        && offsets2[queue1[kk]] is None && st.pending[queue1[kk]] == 0 by {
        assert(queue1[kk] == st.queue[kk + 1]);
        assert(st.queue[kk + 1] != st.queue[0]);
    }
    assert forall|a: int, b: int|
        0 <= a < b < queue1.len() implies #[trigger] queue1[a] != #[trigger] queue1[b] by {
        assert(queue1[a] == st.queue[a + 1] && queue1[b] == st.queue[b + 1]);
    }
    assert forall|c: int|
        0 <= c < n && #[trigger] st.pending[c] == 0 && offsets2[c] is None implies in_iqueue(
        queue1,
        c,
    ) by {
        assert(st.offsets[c] is None);
        assert(in_iqueue(st.queue, c));
        let kk = choose|kk: int| 0 <= kk < st.queue.len() && #[trigger] st.queue[kk] == c;
        assert(c != i);
        assert(kk >= 1);
        assert(queue1[kk - 1] == c);
    }
    // pending counts against the updated offsets, with the pending
    // notices of node i's children still outstanding
    assert forall|c: int| 0 <= c < n implies #[trigger] st.pending[c] == unresolved_parents(
        gm.parents[c],
        offsets2,
    ) + count_of(gm.children[i].subrange(0, gm.children[i].len() as int), c) by {
        lemma_unresolved_update(gm.parents[c], st.offsets, i, st2.offsets[i]->0);
        assert(gm.children[i].subrange(0, gm.children[i].len() as int) =~= gm.children[i]);
        assert(count_of(gm.children[i], c) == count_of(gm.parents[c], i));
    }
    assert forall|c: int|
        0 <= c < n && (#[trigger] offsets2[c]) is Some implies st.pending[c] == 0 by {
        if c != i {
            assert(st.offsets[c] is Some);
        }
    }
    lemma_enqueue_p1(queue1, st.pending, gm.children[i], 0, offsets2, gm, n);
    let qp = enqueue_children(queue1, st.pending, gm.children[i], 0);
    assert(st2.queue == qp.0 && st2.pending == qp.1);
    // the new node's start equation and the preserved ones
    assert forall|c: int|
        0 <= c < n && (#[trigger] st2.offsets[c]) is Some implies st2.starts[c]->0
        == max_parent_offset(st2.offsets, gm.parents[c]) by {
        if c != i {
            assert(st.offsets[c] is Some);
            assert(st2.starts[c] == st.starts[c]);
        }
    }
    assert(p1_inv(gm, n, st2));
}

/// The initial worklist state satisfies the traversal invariant.
#[verifier::rlimit(100)]
proof fn lemma_init_p1(proj: &ProjectConfig, gm: GraphM)
    requires
        spec_build_graph(proj.tasks@) == Ok::<GraphM, Seq<char>>(gm),
    ensures
        p1_inv(gm, proj.tasks@.len() as int, spec_init_state(proj, gm)),
{
    let n = proj.tasks@.len() as int;
    let st = spec_init_state(proj, gm);
    lemma_build_graph_linked(proj.tasks@);
    crate::gantt_builder::lemma_starting_upto(proj.tasks@, n);
    crate::gantt_builder::lemma_link_edges_par_len(
        proj.tasks@,
        0,
        0,
        Seq::new(proj.tasks@.len(), |_i: int| Seq::<int>::empty()),
        Seq::new(proj.tasks@.len(), |_i: int| Seq::<int>::empty()),
    );
    assert(gm.starting == spec_starting_upto(proj.tasks@, n));
    assert(forall|c: int|
        0 <= c < n ==> (#[trigger] gm.parents[c]).len() == proj.tasks@[c].after@.len());
    crate::gantt_builder::lemma_count_some_zero(st.offsets);
    assert forall|c: int| 0 <= c < n implies #[trigger] st.pending[c] == unresolved_parents(
        gm.parents[c],
        st.offsets,
    ) by {
        lemma_unresolved_all(gm.parents[c], st.offsets);
    }
    assert forall|a: int, b: int|
        0 <= a < b < st.queue.len() implies #[trigger] st.queue[a] != #[trigger] st.queue[b] by {
        assert(spec_starting_upto(proj.tasks@, n)[a] < spec_starting_upto(proj.tasks@, n)[b]);
    }
    assert forall|k: int|
        0 <= k < st.queue.len() implies 0 <= #[trigger] st.queue[k] < n
        && st.offsets[st.queue[k]] is None && st.pending[st.queue[k]] == 0 by {
        assert(proj.tasks@[st.queue[k]].after@.len() == 0);
        lemma_unresolved_all(gm.parents[st.queue[k]], st.offsets);
    }
    assert forall|c: int|
        0 <= c < n && #[trigger] st.pending[c] == 0 && st.offsets[c] is None implies in_iqueue(
        st.queue,
        c,
    ) by {
        lemma_unresolved_all(gm.parents[c], st.offsets);
        assert(gm.parents[c].len() == 0);
        assert(proj.tasks@[c].after@.len() == 0);
        lemma_starting_contains(proj.tasks@, n, c);
    }
    assert(p1_inv(gm, n, st));
}

/// With enough fuel for the unresolved nodes, the traversal never runs
/// out, and its final state keeps the invariant with an empty worklist.
proof fn lemma_run_p1(
    proj: &ProjectConfig,
    cals: Seq<(String, BusinessDaysCalendar)>,
    gm: GraphM,
    st: RunStateM,
    fuel: nat,
)
    requires
        p1_inv(gm, proj.tasks@.len() as int, st),
        fuel >= proj.tasks@.len() - count_some(st.offsets),
        count_some(st.offsets) <= proj.tasks@.len(),
    ensures
        spec_run(proj, cals, gm, st, fuel) != Err::<RunStateM, ProcErrM>(
            ProcErrM::CyclicDependency,
        ),
        spec_run(proj, cals, gm, st, fuel) matches Ok(stf) ==> p1_inv(
            gm,
            proj.tasks@.len() as int,
            stf,
        ) && stf.queue.len() == 0,
    decreases fuel,
{
    let n = proj.tasks@.len() as int;
    if st.queue.len() == 0 {
    } else {
        assert(st.offsets[st.queue[0]] is None);
        crate::gantt_builder::lemma_count_some_le(st.offsets, st.queue[0]);
        assert(fuel >= 1);
        match spec_step(proj, cals, gm, st) {
            Err(e) => {
                assert(e != ProcErrM::CyclicDependency) by {
                    assert(0 <= st.queue[0] < n);
                }
            },
            Ok(st2) => {
                lemma_step_p1(proj, cals, gm, st);
                crate::gantt_builder::lemma_count_some_bound(st2.offsets);
                lemma_run_p1(proj, cals, gm, st2, (fuel - 1) as nat);
            },
        }
    }
}

/// A nonempty unresolved set has a member of least rank.
#[verifier::rlimit(100)]
proof fn lemma_min_rank(offsets: Seq<Option<int>>, rank: Seq<int>, m: int)
    requires
        0 < m <= offsets.len(),
        offsets.len() <= rank.len(),
        exists|c: int| 0 <= c < m && (#[trigger] offsets[c]) is None,
    ensures
        exists|c: int|
            0 <= c < m && (#[trigger] offsets[c]) is None && forall|j: int|
                0 <= j < m && (#[trigger] offsets[j]) is None ==> rank[c] <= rank[j],
    decreases m,
{
    if offsets[m - 1] is None {
        if exists|c: int| 0 <= c < m - 1 && (#[trigger] offsets[c]) is None {
            lemma_min_rank(offsets, rank, m - 1);
            let c0 = choose|c: int|
                0 <= c < m - 1 && (#[trigger] offsets[c]) is None && forall|j: int|
                    0 <= j < m - 1 && (#[trigger] offsets[j]) is None ==> rank[c] <= rank[j];
            if rank[c0] <= rank[m - 1] {
                assert(forall|j: int|
                    0 <= j < m && (#[trigger] offsets[j]) is None ==> rank[c0] <= rank[j]);
            } else {
                assert(forall|j: int|
                    0 <= j < m && (#[trigger] offsets[j]) is None ==> rank[m - 1] <= rank[j]);
            }
        } else {
            assert(forall|j: int|
                0 <= j < m && (#[trigger] offsets[j]) is None ==> rank[m - 1] <= rank[j]);
        }
    } else {
        let c0 = choose|c: int| 0 <= c < m && (#[trigger] offsets[c]) is None;
        assert(0 <= c0 < m - 1);
        lemma_min_rank(offsets, rank, m - 1);
        let c1 = choose|c: int|
            0 <= c < m - 1 && (#[trigger] offsets[c]) is None && forall|j: int|
                0 <= j < m - 1 && (#[trigger] offsets[j]) is None ==> rank[c] <= rank[j];
        assert(forall|j: int|
            0 <= j < m && (#[trigger] offsets[j]) is None ==> rank[c1] <= rank[j]);
    }
}

/// With an empty worklist under the invariant, an acyclic graph leaves
/// nothing unresolved.
proof fn lemma_drained_all_resolved(gm: GraphM, n: int, st: RunStateM, rank: Seq<int>)
    requires
        p1_inv(gm, n, st),
        st.queue.len() == 0,
        rank.len() == n,
        rank_consistent(gm.parents, rank),
        gm.parents.len() == n,
    ensures
        forall|c: int| 0 <= c < n ==> (#[trigger] st.offsets[c]) is Some,
{
    if exists|c: int| 0 <= c < n && (#[trigger] st.offsets[c]) is None {
        lemma_min_rank(st.offsets, rank, n);
        let c = choose|c: int|
            0 <= c < n && (#[trigger] st.offsets[c]) is None && forall|j: int|
                0 <= j < n && (#[trigger] st.offsets[j]) is None ==> rank[c] <= rank[j];
        // every parent of c outranks downward, so each is resolved
        assert forall|k: int|
            0 <= k < gm.parents[c].len() implies !(0 <= #[trigger] gm.parents[c][k]
            < st.offsets.len() && st.offsets[gm.parents[c][k]] is None) by {
            if 0 <= gm.parents[c][k] < st.offsets.len()
                && st.offsets[gm.parents[c][k]] is None {
                assert(rank[gm.parents[c][k]] < rank[c]);
                assert(rank[c] <= rank[gm.parents[c][k]]);
            }
        }
        lemma_unresolved_zero(gm.parents[c], st.offsets);
        assert(st.pending[c] == 0);
        assert(in_iqueue(st.queue, c));
        let kk = choose|kk: int| 0 <= kk < st.queue.len() && #[trigger] st.queue[kk] == c;
        assert(false);
    }
}

/// For any acyclic dependency graph, the traversal resolves every node
/// in finitely many steps -- the run never reports a dependency cycle
/// -- and each node's start offset is the largest final cumulative
/// offset among its parents (a parent's final offset being its own
/// start offset plus its consumed span).
pub proof fn lemma_acyclic_input_resolves(
    proj: &ProjectConfig,
    cals: Seq<(String, BusinessDaysCalendar)>,
)
    requires
        spec_build_graph(proj.tasks@) is Ok,
        acyclic(spec_build_graph(proj.tasks@)->Ok_0.parents),
    ensures
        spec_run_result(proj, cals) != Err::<RunStateM, ProcErrM>(ProcErrM::CyclicDependency),
        spec_run_result(proj, cals) matches Ok(st) ==> forall|i: int|
            0 <= i < proj.tasks@.len() ==> (#[trigger] st.offsets[i]) is Some
                && st.starts[i] is Some && st.starts[i]->0 == max_parent_offset(
                st.offsets,
                spec_build_graph(proj.tasks@)->Ok_0.parents[i],
            ),
{
    let n = proj.tasks@.len() as int;
    let gm = spec_build_graph(proj.tasks@)->Ok_0;
    let st0 = spec_init_state(proj, gm);
    lemma_init_p1(proj, gm);
    crate::gantt_builder::lemma_count_some_zero(st0.offsets);
    lemma_run_p1(proj, cals, gm, st0, proj.tasks@.len());
    let rank = choose|rank: Seq<int>|
        rank.len() == gm.parents.len() && #[trigger] rank_consistent(gm.parents, rank);
    match spec_run(proj, cals, gm, st0, proj.tasks@.len()) {
        Err(_) => {},
        Ok(st) => {
            lemma_drained_all_resolved(gm, n, st, rank);
            crate::gantt_builder::lemma_count_some_bound(st.offsets);
            assert(count_some(st.offsets) == n) by {
                if count_some(st.offsets) < n {
                    lemma_count_all_some(st.offsets);
                }
            }
            assert(st.processed == n);
        },
    }
}

/// A fully resolved list has as many resolved entries as entries.
proof fn lemma_count_all_some(s: Seq<Option<int>>)
    requires
        forall|c: int| 0 <= c < s.len() ==> (#[trigger] s[c]) is Some,
    ensures
        count_some(s) == s.len(),
    decreases s.len(),
{
    if s.len() > 0 {
        assert(s.last() == s[s.len() - 1]);
        lemma_count_all_some(s.drop_last());
    }
}

} // verus!

