use vstd::prelude::*;
use vstd::arithmetic::div_mod::lemma_add_mod_noop;
use vstd::arithmetic::div_mod::lemma_fundamental_div_mod_converse;
use vstd::arithmetic::div_mod::lemma_small_mod;

use crate::day::Day;
use crate::day::DayView;
use crate::day::spec_freetime;
use crate::errors::PlanError;
use crate::schedule::Diagnostic;
use crate::schedule::DiagnosticView;
use crate::schedule::Schedule;
use crate::schedule::ScheduleView;
use crate::schedule::all_wf;
use crate::schedule::diag_views;
use crate::schedule::flex_length;
use crate::schedule::place_fixed;
use crate::schedule::place_fixed_spec;
use crate::schedule::place_split;
use crate::schedule::place_whole;
use crate::schedule::place_whole_spec;
use crate::schedule::sched_views;
use crate::schedule::split_consume;
use crate::schedule::total_free;
use crate::schedule::total_free_of;
use crate::sys;
use crate::task::DynamicTask;
use crate::task::DynamicTaskView;
use crate::task::StaticTaskView;
use crate::task::dyn_le;
use crate::task::dynamic_le;
use crate::task::lemma_dyn_le_total;
use crate::task::lemma_dyn_le_trans;
use crate::time::Config;

verus! {

/// The mathematical value of a [`Planner`].
#[verifier::ext_equal]
pub ghost struct PlannerView {
    pub config: Config,
    pub days: Seq<DayView>,
    pub dynamic_tasks: Seq<DynamicTaskView>,
    pub dynamic_done: Seq<(DynamicTaskView, i64)>,
}

/// The master list is ordered: date first, fixed before flexible on one
/// date, then the per-kind tie breaks.
pub open spec fn sorted_dyn(ts: Seq<DynamicTaskView>) -> bool {
    forall|i: int, j: int|
        #![trigger ts[i], ts[j]]
        0 <= i < j < ts.len() ==> dyn_le(ts[i], ts[j])
}

impl PlannerView {
    /// A well-formed planner: a valid window, exactly seven well-formed
    /// days, and a sorted master list of well-formed tasks.
    pub open spec fn wf(self) -> bool {
        &&& self.config.wf()
        &&& self.days.len() == 7
        &&& forall|i: int| 0 <= i < 7 ==> (#[trigger] self.days[i]).wf()
        &&& sorted_dyn(self.dynamic_tasks)
        &&& forall|i: int|
            0 <= i < self.dynamic_tasks.len() ==> (#[trigger] self.dynamic_tasks[i]).wf()
    }
}

/// The week's planner: the schedulable window, one day per weekday indexed
/// 0 = Monday .. 6 = Sunday, the master ordered list of pending dynamic
/// tasks, and the log of completed dynamic tasks with their completion
/// timestamps.
#[derive(Debug, PartialEq, Eq)]
pub struct Planner {
    pub config: Config,
    pub days: Vec<Day>,
    pub dynamic_tasks: Vec<DynamicTask>,
    pub dynamic_done: Vec<(DynamicTask, i64)>,
}

impl View for Planner {
    type V = PlannerView;

    open spec fn view(&self) -> PlannerView {
        PlannerView {
            config: self.config,
            days: self.days@.map_values(|d: Day| d@),
            dynamic_tasks: self.dynamic_tasks@.map_values(|t: DynamicTask| t@),
            dynamic_done: self.dynamic_done@.map_values(|p: (DynamicTask, i64)| (p.0@, p.1)),
        }
    }
}

/// The weekday index of a day number, 0 = Monday .. 6 = Sunday; day 1 of
/// the calendar is a Monday.
pub open spec fn spec_weekday(day: int) -> int {
    (day + 6) % 7
}

/// Computes the weekday index of a day number.
pub fn weekday_of_day(day: i64) -> (w: usize)
    requires
        day > i64::MIN,
    ensures
        w as int == spec_weekday(day as int),
        w < 7,
{
    let m: i64 = if day >= 0 {
        day % 7
    } else {
        let k = (-day) % 7;
        proof {
            let q = (-day) as int / 7;
            if k == 0 {
                lemma_fundamental_div_mod_converse(day as int, 7, -q, 0);
            } else {
                lemma_fundamental_div_mod_converse(day as int, 7, -q - 1, 7 - k);
            }
        }
        if k == 0 {
            0
        } else {
            7 - k
        }
    };
    proof {
        assert(m == day as int % 7);
        lemma_add_mod_noop(day as int, 6, 7);
        lemma_small_mod(6, 7);
        assert((m + 6) % 7 as int == spec_weekday(day as int));
    }
    ((m + 6) % 7) as usize
}

/// The position where a new task enters the master list: after every task
/// that sorts no later than it, so tasks that compare equal keep their
/// insertion order.
pub open spec fn dyn_insert_pos(ts: Seq<DynamicTaskView>, t: DynamicTaskView) -> int
    decreases ts.len(),
{
    if ts.len() == 0 {
        0
    } else if !dyn_le(ts[0], t) {
        0
    } else {
        1 + dyn_insert_pos(ts.skip(1), t)
    }
}

proof fn lemma_dyn_insert_pos(ts: Seq<DynamicTaskView>, t: DynamicTaskView)
    ensures
        0 <= dyn_insert_pos(ts, t) <= ts.len(),
        forall|j: int| 0 <= j < dyn_insert_pos(ts, t) ==> dyn_le(#[trigger] ts[j], t),
        dyn_insert_pos(ts, t) < ts.len() ==> !dyn_le(ts[dyn_insert_pos(ts, t)], t),
    decreases ts.len(),
{
    if ts.len() != 0 && dyn_le(ts[0], t) {
        lemma_dyn_insert_pos(ts.skip(1), t);
        assert forall|j: int| 0 <= j < dyn_insert_pos(ts, t) implies dyn_le(#[trigger] ts[j], t) by {
            if j > 0 {
                assert(ts.skip(1)[j - 1] == ts[j]);
            }
        }
        if dyn_insert_pos(ts, t) < ts.len() {
            assert(ts.skip(1)[dyn_insert_pos(ts.skip(1), t)] == ts[dyn_insert_pos(ts, t)]);
        }
    }
}

/// The identifiers of the master entries dated `date`, in master order.
pub open spec fn refs_for_date(ts: Seq<DynamicTaskView>, date: i64) -> Seq<u128>
    decreases ts.len(),
{
    if ts.len() == 0 {
        Seq::empty()
    } else {
        refs_for_date(ts.drop_last(), date) + (if ts.last().date() == date {
            seq![ts.last().id()]
        } else {
            Seq::empty()
        })
    }
}

/// The first master index whose task carries `id`, or -1 if none does.
pub open spec fn find_by_id(ts: Seq<DynamicTaskView>, id: u128) -> int
    decreases ts.len(),
{
    if ts.len() == 0 {
        -1
    } else if ts[0].id() == id {
        0
    } else if find_by_id(ts.skip(1), id) == -1 {
        -1
    } else {
        1 + find_by_id(ts.skip(1), id)
    }
}

pub proof fn lemma_find_by_id(ts: Seq<DynamicTaskView>, id: u128)
    ensures
        find_by_id(ts, id) == -1 ==> forall|j: int| 0 <= j < ts.len() ==> (#[trigger] ts[j]).id()
            != id,
        find_by_id(ts, id) != -1 ==> 0 <= find_by_id(ts, id) < ts.len() && ts[find_by_id(
            ts,
            id,
        )].id() == id && forall|j: int| 0 <= j < find_by_id(ts, id) ==> (#[trigger] ts[j]).id()
            != id,
    decreases ts.len(),
{
    if ts.len() != 0 && ts[0].id() != id {
        lemma_find_by_id(ts.skip(1), id);
        if find_by_id(ts, id) == -1 {
            assert forall|j: int| 0 <= j < ts.len() implies (#[trigger] ts[j]).id() != id by {
                if j > 0 {
                    assert(ts.skip(1)[j - 1] == ts[j]);
                }
            }
        } else {
            assert(ts.skip(1)[find_by_id(ts.skip(1), id)] == ts[find_by_id(ts, id)]);
            assert forall|j: int| 0 <= j < find_by_id(ts, id) implies (#[trigger] ts[j]).id()
                != id by {
                if j > 0 {
                    assert(ts.skip(1)[j - 1] == ts[j]);
                }
            }
        }
    }
}

/// The day's references resolved against the master list, in reference
/// order; an identifier no longer in the master list resolves to nothing.
pub open spec fn resolve_refs(refs: Seq<u128>, ts: Seq<DynamicTaskView>) -> Seq<DynamicTaskView>
    decreases refs.len(),
{
    if refs.len() == 0 {
        Seq::empty()
    } else {
        (if find_by_id(ts, refs[0]) != -1 {
            seq![ts[find_by_id(ts, refs[0])]]
        } else {
            Seq::empty()
        }) + resolve_refs(refs.skip(1), ts)
    }
}

/// The days from today's weekday on, their dynamic references rebuilt from
/// the master list for their upcoming dates; earlier days keep theirs.
pub open spec fn updated_days(
    days: Seq<DayView>,
    master: Seq<DynamicTaskView>,
    today: i64,
) -> Seq<DayView> {
    Seq::new(
        days.len(),
        |n: int|
            if n >= spec_weekday(today as int) {
                DayView {
                    static_tasks: days[n].static_tasks,
                    static_done: days[n].static_done,
                    dynamic_tasks: refs_for_date(
                        master,
                        (today + (n - spec_weekday(today as int))) as i64,
                    ),
                }
            } else {
                days[n]
            },
    )
}

/// One placement step: a fixed task goes into the first free entry holding
/// its window; a splittable flexible task is split over the free entries
/// when they suffice in total; an unsplit flexible task goes into the first
/// free entry long enough. A task that cannot be placed leaves the schedule
/// unchanged and adds exactly one diagnostic.
pub open spec fn place_one(
    s: Seq<ScheduleView>,
    diags: Seq<DiagnosticView>,
    t: DynamicTaskView,
) -> (Seq<ScheduleView>, Seq<DiagnosticView>) {
    match t {
        DynamicTaskView::Fixed { .. } => match place_fixed_spec(s, t) {
            Some(v) => (v, diags),
            None => (s, diags.push(DiagnosticView::UnplacedFixed(t))),
        },
        DynamicTaskView::Flexible { can_split, length, .. } => {
            if can_split {
                if total_free(s) >= length {
                    (split_consume(s, t, length, 1), diags)
                } else {
                    (
                        s,
                        diags.push(
                            DiagnosticView::InsufficientFreeTime(t, total_free(s) as u128),
                        ),
                    )
                }
            } else {
                match place_whole_spec(s, t) {
                    Some(v) => (v, diags),
                    None => (s, diags.push(DiagnosticView::UnplacedFlexible(t))),
                }
            }
        },
    }
}

/// Places the tasks one after the other, in their stored order, collecting
/// a diagnostic for each that cannot be placed.
pub open spec fn place_all(
    s: Seq<ScheduleView>,
    diags: Seq<DiagnosticView>,
    ts: Seq<DynamicTaskView>,
) -> (Seq<ScheduleView>, Seq<DiagnosticView>)
    decreases ts.len(),
{
    if ts.len() == 0 {
        (s, diags)
    } else {
        let (s1, d1) = place_one(s, diags, ts[0]);
        place_all(s1, d1, ts.skip(1))
    }
}

/// The whole schedule of day `n`: the day's free time overlaid with its
/// resolved dynamic tasks, together with the diagnostics of the tasks that
/// found no room.
pub open spec fn spec_schedule(p: PlannerView, n: int) -> (
    Seq<ScheduleView>,
    Seq<DiagnosticView>,
) {
    place_all(
        spec_freetime(p.days[n], p.config),
        Seq::empty(),
        resolve_refs(p.days[n].dynamic_tasks, p.dynamic_tasks),
    )
}

/// A splittable flexible task asking for more than the schedule's total
/// free time changes nothing and yields exactly one diagnostic, which
/// carries the total that was available.
pub proof fn lemma_insufficient_free_time(
    s: Seq<ScheduleView>,
    diags: Seq<DiagnosticView>,
    t: DynamicTaskView,
)
    requires
        t matches DynamicTaskView::Flexible { can_split: true, .. },
        total_free(s) < flex_length(t),
    ensures
        place_one(s, diags, t).0 == s,
        place_one(s, diags, t).1 == diags.push(
            DiagnosticView::InsufficientFreeTime(t, total_free(s) as u128),
        ),
{
}

/// The identifiers of the master entries dated `date`, in master order.
fn collect_refs(master: &Vec<DynamicTask>, date: i64) -> (r: Vec<u128>)
    ensures
        r@ == refs_for_date(master@.map_values(|t: DynamicTask| t@), date),
{
    let ghost ms = master@.map_values(|t: DynamicTask| t@);
    let n = master.len();
    let mut r: Vec<u128> = Vec::new();
    let mut i: usize = 0;
    proof {
        assert(ms.take(0) =~= Seq::<DynamicTaskView>::empty());
        assert(r@ =~= refs_for_date(ms.take(0), date));
    }
    while i < n
        invariant
            i <= n == master@.len(),
            ms == master@.map_values(|t: DynamicTask| t@),
            r@ == refs_for_date(ms.take(i as int), date),
        decreases n - i,
    {
        let ghost prev = r@;
        proof {
            assert(ms.take(i + 1).drop_last() =~= ms.take(i as int));
            assert(ms.take(i + 1).last() == ms[i as int]);
            assert(ms[i as int] == master@[i as int]@);
        }
        let matches_date = master[i].get_date() == date;
        let id = match &master[i] {
            DynamicTask::Flexible { task, .. } => task.id,
            DynamicTask::Fixed { task, .. } => task.task.id,
        };
        if matches_date {
            r.push(id);
            proof {
                assert(r@ =~= prev + seq![ms[i as int].id()]);
            }
        } else {
            proof {
                assert(refs_for_date(ms.take(i + 1), date) =~= prev);
            }
        }
        i = i + 1;
    }
    proof {
        assert(ms.take(n as int) =~= ms);
    }
    r
}

/// The first master index whose task carries `id`, if any.
fn find_index_by_id(master: &Vec<DynamicTask>, id: u128) -> (r: Option<usize>)
    ensures
        match r {
            Some(i) => i < master@.len() && find_by_id(
                master@.map_values(|t: DynamicTask| t@),
                id,
            ) == i as int,
            None => find_by_id(master@.map_values(|t: DynamicTask| t@), id) == -1,
        },
{
    let ghost ms = master@.map_values(|t: DynamicTask| t@);
    proof {
        lemma_find_by_id(ms, id);
    }
    let n = master.len();
    let mut i: usize = 0;
    while i < n
        invariant
            i <= n == master@.len(),
            ms == master@.map_values(|t: DynamicTask| t@),
            forall|j: int| 0 <= j < i ==> (#[trigger] ms[j]).id() != id,
        decreases n - i,
    {
        let tid = match &master[i] {
            DynamicTask::Flexible { task, .. } => task.id,
            DynamicTask::Fixed { task, .. } => task.task.id,
        };
        proof {
            assert(ms[i as int] == master@[i as int]@);
        }
        if tid == id {
            proof {
                lemma_find_by_id(ms, id);
                if find_by_id(ms, id) == -1 {
                    assert(ms[i as int].id() != id);
                }
                if find_by_id(ms, id) < i as int {
                    assert(ms[find_by_id(ms, id)].id() != id);
                }
                if find_by_id(ms, id) > i as int {
                    assert(ms[i as int].id() != id);
                }
            }
            return Some(i);
        }
        i = i + 1;
    }
    proof {
        lemma_find_by_id(ms, id);
        if find_by_id(ms, id) != -1 {
            assert(ms[find_by_id(ms, id)].id() != id);
        }
    }
    None
}

impl Planner {
    /// A planner over the given window: seven empty days, no pending and
    /// no completed dynamic tasks.
    pub fn new(config: Config) -> (r: Self)
        ensures
            r@.config == config,
            r@.days.len() == 7,
            forall|i: int|
                0 <= i < 7 ==> (#[trigger] r@.days[i]) == (DayView {
                    static_tasks: Seq::<StaticTaskView>::empty(),
                    static_done: Seq::<(u128, i64)>::empty(),
                    dynamic_tasks: Seq::<u128>::empty(),
                }),
            r@.dynamic_tasks == Seq::<DynamicTaskView>::empty(),
            r@.dynamic_done == Seq::<(DynamicTaskView, i64)>::empty(),
            config.wf() ==> r@.wf(),
    {
        let mut days: Vec<Day> = Vec::new();
        days.push(Day::new());
        days.push(Day::new());
        days.push(Day::new());
        days.push(Day::new());
        days.push(Day::new());
        days.push(Day::new());
        days.push(Day::new());
        let r = Planner { config, days, dynamic_tasks: Vec::new(), dynamic_done: Vec::new() };
        proof {
            assert(r@.dynamic_tasks =~= Seq::<DynamicTaskView>::empty());
            assert(r@.dynamic_done =~= Seq::<(DynamicTaskView, i64)>::empty());
        }
        r
    }

    /// The day at index `nth`, 0 = Monday .. 6 = Sunday.
    pub fn nth_day(&self, nth: usize) -> (r: Result<&Day, PlanError>)
        requires
            self@.days.len() == 7,
        ensures
            nth > 6 ==> (r matches Err(e) && e == (PlanError::DayOutOfRange { given: nth })),
            nth <= 6 ==> (r matches Ok(d) && d@ == self@.days[nth as int]),
    {
        if nth > 6 {
            Err(PlanError::DayOutOfRange { given: nth })
        } else {
            proof {
                assert(self@.days[nth as int] == self.days@[nth as int]@);
            }
            Ok(&self.days[nth])
        }
    }

    /// The day at index `nth`, mutably.
    pub fn nth_day_mut(&mut self, nth: usize) -> (r: Result<&mut Day, PlanError>)
        requires
            old(self)@.days.len() == 7,
        ensures
            nth > 6 ==> (r matches Err(e) && e == (PlanError::DayOutOfRange { given: nth })
                && *final(self) == *old(self)),
            nth <= 6 ==> (r matches Ok(d) && d@ == old(self)@.days[nth as int] && final(self)@.days.len() == 7 && final(self)@.days[nth as int] == final(d)@ && (forall|i: int|
                0 <= i < 7 && i != nth ==> #[trigger] final(self)@.days[i] == old(self)@.days[i])
                && final(self)@.config == old(self)@.config && final(self)@.dynamic_tasks == old(self)@.dynamic_tasks && final(self)@.dynamic_done == old(self)@.dynamic_done),
    {
        if nth > 6 {
            Err(PlanError::DayOutOfRange { given: nth })
        } else {
            proof {
                assert(self@.days[nth as int] == self.days@[nth as int]@);
            }
            let d = &mut self.days[nth];
            Ok(d)
        }
    }

    /// Today's day.
    pub fn current_day(&self) -> (r: &Day)
        requires
            self@.days.len() == 7,
        ensures
            exists|w: int| 0 <= w < 7 && r@ == self@.days[w],
    {
        let today = sys::today_day_number();
        let w = weekday_of_day(today);
        proof {
            assert(self@.days[w as int] == self.days@[w as int]@);
        }
        &self.days[w]
    }

    /// Today's day, mutably.
    pub fn current_day_mut(&mut self) -> (r: &mut Day)
        requires
            old(self)@.days.len() == 7,
        ensures
            exists|w: int|
                0 <= w < 7 && *r == old(self).days@[w] && final(self)@.days[w] == final(r)@ && (
                forall|i: int|
                    0 <= i < 7 && i != w ==> #[trigger] final(self)@.days[i] == old(self)@.days[i]),
            final(self)@.days.len() == 7,
            final(self)@.config == old(self)@.config,
            final(self)@.dynamic_tasks == old(self)@.dynamic_tasks,
            final(self)@.dynamic_done == old(self)@.dynamic_done,
    {
        let today = sys::today_day_number();
        let w = weekday_of_day(today);
        let d = &mut self.days[w];
        d
    }

    /// Rebuilds, for each day from today's weekday through Sunday, the
    /// day's dynamic references: the identifiers of every master entry
    /// dated that day's upcoming date. Days before today keep theirs.
    pub fn update_dynamics_on(&mut self, today: i64)
        requires
            old(self)@.days.len() == 7,
            i64::MIN < today <= i64::MAX - 6,
        ensures
            final(self)@.days == updated_days(
                old(self)@.days,
                old(self)@.dynamic_tasks,
                today,
            ),
            final(self)@.config == old(self)@.config,
            final(self)@.dynamic_tasks == old(self)@.dynamic_tasks,
            final(self)@.dynamic_done == old(self)@.dynamic_done,
            old(self)@.wf() ==> final(self)@.wf(),
    {
        let ghost target = updated_days(old(self)@.days, old(self)@.dynamic_tasks, today);
        let w = weekday_of_day(today);
        let mut n: usize = w;
        while n < 7
            invariant
                w <= n <= 7,
                w as int == spec_weekday(today as int),
                w < 7,
                today <= i64::MAX - 6,
                old(self)@.days.len() == 7,
                self@.days.len() == 7,
                self@.config == old(self)@.config,
                self@.dynamic_tasks == old(self)@.dynamic_tasks,
                self@.dynamic_done == old(self)@.dynamic_done,
                target == updated_days(old(self)@.days, old(self)@.dynamic_tasks, today),
                forall|m: int| 0 <= m < n ==> #[trigger] self@.days[m] == target[m],
                forall|m: int| n <= m < 7 ==> #[trigger] self@.days[m] == old(self)@.days[m],
            decreases 7 - n,
        {
            let offset = (n - w) as i64;
            let date = today + offset;
            let refs = collect_refs(&self.dynamic_tasks, date);
            let ghost before = self@;
            let dref = &mut self.days[n];
            dref.dynamic_tasks = refs;
            proof {
                assert(self@.days =~= before.days.update(
                    n as int,
                    DayView {
                        static_tasks: before.days[n as int].static_tasks,
                        static_done: before.days[n as int].static_done,
                        dynamic_tasks: refs@,
                    },
                ));
                assert(before.days[n as int] == old(self)@.days[n as int]);
                assert(refs@ == refs_for_date(
                    old(self)@.dynamic_tasks,
                    (today + (n as int - spec_weekday(today as int))) as i64,
                ));
                assert(target[n as int] == (DayView {
                    static_tasks: old(self)@.days[n as int].static_tasks,
                    static_done: old(self)@.days[n as int].static_done,
                    dynamic_tasks: refs_for_date(
                        old(self)@.dynamic_tasks,
                        (today + (n as int - spec_weekday(today as int))) as i64,
                    ),
                }));
                assert(self@.days[n as int] == target[n as int]);
            }
            n = n + 1;
        }
        proof {
            assert(final(self)@.days =~= target);
            if old(self)@.wf() {
                assert forall|i: int| 0 <= i < 7 implies (#[trigger] final(self)@.days[i]).wf() by {
                    assert(old(self)@.days[i].wf());
                }
            }
        }
    }

    /// Adds a dynamic task dated `today` or later: it enters the master
    /// list at its sort position, after any task it compares equal to, and
    /// the days from today on get their references rebuilt. A task dated
    /// before `today` is rejected and nothing changes.
    pub fn add_dynamic_on(&mut self, task: DynamicTask, today: i64) -> (r: Result<(), PlanError>)
        requires
            old(self)@.wf(),
            i64::MIN < today <= i64::MAX - 6,
        ensures
            task@.date() < today ==> r == Err::<(), PlanError>(PlanError::DateInPast) && *final(self) == *old(self),
            task@.date() >= today ==> r == Ok::<(), PlanError>(()) && {
                let master = old(self)@.dynamic_tasks.insert(
                    dyn_insert_pos(old(self)@.dynamic_tasks, task@),
                    task@,
                );
                &&& final(self)@.dynamic_tasks == master
                &&& final(self)@.days == updated_days(old(self)@.days, master, today)
                &&& final(self)@.config == old(self)@.config
                &&& final(self)@.dynamic_done == old(self)@.dynamic_done
            },
            task@.wf() ==> final(self)@.wf(),
    {
        if task.get_date() < today {
            return Err(PlanError::DateInPast);
        }
        let ghost ms = self@.dynamic_tasks;
        proof {
            lemma_dyn_insert_pos(ms, task@);
        }
        let n = self.dynamic_tasks.len();
        let mut k: usize = 0;
        while k < n && dynamic_le(&self.dynamic_tasks[k], &task)
            invariant
                k <= n == self.dynamic_tasks@.len(),
                *self == *old(self),
                ms == self@.dynamic_tasks,
                k <= dyn_insert_pos(ms, task@),
            decreases n - k,
        {
            proof {
                lemma_dyn_insert_pos(ms, task@);
                assert(ms[k as int] == self.dynamic_tasks@[k as int]@);
                if dyn_insert_pos(ms, task@) == k {
                    assert(false);
                }
            }
            k = k + 1;
        }
        proof {
            lemma_dyn_insert_pos(ms, task@);
            let pos = dyn_insert_pos(ms, task@);
            if k < n {
                assert(ms[k as int] == self.dynamic_tasks@[k as int]@);
                if pos > k {
                    assert(dyn_le(ms[k as int], task@));
                }
            }
            assert(pos == k);
        }
        self.dynamic_tasks.insert(k, task);
        proof {
            let pos = k as int;
            let new_ms = ms.insert(pos, task@);
            assert(self@.dynamic_tasks =~= new_ms);
            ms.insert_ensures(pos, task@);
            lemma_dyn_insert_pos(ms, task@);
            if task@.wf() {
                assert forall|i: int| 0 <= i < new_ms.len() implies (#[trigger] new_ms[i]).wf() by {
                    if i < pos {
                        assert(new_ms[i] == ms[i]);
                    } else if i == pos {
                        assert(new_ms[i] == task@);
                    } else {
                        assert(new_ms[i] == ms[i - 1]);
                    }
                }
                assert forall|i: int, j: int|
                    #![trigger new_ms[i], new_ms[j]]
                    0 <= i < j < new_ms.len() implies dyn_le(new_ms[i], new_ms[j]) by {
                    if i < pos {
                        assert(new_ms[i] == ms[i]);
                    } else if i == pos {
                        assert(new_ms[i] == task@);
                    } else {
                        assert(new_ms[i] == ms[i - 1]);
                    }
                    if j < pos {
                        assert(new_ms[j] == ms[j]);
                    } else if j == pos {
                        assert(new_ms[j] == task@);
                    } else {
                        assert(new_ms[j] == ms[j - 1]);
                    }
                    if j == pos {
                        assert(dyn_le(ms[i], task@));
                    } else if i == pos {
                        lemma_dyn_le_total(task@, ms[j - 1]);
                        if pos < ms.len() {
                            if j - 1 == pos {
                                assert(!dyn_le(ms[pos], task@));
                            } else {
                                if dyn_le(ms[j - 1], task@) {
                                    lemma_dyn_le_trans(ms[pos], ms[j - 1], task@);
                                }
                            }
                        }
                    }
                }
            }
        }
        self.update_dynamics_on(today);
        Ok(())
    }

    /// Adds a dynamic task, reading today's date from the clock: rejected
    /// with nothing changed when dated in the past, otherwise inserted at
    /// its sort position in the master list and the upcoming days'
    /// references rebuilt.
    pub fn add_dynamic(&mut self, task: DynamicTask) -> (r: Result<(), PlanError>)
        requires
            old(self)@.wf(),
        ensures
            r matches Err(e) ==> e == PlanError::DateInPast && *final(self) == *old(self),
            r is Ok ==> final(self)@.dynamic_tasks == old(self)@.dynamic_tasks.insert(
                dyn_insert_pos(old(self)@.dynamic_tasks, task@),
                task@,
            ) && final(self)@.config == old(self)@.config && final(self)@.dynamic_done == old(self)@.dynamic_done && forall|i: int|
                0 <= i < 7 ==> (#[trigger] final(self)@.days[i]).static_tasks == old(self)@.days[i].static_tasks && final(self)@.days[i].static_done == old(self)@.days[i].static_done,
            task@.wf() ==> final(self)@.wf(),
    {
        let today = sys::today_day_number();
        let r = self.add_dynamic_on(task, today);
        proof {
            if r is Ok {
                assert forall|i: int|
                    0 <= i < 7 implies (#[trigger] final(self)@.days[i]).static_tasks == old(self)@.days[i].static_tasks && final(self)@.days[i].static_done == old(self)@.days[i].static_done by {}
            }
        }
        r
    }

    /// Completes the task at position `task` of today's references: the
    /// reference and the master entry are removed, the task and `now` are
    /// appended to the completion log, and the upcoming days' references
    /// are rebuilt against the shrunk master list.
    pub fn complete_dynamic_on(&mut self, task: usize, today: i64, now: i64) -> (r: Result<
        (),
        PlanError,
    >)
        requires
            old(self)@.wf(),
            i64::MIN < today <= i64::MAX - 6,
        ensures
            ({
                let w = spec_weekday(today as int);
                let refs = old(self)@.days[w].dynamic_tasks;
                let master = old(self)@.dynamic_tasks;
                &&& task >= refs.len() ==> r == Err::<(), PlanError>(
                    PlanError::NoSuchDynamicTask { index: task },
                ) && *final(self) == *old(self)
                &&& task < refs.len() && find_by_id(master, refs[task as int]) == -1 ==> r
                    == Err::<(), PlanError>(PlanError::MissingFromMaster) && *final(self) == *old(self)
                &&& task < refs.len() && find_by_id(master, refs[task as int]) != -1 ==> {
                    let mi = find_by_id(master, refs[task as int]);
                    let shrunk = master.remove(mi);
                    &&& r == Ok::<(), PlanError>(())
                    &&& final(self)@.dynamic_tasks == shrunk
                    &&& final(self)@.dynamic_done == old(self)@.dynamic_done.push(
                        (master[mi], now),
                    )
                    &&& final(self)@.config == old(self)@.config
                    &&& final(self)@.days == updated_days(
                        old(self)@.days.update(
                            w,
                            DayView {
                                static_tasks: old(self)@.days[w].static_tasks,
                                static_done: old(self)@.days[w].static_done,
                                dynamic_tasks: refs.remove(task as int),
                            },
                        ),
                        shrunk,
                        today,
                    )
                }
            }),
            final(self)@.wf(),
    {
        let w = weekday_of_day(today);
        let ghost master = self@.dynamic_tasks;
        proof {
            assert(self@.days[w as int] == self.days@[w as int]@);
        }
        if task >= self.days[w].dynamic_tasks.len() {
            return Err(PlanError::NoSuchDynamicTask { index: task });
        }
        let id = self.days[w].dynamic_tasks[task];
        let found = find_index_by_id(&self.dynamic_tasks, id);
        match found {
            None => Err(PlanError::MissingFromMaster),
            Some(mi) => {
                let ghost before = self@;
                let dref = &mut self.days[w];
                let _ = dref.dynamic_tasks.remove(task);
                proof {
                    assert(self@.days =~= before.days.update(
                        w as int,
                        DayView {
                            static_tasks: before.days[w as int].static_tasks,
                            static_done: before.days[w as int].static_done,
                            dynamic_tasks: before.days[w as int].dynamic_tasks.remove(task as int),
                        },
                    ));
                    assert forall|i: int| 0 <= i < 7 implies (#[trigger] self@.days[i]).wf() by {
                        assert(before.days[i].wf());
                    }
                }
                let removed = self.dynamic_tasks.remove(mi);
                proof {
                    assert(self@.dynamic_tasks =~= master.remove(mi as int));
                    master.remove_ensures(mi as int);
                    assert forall|i: int, j: int|
                        #![trigger self@.dynamic_tasks[i], self@.dynamic_tasks[j]]
                        0 <= i < j < self@.dynamic_tasks.len() implies dyn_le(
                        self@.dynamic_tasks[i],
                        self@.dynamic_tasks[j],
                    ) by {
                        let s = master.remove(mi as int);
                        if i < mi {
                            assert(s[i] == master[i]);
                        } else {
                            assert(s[i] == master[i + 1]);
                        }
                        if j < mi {
                            assert(s[j] == master[j]);
                        } else {
                            assert(s[j] == master[j + 1]);
                        }
                    }
                    assert forall|i: int|
                        0 <= i < self@.dynamic_tasks.len() implies (
                    #[trigger] self@.dynamic_tasks[i]).wf() by {
                        let s = master.remove(mi as int);
                        if i < mi {
                            assert(s[i] == master[i]);
                        } else {
                            assert(s[i] == master[i + 1]);
                        }
                    }
                    assert(removed@ == master[mi as int]);
                }
                let ghost mid = self@;
                self.dynamic_done.push((removed, now));
                proof {
                    assert(self@.dynamic_done =~= mid.dynamic_done.push((master[mi as int], now)));
                    assert(self@.days == mid.days);
                    assert(self@.dynamic_tasks == mid.dynamic_tasks);
                }
                self.update_dynamics_on(today);
                Ok(())
            },
        }
    }

    /// Completes the task at position `task` of today's references,
    /// reading the clock for today's date and the completion timestamp.
    pub fn complete_dynamic(&mut self, task: usize) -> (r: Result<(), PlanError>)
        requires
            old(self)@.wf(),
        ensures
            final(self)@.wf(),
            final(self)@.config == old(self)@.config,
            forall|i: int|
                0 <= i < 7 ==> (#[trigger] final(self)@.days[i]).static_tasks == old(self)@.days[i].static_tasks && final(self)@.days[i].static_done == old(self)@.days[i].static_done,
            r is Err ==> *final(self) == *old(self),
            r is Ok ==> final(self)@.dynamic_tasks.len() + 1 == old(self)@.dynamic_tasks.len()
                && final(self)@.dynamic_done.len() == old(self)@.dynamic_done.len() + 1,
    {
        let today = sys::today_day_number();
        let now = sys::now_timestamp();
        let r = self.complete_dynamic_on(task, today, now);
        proof {
            if r is Ok {
                let w = spec_weekday(today as int);
                let refs = old(self)@.days[w].dynamic_tasks;
                let master = old(self)@.dynamic_tasks;
                let mi = find_by_id(master, refs[task as int]);
                lemma_find_by_id(master, refs[task as int]);
                assert(final(self)@.dynamic_tasks == master.remove(mi));
            }
        }
        r
    }

    /// The day's dynamic references resolved to task values, in their
    /// stored order; stale identifiers are skipped.
    fn resolve_day_tasks(&self, refs: &Vec<u128>) -> (r: Vec<DynamicTask>)
        ensures
            r@.map_values(|t: DynamicTask| t@) == resolve_refs(refs@, self@.dynamic_tasks),
    {
        let ghost ms = self@.dynamic_tasks;
        let n = refs.len();
        let mut r: Vec<DynamicTask> = Vec::new();
        let mut i: usize = 0;
        proof {
            assert(r@.map_values(|t: DynamicTask| t@) =~= Seq::<DynamicTaskView>::empty());
            assert(refs@.skip(0) =~= refs@);
            assert(Seq::<DynamicTaskView>::empty() + resolve_refs(refs@, ms) =~= resolve_refs(
                refs@,
                ms,
            ));
        }
        while i < n
            invariant
                i <= n == refs@.len(),
                ms == self@.dynamic_tasks,
                r@.map_values(|t: DynamicTask| t@) + resolve_refs(refs@.skip(i as int), ms)
                    == resolve_refs(refs@, ms),
            decreases n - i,
        {
            let ghost prev = r@.map_values(|t: DynamicTask| t@);
            let ghost rest = refs@.skip(i as int);
            proof {
                assert(rest[0] == refs@[i as int]);
                assert(rest.skip(1) =~= refs@.skip(i as int + 1));
            }
            match find_index_by_id(&self.dynamic_tasks, refs[i]) {
                Some(mi) => {
                    proof {
                        assert(ms[mi as int] == self.dynamic_tasks@[mi as int]@);
                    }
                    r.push(self.dynamic_tasks[mi].duplicate());
                    proof {
                        assert(r@.map_values(|t: DynamicTask| t@) =~= prev + seq![ms[mi as int]]);
                        assert(prev + seq![ms[mi as int]] + resolve_refs(
                            refs@.skip(i as int + 1),
                            ms,
                        ) =~= prev + resolve_refs(rest, ms));
                    }
                },
                None => {
                    proof {
                        assert(resolve_refs(rest, ms) =~= Seq::<DynamicTaskView>::empty()
                            + resolve_refs(refs@.skip(i as int + 1), ms));
                        assert(prev + resolve_refs(refs@.skip(i as int + 1), ms) =~= prev
                            + resolve_refs(rest, ms));
                    }
                },
            }
            i = i + 1;
        }
        proof {
            assert(refs@.skip(n as int) =~= Seq::<u128>::empty());
            assert(r@.map_values(|t: DynamicTask| t@) + resolve_refs(
                Seq::<u128>::empty(),
                ms,
            ) =~= r@.map_values(|t: DynamicTask| t@));
        }
        r
    }

    /// The free-time sequence of the day at index `nth`.
    pub fn get_freetime_nth(&self, n: usize) -> (r: Result<Vec<Schedule>, PlanError>)
        requires
            self@.days.len() == 7,
        ensures
            n > 6 ==> (r matches Err(e) && e == (PlanError::DayOutOfRange { given: n })),
            n <= 6 ==> (r matches Ok(v) && sched_views(v@) == spec_freetime(
                self@.days[n as int],
                self@.config,
            )),
    {
        if n > 6 {
            return Err(PlanError::DayOutOfRange { given: n });
        }
        proof {
            assert(self@.days[n as int] == self.days@[n as int]@);
        }
        Ok(self.days[n].get_freetime(&self.config))
    }

    /// The free-time sequence of today's day.
    pub fn get_freetime_current(&self) -> (r: Vec<Schedule>)
        requires
            self@.days.len() == 7,
        ensures
            exists|w: int|
                0 <= w < 7 && sched_views(r@) == spec_freetime(self@.days[w], self@.config),
    {
        let today = sys::today_day_number();
        let w = weekday_of_day(today);
        proof {
            assert(self@.days[w as int] == self.days@[w as int]@);
        }
        self.days[w].get_freetime(&self.config)
    }

    /// The schedule of the day at index `n`: its free time with the day's
    /// dynamic tasks placed into the gaps, in their stored order, and one
    /// diagnostic for every task that found no room.
    pub fn get_schedule_with_dynamics_nth(&self, n: usize) -> (r: Result<
        (Vec<Schedule>, Vec<Diagnostic>),
        PlanError,
    >)
        requires
            self@.wf(),
        ensures
            n > 6 ==> (r matches Err(e) && e == (PlanError::DayOutOfRange { given: n })),
            n <= 6 ==> (r matches Ok(p) && sched_views(p.0@) == spec_schedule(self@, n as int).0
                && diag_views(p.1@) == spec_schedule(self@, n as int).1),
    {
        if n > 6 {
            return Err(PlanError::DayOutOfRange { given: n });
        }
        proof {
            assert(self@.days[n as int] == self.days@[n as int]@);
            assert(self@.days[n as int].wf());
            crate::day::lemma_freetime_wf(self@.days[n as int], self@.config);
        }
        let mut freetime = self.days[n].get_freetime(&self.config);
        let tasks = self.resolve_day_tasks(&self.days[n].dynamic_tasks);
        let ghost tvs = tasks@.map_values(|t: DynamicTask| t@);
        let ghost s0 = sched_views(freetime@);
        let mut diags: Vec<Diagnostic> = Vec::new();
        let m = tasks.len();
        let mut k: usize = 0;
        proof {
            assert(tvs.skip(0) =~= tvs);
            assert(diag_views(diags@) =~= Seq::<DiagnosticView>::empty());
            lemma_resolve_refs_wf(self@.days[n as int].dynamic_tasks, self@.dynamic_tasks);
            assert forall|j: int| 0 <= j < tvs.len() implies (#[trigger] tvs[j]).wf() by {
                assert(tvs[j] == resolve_refs(
                    self@.days[n as int].dynamic_tasks,
                    self@.dynamic_tasks,
                )[j]);
            }
        }
        while k < m
            invariant
                k <= m == tasks@.len(),
                tvs == tasks@.map_values(|t: DynamicTask| t@),
                forall|j: int| 0 <= j < tvs.len() ==> (#[trigger] tvs[j]).wf(),
                all_wf(sched_views(freetime@)),
                place_all(s0, Seq::empty(), tvs) == place_all(
                    sched_views(freetime@),
                    diag_views(diags@),
                    tvs.skip(k as int),
                ),
            decreases m - k,
        {
            let ghost cur_s = sched_views(freetime@);
            let ghost cur_d = diag_views(diags@);
            let ghost rest = tvs.skip(k as int);
            proof {
                assert(rest[0] == tvs[k as int]);
                assert(rest.skip(1) =~= tvs.skip(k as int + 1));
                assert(tvs[k as int] == tasks@[k as int]@);
                assert(tvs[k as int].wf());
            }
            let task = &tasks[k];
            let is_fixed = match task {
                DynamicTask::Fixed { .. } => true,
                DynamicTask::Flexible { .. } => false,
            };
            if is_fixed {
                let placed = place_fixed(&mut freetime, task);
                if !placed {
                    let ghost before = diag_views(diags@);
                    diags.push(Diagnostic::UnplacedFixed(task.duplicate()));
                    proof {
                        assert(diag_views(diags@) =~= before.push(
                            DiagnosticView::UnplacedFixed(tvs[k as int]),
                        ));
                    }
                }
            } else {
                let can_split = match task {
                    DynamicTask::Flexible { can_split, .. } => *can_split,
                    DynamicTask::Fixed { .. } => false,
                };
                let length = match task {
                    DynamicTask::Flexible { length, .. } => *length,
                    DynamicTask::Fixed { .. } => 0,
                };
                if can_split {
                    let available = total_free_of(&freetime);
                    if available >= length as u128 {
                        place_split(&mut freetime, task);
                    } else {
                        let ghost before = diag_views(diags@);
                        diags.push(
                            Diagnostic::InsufficientFreeTime(task.duplicate(), available),
                        );
                        proof {
                            assert(diag_views(diags@) =~= before.push(
                                DiagnosticView::InsufficientFreeTime(
                                    tvs[k as int],
                                    total_free(cur_s) as u128,
                                ),
                            ));
                        }
                    }
                } else {
                    let placed = place_whole(&mut freetime, task);
                    if !placed {
                        let ghost before = diag_views(diags@);
                        diags.push(Diagnostic::UnplacedFlexible(task.duplicate()));
                        proof {
                            assert(diag_views(diags@) =~= before.push(
                                DiagnosticView::UnplacedFlexible(tvs[k as int]),
                            ));
                        }
                    }
                }
            }
            proof {
                assert((sched_views(freetime@), diag_views(diags@)) == place_one(
                    cur_s,
                    cur_d,
                    tvs[k as int],
                ));
                assert(place_all(cur_s, cur_d, rest) == place_all(
                    place_one(cur_s, cur_d, rest[0]).0,
                    place_one(cur_s, cur_d, rest[0]).1,
                    rest.skip(1),
                ));
            }
            k = k + 1;
        }
        proof {
            assert(tvs.skip(m as int) =~= Seq::<DynamicTaskView>::empty());
            assert(place_all(
                sched_views(freetime@),
                diag_views(diags@),
                Seq::<DynamicTaskView>::empty(),
            ) == (sched_views(freetime@), diag_views(diags@)));
        }
        Ok((freetime, diags))
    }

    /// The schedule of today's day, with its dynamic tasks placed.
    pub fn get_schedule_with_dynamics(&self) -> (r: (Vec<Schedule>, Vec<Diagnostic>))
        requires
            self@.wf(),
        ensures
            exists|w: int|
                0 <= w < 7 && sched_views(r.0@) == spec_schedule(self@, w).0 && diag_views(r.1@)
                    == spec_schedule(self@, w).1,
    {
        let today = sys::today_day_number();
        let w = weekday_of_day(today);
        match self.get_schedule_with_dynamics_nth(w) {
            Ok(p) => p,
            Err(_) => {
                proof {
                    assert(false);
                }
                (Vec::new(), Vec::new())
            },
        }
    }
}

/// Every task the resolution yields is one of the master list's, so it is
/// well-formed when they are.
proof fn lemma_resolve_refs_wf(refs: Seq<u128>, ts: Seq<DynamicTaskView>)
    requires
        forall|i: int| 0 <= i < ts.len() ==> (#[trigger] ts[i]).wf(),
    ensures
        forall|i: int|
            0 <= i < resolve_refs(refs, ts).len() ==> (#[trigger] resolve_refs(refs, ts)[i]).wf(),
    decreases refs.len(),
{
    if refs.len() != 0 {
        lemma_resolve_refs_wf(refs.skip(1), ts);
        let out = resolve_refs(refs, ts);
        let f = find_by_id(ts, refs[0]);
        lemma_find_by_id(ts, refs[0]);
        assert forall|i: int| 0 <= i < out.len() implies (#[trigger] out[i]).wf() by {
            if f != -1 {
                if i == 0 {
                    assert(out[0] == ts[f]);
                } else {
                    assert(out[i] == resolve_refs(refs.skip(1), ts)[i - 1]);
                }
            } else {
                assert(out[i] == resolve_refs(refs.skip(1), ts)[i]);
            }
        }
    }
}

} // verus!
