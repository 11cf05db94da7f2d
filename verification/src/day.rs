use vstd::prelude::*;

use crate::errors::PlanError;
use crate::schedule::Schedule;
use crate::schedule::ScheduleView;
use crate::schedule::all_wf;
use crate::schedule::sched_views;
use crate::sys;
use crate::task::StaticTask;
use crate::task::StaticTaskView;
use crate::time::Config;
use crate::time::TimeRange;

verus! {

/// The mathematical value of a [`Day`].
#[verifier::ext_equal]
pub ghost struct DayView {
    pub static_tasks: Seq<StaticTaskView>,
    pub static_done: Seq<(u128, i64)>,
    pub dynamic_tasks: Seq<u128>,
}

/// The static tasks are ordered by the start of their windows.
pub open spec fn sorted_by_start(ts: Seq<StaticTaskView>) -> bool {
    forall|i: int, j: int|
        #![trigger ts[i], ts[j]]
        0 <= i <= j < ts.len() ==> ts[i].time.start <= ts[j].time.start
}

impl DayView {
    /// Every window is well-formed and the list is sorted by start time.
    pub open spec fn wf(self) -> bool {
        &&& forall|i: int| 0 <= i < self.static_tasks.len() ==> (#[trigger] self.static_tasks[i]).wf()
        &&& sorted_by_start(self.static_tasks)
    }
}

/// One weekday's plan: its fixed tasks sorted by start time, the completion
/// log of fixed tasks as pairs of task identifier and completion timestamp,
/// and the identifiers of the dynamic tasks assigned to this day's upcoming
/// date.
#[derive(Debug, PartialEq, Eq)]
pub struct Day {
    pub static_tasks: Vec<StaticTask>,
    pub static_done: Vec<(u128, i64)>,
    pub dynamic_tasks: Vec<u128>,
}

impl View for Day {
    type V = DayView;

    open spec fn view(&self) -> DayView {
        DayView {
            static_tasks: self.static_tasks@.map_values(|t: StaticTask| t@),
            static_done: self.static_done@,
            dynamic_tasks: self.dynamic_tasks@,
        }
    }
}

/// Whether the completion log holds the given task identifier.
pub open spec fn done_has(done: Seq<(u128, i64)>, id: u128) -> bool {
    exists|j: int| 0 <= j < done.len() && done[j].0 == id
}

/// The static tasks not marked done in the completion log, in order.
pub open spec fn keep_undone(ts: Seq<StaticTaskView>, done: Seq<(u128, i64)>) -> Seq<
    StaticTaskView,
>
    decreases ts.len(),
{
    if ts.len() == 0 {
        Seq::empty()
    } else {
        keep_undone(ts.drop_last(), done) + (if done_has(done, ts.last().task.id) {
            Seq::empty()
        } else {
            seq![ts.last()]
        })
    }
}

/// Walks the remaining tasks from `cursor`: a free gap up to the next
/// task's start wherever time is strictly left, each task itself, and a
/// trailing free gap up to `bed`. With no tasks at all the whole window
/// from `cursor` to `bed` is one free entry. Gaps are emitted only where
/// the cursor lies strictly before the next boundary, so malformed
/// (overlapping or out-of-window) inputs degrade to fewer gaps rather than
/// inverted ranges.
pub open spec fn freetime_walk(ts: Seq<StaticTaskView>, cursor: u32, bed: u32) -> Seq<ScheduleView>
    decreases ts.len(),
{
    if ts.len() == 0 {
        if cursor < bed {
            seq![ScheduleView::Free(TimeRange { start: cursor, end: bed })]
        } else {
            Seq::empty()
        }
    } else {
        (if cursor < ts[0].time.start {
            seq![ScheduleView::Free(TimeRange { start: cursor, end: ts[0].time.start })]
        } else {
            Seq::empty()
        }) + seq![ScheduleView::Static(ts[0])] + freetime_walk(ts.skip(1), ts[0].time.end, bed)
    }
}

/// The whole free-time computation of a day: completed tasks filtered out,
/// then the walk over the schedulable window.
pub open spec fn spec_freetime(day: DayView, config: Config) -> Seq<ScheduleView> {
    freetime_walk(keep_undone(day.static_tasks, day.static_done), config.wake_time, config.bed_time)
}

/// The position where a new static task is inserted: after every task
/// whose window starts no later than the new one's.
pub open spec fn static_insert_pos(ts: Seq<StaticTaskView>, t: StaticTaskView) -> int
    decreases ts.len(),
{
    if ts.len() == 0 {
        0
    } else if ts[0].time.start > t.time.start {
        0
    } else {
        1 + static_insert_pos(ts.skip(1), t)
    }
}

proof fn lemma_static_insert_pos(ts: Seq<StaticTaskView>, t: StaticTaskView)
    ensures
        0 <= static_insert_pos(ts, t) <= ts.len(),
        forall|j: int|
            0 <= j < static_insert_pos(ts, t) ==> (#[trigger] ts[j]).time.start <= t.time.start,
        static_insert_pos(ts, t) < ts.len() ==> ts[static_insert_pos(ts, t)].time.start
            > t.time.start,
    decreases ts.len(),
{
    if ts.len() != 0 && ts[0].time.start <= t.time.start {
        lemma_static_insert_pos(ts.skip(1), t);
        assert forall|j: int|
            0 <= j < static_insert_pos(ts, t) implies (#[trigger] ts[j]).time.start
            <= t.time.start by {
            if j > 0 {
                assert(ts.skip(1)[j - 1] == ts[j]);
            }
        }
        if static_insert_pos(ts, t) < ts.len() {
            assert(ts.skip(1)[static_insert_pos(ts.skip(1), t)] == ts[static_insert_pos(ts, t)]);
        }
    }
}

/// No window of one task reaches into a later task's window.
pub open spec fn separated(ts: Seq<StaticTaskView>) -> bool {
    forall|i: int, j: int|
        #![trigger ts[i], ts[j]]
        0 <= i < j < ts.len() ==> ts[i].time.end <= ts[j].time.start
}

/// Every task's window lies inside the schedulable window.
pub open spec fn within_window(ts: Seq<StaticTaskView>, config: Config) -> bool {
    forall|i: int|
        0 <= i < ts.len() ==> config.wake_time <= (#[trigger] ts[i]).time.start && ts[i].time.end
            <= config.bed_time
}

/// The fixed task of a `Static` entry; meaningful only for that variant.
pub open spec fn static_of(e: ScheduleView) -> StaticTaskView {
    match e {
        ScheduleView::Static(t) => t,
        _ => StaticTaskView {
            task: crate::task::TaskView { id: 0, name: Seq::empty(), description: Seq::empty() },
            time: TimeRange { start: 0, end: 0 },
        },
    }
}

/// The range an entry occupies on the day: a task's window or a free gap.
pub open spec fn entry_range(e: ScheduleView) -> TimeRange {
    match e {
        ScheduleView::Static(t) => t.time,
        ScheduleView::Free(r) => r,
        _ => TimeRange { start: 0, end: 0 },
    }
}

/// The entries' ranges are non-empty and tile `[from, to)` exactly, each
/// starting where the one before ended: no gaps and no overlaps.
pub open spec fn chain_covers(s: Seq<ScheduleView>, from: int, to: int) -> bool
    decreases s.len(),
{
    if s.len() == 0 {
        from == to
    } else {
        let r = entry_range(s[0]);
        r.start == from && r.start < r.end && chain_covers(s.skip(1), r.end as int, to)
    }
}

/// No two free entries stand next to each other: gaps are maximal.
pub open spec fn no_adjacent_free(s: Seq<ScheduleView>) -> bool {
    forall|i: int|
        #![trigger s[i]]
        0 <= i && i + 1 < s.len() ==> !(s[i] is Free && s[i + 1] is Free)
}

/// Every entry is a task or a gap.
pub open spec fn statics_or_free(s: Seq<ScheduleView>) -> bool {
    forall|i: int| 0 <= i < s.len() ==> (#[trigger] s[i]) is Static || s[i] is Free
}

/// Filtering the completion log away keeps only tasks of the original
/// list, none of them marked done, and preserves order and separation.
proof fn lemma_keep_undone_props(ts: Seq<StaticTaskView>, done: Seq<(u128, i64)>)
    ensures
        forall|i: int|
            0 <= i < keep_undone(ts, done).len() ==> ts.contains(
                #[trigger] keep_undone(ts, done)[i],
            ) && !done_has(done, keep_undone(ts, done)[i].task.id),
        separated(ts) ==> separated(keep_undone(ts, done)),
        sorted_by_start(ts) ==> sorted_by_start(keep_undone(ts, done)),
    decreases ts.len(),
{
    if ts.len() == 0 {
    } else {
        let head = ts.drop_last();
        lemma_keep_undone_props(head, done);
        let kh = keep_undone(head, done);
        let k = keep_undone(ts, done);
        assert(forall|i: int| 0 <= i < head.len() ==> head[i] == ts[i]);
        if separated(ts) {
            assert forall|i: int, j: int|
                #![trigger head[i], head[j]]
                0 <= i < j < head.len() implies head[i].time.end <= head[j].time.start by {
                assert(ts[i].time.end <= ts[j].time.start);
            }
        }
        if sorted_by_start(ts) {
            assert forall|i: int, j: int|
                #![trigger head[i], head[j]]
                0 <= i <= j < head.len() implies head[i].time.start <= head[j].time.start by {
                assert(ts[i].time.start <= ts[j].time.start);
            }
        }
        assert forall|i: int|
            0 <= i < k.len() implies ts.contains(#[trigger] k[i]) && !done_has(
            done,
            k[i].task.id,
        ) by {
            if i < kh.len() {
                assert(k[i] == kh[i]);
                assert(head.contains(kh[i]));
                let p = choose|p: int| 0 <= p < head.len() && head[p] == kh[i];
                assert(ts[p] == kh[i]);
            } else {
                assert(k[i] == ts.last());
                assert(ts[ts.len() - 1] == ts.last());
            }
        }
        if separated(ts) {
            assert forall|i: int, j: int|
                #![trigger k[i], k[j]]
                0 <= i < j < k.len() implies k[i].time.end <= k[j].time.start by {
                if j < kh.len() {
                    assert(k[i] == kh[i] && k[j] == kh[j]);
                } else {
                    assert(k[j] == ts.last());
                    assert(k[i] == kh[i]);
                    assert(head.contains(kh[i]));
                    let p = choose|p: int| 0 <= p < head.len() && head[p] == kh[i];
                    assert(ts[p] == k[i]);
                    assert(ts[p].time.end <= ts[ts.len() - 1].time.start);
                }
            }
        }
        if sorted_by_start(ts) {
            assert forall|i: int, j: int|
                #![trigger k[i], k[j]]
                0 <= i <= j < k.len() implies k[i].time.start <= k[j].time.start by {
                if j < kh.len() {
                    assert(k[i] == kh[i] && k[j] == kh[j]);
                } else if i < kh.len() {
                    assert(k[j] == ts.last());
                    assert(k[i] == kh[i]);
                    assert(head.contains(kh[i]));
                    let p = choose|p: int| 0 <= p < head.len() && head[p] == kh[i];
                    assert(ts[p] == k[i]);
                    assert(ts[p].time.start <= ts[ts.len() - 1].time.start);
                }
            }
        }
    }
}

/// The walk over separated, in-window tasks tiles `[cursor, bed)` exactly
/// with task and gap entries, no two gaps adjacent.
proof fn lemma_walk_covers(ts: Seq<StaticTaskView>, cursor: u32, bed: u32)
    requires
        cursor <= bed,
        forall|i: int| 0 <= i < ts.len() ==> (#[trigger] ts[i]).wf(),
        separated(ts),
        forall|i: int|
            0 <= i < ts.len() ==> cursor <= (#[trigger] ts[i]).time.start && ts[i].time.end <= bed,
    ensures
        chain_covers(freetime_walk(ts, cursor, bed), cursor as int, bed as int),
        no_adjacent_free(freetime_walk(ts, cursor, bed)),
        statics_or_free(freetime_walk(ts, cursor, bed)),
    decreases ts.len(),
{
    let out = freetime_walk(ts, cursor, bed);
    if ts.len() == 0 {
        if cursor < bed {
            assert(out.skip(1) =~= Seq::<ScheduleView>::empty());
            assert(chain_covers(out.skip(1), bed as int, bed as int));
            assert(chain_covers(out, cursor as int, bed as int));
        }
    } else {
        let s0 = ts[0];
        assert(s0.wf());
        let tail = ts.skip(1);
        assert forall|i: int| 0 <= i < tail.len() implies (#[trigger] tail[i]).wf() && s0.time.end
            <= tail[i].time.start && tail[i].time.end <= bed by {
            assert(tail[i] == ts[i + 1]);
            assert(ts[0].time.end <= ts[i + 1].time.start);
        }
        assert forall|i: int, j: int|
            #![trigger tail[i], tail[j]]
            0 <= i < j < tail.len() implies tail[i].time.end <= tail[j].time.start by {
            assert(tail[i] == ts[i + 1] && tail[j] == ts[j + 1]);
            assert(ts[i + 1].time.end <= ts[j + 1].time.start);
        }
        lemma_walk_covers(tail, s0.time.end, bed);
        let rest = freetime_walk(tail, s0.time.end, bed);
        if cursor < s0.time.start {
            let gap = ScheduleView::Free(TimeRange { start: cursor, end: s0.time.start });
            assert(out =~= seq![gap, ScheduleView::Static(s0)] + rest);
            assert(out.skip(1) =~= seq![ScheduleView::Static(s0)] + rest);
            assert(out.skip(1).skip(1) =~= rest);
            assert(out.skip(1)[0] == ScheduleView::Static(s0));
            assert(chain_covers(out.skip(1), s0.time.start as int, bed as int));
            assert(chain_covers(out, cursor as int, bed as int));
            assert forall|i: int|
                0 <= i && i + 1 < out.len() implies !((#[trigger] out[i]) is Free && out[i
                + 1] is Free) by {
                if i >= 2 {
                    assert(out[i] == rest[i - 2]);
                    assert(out[i + 1] == rest[i - 1]);
                } else if i == 1 {
                    assert(out[1] == ScheduleView::Static(s0));
                }
            }
            assert forall|i: int| 0 <= i < out.len() implies (#[trigger] out[i]) is Static || out[i] is Free by {
                if i >= 2 {
                    assert(out[i] == rest[i - 2]);
                }
            }
        } else {
            assert(out =~= seq![ScheduleView::Static(s0)] + rest);
            assert(out.skip(1) =~= rest);
            assert(chain_covers(out, cursor as int, bed as int));
            assert forall|i: int|
                0 <= i && i + 1 < out.len() implies !((#[trigger] out[i]) is Free && out[i
                + 1] is Free) by {
                if i >= 1 {
                    assert(out[i] == rest[i - 1]);
                    assert(out[i + 1] == rest[i]);
                }
            }
            assert forall|i: int| 0 <= i < out.len() implies (#[trigger] out[i]) is Static || out[i] is Free by {
                if i >= 1 {
                    assert(out[i] == rest[i - 1]);
                }
            }
        }
    }
}

/// The tasks of the `Static` entries, in order.
pub open spec fn statics_of(s: Seq<ScheduleView>) -> Seq<StaticTaskView>
    decreases s.len(),
{
    if s.len() == 0 {
        Seq::empty()
    } else {
        (if s[0] is Static {
            seq![static_of(s[0])]
        } else {
            Seq::empty()
        }) + statics_of(s.skip(1))
    }
}

/// The task entries of the walk are exactly the walked tasks, in order:
/// none is lost, none is invented, none is reordered.
pub proof fn lemma_walk_statics_exact(ts: Seq<StaticTaskView>, cursor: u32, bed: u32)
    ensures
        statics_of(freetime_walk(ts, cursor, bed)) == ts,
    decreases ts.len(),
{
    let out = freetime_walk(ts, cursor, bed);
    if ts.len() == 0 {
        if cursor < bed {
            assert(out.skip(1) =~= Seq::<ScheduleView>::empty());
            assert(statics_of(Seq::<ScheduleView>::empty()) == Seq::<StaticTaskView>::empty());
            assert(statics_of(out) =~= ts);
        } else {
            assert(statics_of(out) =~= ts);
        }
    } else {
        lemma_walk_statics_exact(ts.skip(1), ts[0].time.end, bed);
        let rest = freetime_walk(ts.skip(1), ts[0].time.end, bed);
        if cursor < ts[0].time.start {
            let gap = ScheduleView::Free(TimeRange { start: cursor, end: ts[0].time.start });
            assert(out =~= seq![gap, ScheduleView::Static(ts[0])] + rest);
            assert(out.skip(1) =~= seq![ScheduleView::Static(ts[0])] + rest);
            assert(out.skip(1).skip(1) =~= rest);
            assert(statics_of(out.skip(1)) == seq![ts[0]] + statics_of(rest));
            assert(out[0] == gap);
            assert(statics_of(out) == Seq::<StaticTaskView>::empty() + statics_of(out.skip(1)));
            assert(statics_of(out) =~= ts);
        } else {
            assert(out =~= seq![ScheduleView::Static(ts[0])] + rest);
            assert(out.skip(1) =~= rest);
            assert(statics_of(out) =~= ts);
        }
    }
}

/// The task entries of a day's free-time sequence are exactly its
/// uncompleted fixed tasks, in their stored order.
pub proof fn lemma_freetime_statics(day: DayView, config: Config)
    ensures
        statics_of(spec_freetime(day, config)) == keep_undone(day.static_tasks, day.static_done),
{
    lemma_walk_statics_exact(
        keep_undone(day.static_tasks, day.static_done),
        config.wake_time,
        config.bed_time,
    );
}

/// Every task entry of the walk is one of the walked tasks.
proof fn lemma_walk_statics(ts: Seq<StaticTaskView>, cursor: u32, bed: u32)
    ensures
        forall|i: int|
            0 <= i < freetime_walk(ts, cursor, bed).len() && (#[trigger] freetime_walk(
                ts,
                cursor,
                bed,
            )[i]) is Static ==> ts.contains(static_of(freetime_walk(ts, cursor, bed)[i])),
    decreases ts.len(),
{
    let out = freetime_walk(ts, cursor, bed);
    if ts.len() == 0 {
    } else {
        let tail = ts.skip(1);
        lemma_walk_statics(tail, ts[0].time.end, bed);
        let rest = freetime_walk(tail, ts[0].time.end, bed);
        let gl: int = if cursor < ts[0].time.start {
            1
        } else {
            0
        };
        assert forall|i: int|
            0 <= i < out.len() && (#[trigger] out[i]) is Static implies ts.contains(
            static_of(out[i]),
        ) by {
            if i < gl {
                assert(out[i] is Free);
            } else if i == gl {
                assert(out[i] == ScheduleView::Static(ts[0]));
                assert(ts[0] == ts[0 as int]);
            } else {
                assert(out[i] == rest[i - gl - 1]);
                assert(tail.contains(static_of(rest[i - gl - 1])));
                let p = choose|p: int| 0 <= p < tail.len() && tail[p] == static_of(out[i]);
                assert(ts[p + 1] == tail[p]);
            }
        }
    }
}

/// The walk emits only entries with well-formed windows when the walked
/// tasks have them and bedtime lies within the day.
proof fn lemma_walk_wf(ts: Seq<StaticTaskView>, cursor: u32, bed: u32)
    requires
        bed <= 86400,
        forall|i: int| 0 <= i < ts.len() ==> (#[trigger] ts[i]).wf(),
    ensures
        all_wf(freetime_walk(ts, cursor, bed)),
    decreases ts.len(),
{
    let out = freetime_walk(ts, cursor, bed);
    if ts.len() == 0 {
        assert forall|i: int| 0 <= i < out.len() implies (#[trigger] out[i]).wf() by {}
    } else {
        let tail = ts.skip(1);
        assert forall|i: int| 0 <= i < tail.len() implies (#[trigger] tail[i]).wf() by {
            assert(tail[i] == ts[i + 1]);
        }
        lemma_walk_wf(tail, ts[0].time.end, bed);
        let rest = freetime_walk(tail, ts[0].time.end, bed);
        let gl: int = if cursor < ts[0].time.start {
            1
        } else {
            0
        };
        assert(ts[0].wf());
        assert forall|i: int| 0 <= i < out.len() implies (#[trigger] out[i]).wf() by {
            if i < gl {
                assert(out[i] == ScheduleView::Free(
                    TimeRange { start: cursor, end: ts[0].time.start },
                ));
            } else if i == gl {
                assert(out[i] == ScheduleView::Static(ts[0]));
            } else {
                assert(out[i] == rest[i - gl - 1]);
                assert(rest[i - gl - 1].wf());
            }
        }
    }
}

/// A day's free-time sequence carries only well-formed windows.
pub proof fn lemma_freetime_wf(day: DayView, config: Config)
    requires
        day.wf(),
        config.wf(),
    ensures
        all_wf(spec_freetime(day, config)),
{
    let k = keep_undone(day.static_tasks, day.static_done);
    lemma_keep_undone_props(day.static_tasks, day.static_done);
    assert forall|i: int| 0 <= i < k.len() implies (#[trigger] k[i]).wf() by {
        assert(day.static_tasks.contains(k[i]));
        let p = choose|p: int| 0 <= p < day.static_tasks.len() && day.static_tasks[p] == k[i];
        assert(day.static_tasks[p].wf());
    }
    lemma_walk_wf(k, config.wake_time, config.bed_time);
}

/// With its static tasks sorted, pairwise separated and inside the
/// schedulable window, a day's free-time sequence consists of task and gap
/// entries whose ranges tile `[wake_time, bed_time)` exactly — no gaps, no
/// overlaps — and no two gap entries stand next to each other.
pub proof fn lemma_freetime_covers(day: DayView, config: Config)
    requires
        config.wf(),
        day.wf(),
        separated(day.static_tasks),
        within_window(day.static_tasks, config),
    ensures
        chain_covers(
            spec_freetime(day, config),
            config.wake_time as int,
            config.bed_time as int,
        ),
        no_adjacent_free(spec_freetime(day, config)),
        statics_or_free(spec_freetime(day, config)),
{
    let ts = day.static_tasks;
    let done = day.static_done;
    let k = keep_undone(ts, done);
    lemma_keep_undone_props(ts, done);
    assert forall|i: int|
        0 <= i < k.len() implies (#[trigger] k[i]).wf() && config.wake_time <= k[i].time.start
        && k[i].time.end <= config.bed_time by {
        assert(ts.contains(k[i]));
        let p = choose|p: int| 0 <= p < ts.len() && ts[p] == k[i];
        assert(ts[p].wf());
        assert(config.wake_time <= ts[p].time.start && ts[p].time.end <= config.bed_time);
    }
    lemma_walk_covers(k, config.wake_time, config.bed_time);
}

/// A task marked done in the completion log never appears as a `Static`
/// entry of the day's free-time sequence: by the cover property its former
/// window lies inside the surrounding free entries instead.
pub proof fn lemma_completed_not_in_freetime(day: DayView, config: Config, id: u128)
    requires
        done_has(day.static_done, id),
    ensures
        forall|i: int|
            0 <= i < spec_freetime(day, config).len() ==> !((#[trigger] spec_freetime(
                day,
                config,
            )[i]) is Static && static_of(spec_freetime(day, config)[i]).task.id == id),
{
    let k = keep_undone(day.static_tasks, day.static_done);
    let out = spec_freetime(day, config);
    lemma_keep_undone_props(day.static_tasks, day.static_done);
    lemma_walk_statics(k, config.wake_time, config.bed_time);
    assert forall|i: int|
        0 <= i < out.len() implies !((#[trigger] out[i]) is Static && static_of(out[i]).task.id
        == id) by {
        if out[i] is Static {
            assert(k.contains(static_of(out[i])));
            let p = choose|p: int| 0 <= p < k.len() && k[p] == static_of(out[i]);
            assert(!done_has(day.static_done, k[p].task.id));
        }
    }
}

impl Day {
    /// A day with no tasks and an empty completion log.
    pub fn new() -> (r: Self)
        ensures
            r@ == (DayView {
                static_tasks: Seq::<StaticTaskView>::empty(),
                static_done: Seq::<(u128, i64)>::empty(),
                dynamic_tasks: Seq::<u128>::empty(),
            }),
            r@.wf(),
    {
        let r = Day { static_tasks: Vec::new(), static_done: Vec::new(), dynamic_tasks: Vec::new() };
        proof {
            assert(r@.static_tasks =~= Seq::<StaticTaskView>::empty());
        }
        r
    }

    /// Adds a fixed task, keeping the list sorted by start time; among
    /// tasks starting together the new one comes last.
    pub fn add_static(&mut self, task: StaticTask)
        ensures
            final(self)@.static_tasks == old(self)@.static_tasks.insert(
                static_insert_pos(old(self)@.static_tasks, task@),
                task@,
            ),
            final(self)@.static_done == old(self)@.static_done,
            final(self)@.dynamic_tasks == old(self)@.dynamic_tasks,
            old(self)@.wf() && task@.wf() ==> final(self)@.wf(),
    {
        let ghost ts = self@.static_tasks;
        proof {
            lemma_static_insert_pos(ts, task@);
        }
        let n = self.static_tasks.len();
        let mut k: usize = 0;
        while k < n && self.static_tasks[k].time.start <= task.time.start
            invariant
                k <= n == self.static_tasks@.len(),
                *self == *old(self),
                ts == self@.static_tasks,
                k <= static_insert_pos(ts, task@),
            decreases n - k,
        {
            proof {
                lemma_static_insert_pos(ts, task@);
                assert(ts[k as int] == self.static_tasks@[k as int]@);
                if static_insert_pos(ts, task@) == k {
                    assert(false);
                }
            }
            k = k + 1;
        }
        proof {
            lemma_static_insert_pos(ts, task@);
            let pos = static_insert_pos(ts, task@);
            if k < n {
                assert(ts[k as int] == self.static_tasks@[k as int]@);
                if pos > k {
                    assert(ts[k as int].time.start <= task@.time.start);
                }
            }
            assert(pos == k);
        }
        self.static_tasks.insert(k, task);
        proof {
            let pos = k as int;
            assert(final(self)@.static_tasks =~= ts.insert(pos, task@));
            ts.insert_ensures(pos, task@);
            let new_ts = ts.insert(pos, task@);
            if old(self)@.wf() && task@.wf() {
                assert forall|i: int| 0 <= i < new_ts.len() implies (#[trigger] new_ts[i]).wf() by {
                    if i < pos {
                        assert(new_ts[i] == ts[i]);
                    } else if i == pos {
                        assert(new_ts[i] == task@);
                    } else {
                        assert(new_ts[i] == ts[i - 1]);
                    }
                }
                lemma_static_insert_pos(ts, task@);
                assert forall|i: int, j: int|
                    #![trigger new_ts[i], new_ts[j]]
                    0 <= i <= j < new_ts.len() implies new_ts[i].time.start
                    <= new_ts[j].time.start by {
                    if i < pos {
                        assert(new_ts[i] == ts[i]);
                    } else if i == pos {
                        assert(new_ts[i] == task@);
                    } else {
                        assert(new_ts[i] == ts[i - 1]);
                    }
                    if j < pos {
                        assert(new_ts[j] == ts[j]);
                    } else if j == pos {
                        assert(new_ts[j] == task@);
                    } else {
                        assert(new_ts[j] == ts[j - 1]);
                    }
                }
            }
        }
    }

    /// Whether the completion log holds the given task identifier.
    fn has_done(&self, id: u128) -> (r: bool)
        ensures
            r == done_has(self@.static_done, id),
    {
        let n = self.static_done.len();
        let mut i: usize = 0;
        while i < n
            invariant
                i <= n == self@.static_done.len(),
                forall|j: int| 0 <= j < i ==> (#[trigger] self@.static_done[j]).0 != id,
            decreases n - i,
        {
            if self.static_done[i].0 == id {
                return true;
            }
            i = i + 1;
        }
        false
    }

    /// Logs the fixed task at `task` as completed at timestamp `now`. The
    /// task itself stays: it recurs weekly, only this occurrence is done.
    pub fn complete_static_at(&mut self, task: usize, now: i64) -> (r: Result<(), PlanError>)
        ensures
            task < old(self)@.static_tasks.len() ==> r == Ok::<(), PlanError>(())
                && final(self)@.static_done == old(self)@.static_done.push(
                (old(self)@.static_tasks[task as int].task.id, now),
            ),
            task >= old(self)@.static_tasks.len() ==> r == Err::<(), PlanError>(
                PlanError::NoSuchStaticTask { index: task },
            ) && *final(self) == *old(self),
            final(self)@.static_tasks == old(self)@.static_tasks,
            final(self)@.dynamic_tasks == old(self)@.dynamic_tasks,
    {
        if task < self.static_tasks.len() {
            let id = self.static_tasks[task].task.id;
            self.static_done.push((id, now));
            Ok(())
        } else {
            Err(PlanError::NoSuchStaticTask { index: task })
        }
    }

    /// Logs the fixed task at `task` as completed now, reading the clock.
    /// The task list itself is unchanged; on a bad index nothing changes.
    pub fn complete_static(&mut self, task: usize) -> (r: Result<(), PlanError>)
        ensures
            final(self)@.static_tasks == old(self)@.static_tasks,
            final(self)@.dynamic_tasks == old(self)@.dynamic_tasks,
            task < old(self)@.static_tasks.len() ==> r == Ok::<(), PlanError>(())
                && final(self)@.static_done.len() == old(self)@.static_done.len() + 1
                && final(self)@.static_done.drop_last() == old(self)@.static_done
                && final(self)@.static_done.last().0 == old(
                self,
            )@.static_tasks[task as int].task.id,
            task >= old(self)@.static_tasks.len() ==> r == Err::<(), PlanError>(
                PlanError::NoSuchStaticTask { index: task },
            ) && *final(self) == *old(self),
    {
        let now = sys::now_timestamp();
        let r = self.complete_static_at(task, now);
        proof {
            if task < old(self)@.static_tasks.len() {
                assert(final(self)@.static_done.drop_last() =~= old(self)@.static_done);
            }
        }
        r
    }

    /// The day's schedule before dynamic placement: the uncompleted fixed
    /// tasks in order, with the free gaps they leave within the
    /// schedulable window, a completed task's slot counting as free time.
    pub fn get_freetime(&self, config: &Config) -> (r: Vec<Schedule>)
        ensures
            sched_views(r@) == spec_freetime(self@, *config),
    {
        let ghost all = self@.static_tasks;
        let ghost done = self@.static_done;
        let n = self.static_tasks.len();
        let mut undone: Vec<StaticTask> = Vec::new();
        let mut i: usize = 0;
        proof {
            assert(all.take(0) =~= Seq::<StaticTaskView>::empty());
        }
        while i < n
            invariant
                i <= n == self.static_tasks@.len(),
                all == self@.static_tasks,
                done == self@.static_done,
                undone@.map_values(|t: StaticTask| t@) == keep_undone(all.take(i as int), done),
            decreases n - i,
        {
            let ghost prev = undone@.map_values(|t: StaticTask| t@);
            proof {
                assert(all.take(i + 1).drop_last() =~= all.take(i as int));
                assert(all.take(i + 1).last() == all[i as int]);
                assert(all[i as int] == self.static_tasks@[i as int]@);
            }
            let t = &self.static_tasks[i];
            if !self.has_done(t.task.id) {
                undone.push(t.duplicate());
                proof {
                    assert(undone@.map_values(|t: StaticTask| t@) =~= prev + seq![all[i as int]]);
                }
            } else {
                proof {
                    assert(keep_undone(all.take(i + 1), done) =~= prev);
                }
            }
            i = i + 1;
        }
        proof {
            assert(all.take(n as int) =~= all);
        }
        let ghost uts = keep_undone(all, done);
        let m = undone.len();
        let mut out: Vec<Schedule> = Vec::new();
        let mut cursor: u32 = config.wake_time;
        let mut k: usize = 0;
        proof {
            assert(uts.skip(0) =~= uts);
            assert(sched_views(out@) =~= Seq::<ScheduleView>::empty());
            assert(Seq::<ScheduleView>::empty() + freetime_walk(uts, cursor, config.bed_time)
                =~= freetime_walk(uts, config.wake_time, config.bed_time));
        }
        while k < m
            invariant
                k <= m == undone@.len(),
                uts == undone@.map_values(|t: StaticTask| t@),
                sched_views(out@) + freetime_walk(uts.skip(k as int), cursor, config.bed_time)
                    == freetime_walk(uts, config.wake_time, config.bed_time),
            decreases m - k,
        {
            let ghost before = sched_views(out@);
            let ghost rest = uts.skip(k as int);
            proof {
                assert(rest.len() > 0);
                assert(rest[0] == uts[k as int]);
                assert(rest.skip(1) =~= uts.skip(k + 1));
                assert(uts[k as int] == undone@[k as int]@);
            }
            let t = &undone[k];
            if cursor < t.time.start {
                out.push(Schedule::Free(TimeRange { start: cursor, end: t.time.start }));
            }
            out.push(Schedule::Static(t.duplicate()));
            proof {
                let gap: Seq<ScheduleView> = if cursor < uts[k as int].time.start {
                    seq![
                        ScheduleView::Free(
                            TimeRange { start: cursor, end: uts[k as int].time.start },
                        ),
                    ]
                } else {
                    Seq::empty()
                };
                assert(sched_views(out@) =~= before + gap + seq![
                    ScheduleView::Static(uts[k as int]),
                ]);
                assert(freetime_walk(rest, cursor, config.bed_time) == gap + seq![
                    ScheduleView::Static(uts[k as int]),
                ] + freetime_walk(uts.skip(k + 1), uts[k as int].time.end, config.bed_time));
                assert(sched_views(out@) + freetime_walk(
                    uts.skip(k + 1),
                    uts[k as int].time.end,
                    config.bed_time,
                ) =~= before + freetime_walk(rest, cursor, config.bed_time));
            }
            cursor = t.time.end;
            k = k + 1;
        }
        proof {
            assert(uts.skip(m as int) =~= Seq::<StaticTaskView>::empty());
        }
        let ghost before = sched_views(out@);
        if cursor < config.bed_time {
            out.push(Schedule::Free(TimeRange { start: cursor, end: config.bed_time }));
            proof {
                assert(sched_views(out@) =~= before + seq![
                    ScheduleView::Free(TimeRange { start: cursor, end: config.bed_time }),
                ]);
            }
        } else {
            proof {
                assert(before + freetime_walk(
                    Seq::<StaticTaskView>::empty(),
                    cursor,
                    config.bed_time,
                ) =~= before);
            }
        }
        out
    }
}

} // verus!
