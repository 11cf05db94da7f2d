use vstd::prelude::*;

use crate::task::DynamicTask;
use crate::task::DynamicTaskView;
use crate::task::StaticTask;
use crate::task::StaticTaskView;
use crate::task::spec_fixed_split;
use crate::time::TimeRange;

verus! {

/// The mathematical value of a [`Schedule`] entry.
#[verifier::ext_equal]
pub ghost enum ScheduleView {
    Static(StaticTaskView),
    DynamicTask(DynamicTaskView),
    DynamicPart(DynamicTaskView),
    Free(TimeRange),
}

/// One entry of a day's computed schedule: an uncompleted fixed task, a
/// placed dynamic task, one fragment of a split flexible task, or a free
/// gap.
#[derive(Debug, PartialEq, Eq)]
pub enum Schedule {
    Static(StaticTask),
    DynamicTask(DynamicTask),
    DynamicPart(DynamicTask),
    Free(TimeRange),
}

impl View for Schedule {
    type V = ScheduleView;

    open spec fn view(&self) -> ScheduleView {
        match self {
            Schedule::Static(t) => ScheduleView::Static(t@),
            Schedule::DynamicTask(t) => ScheduleView::DynamicTask(t@),
            Schedule::DynamicPart(t) => ScheduleView::DynamicPart(t@),
            Schedule::Free(r) => ScheduleView::Free(*r),
        }
    }
}

impl Schedule {
    /// An identical copy.
    pub fn duplicate(&self) -> (r: Self)
        ensures
            r == *self,
    {
        match self {
            Schedule::Static(t) => Schedule::Static(t.duplicate()),
            Schedule::DynamicTask(t) => Schedule::DynamicTask(t.duplicate()),
            Schedule::DynamicPart(t) => Schedule::DynamicPart(t.duplicate()),
            Schedule::Free(r) => Schedule::Free(*r),
        }
    }
}

impl ScheduleView {
    /// Every window the entry carries is a well-formed range.
    pub open spec fn wf(self) -> bool {
        match self {
            ScheduleView::Static(t) => t.wf(),
            ScheduleView::DynamicTask(t) => t.wf(),
            ScheduleView::DynamicPart(t) => t.wf(),
            ScheduleView::Free(r) => r.wf(),
        }
    }

    /// The entry's contribution to the day's free time.
    pub open spec fn free_len(self) -> int {
        match self {
            ScheduleView::Free(r) => r.spec_duration(),
            _ => 0,
        }
    }

    /// The entry's contribution to placed fragment time: the length of a
    /// fragment of a split flexible task.
    pub open spec fn part_len(self) -> int {
        match self {
            ScheduleView::DynamicPart(DynamicTaskView::Flexible { length, .. }) => length as int,
            _ => 0,
        }
    }
}

/// The views of a schedule's entries.
pub open spec fn sched_views(s: Seq<Schedule>) -> Seq<ScheduleView> {
    s.map_values(|e: Schedule| e@)
}

/// Every entry's windows are well-formed ranges.
pub open spec fn all_wf(s: Seq<ScheduleView>) -> bool {
    forall|i: int| 0 <= i < s.len() ==> #[trigger] s[i].wf()
}

/// Total duration of the free gaps, in sequence order.
pub open spec fn total_free(s: Seq<ScheduleView>) -> int
    decreases s.len(),
{
    if s.len() == 0 {
        0
    } else {
        s[0].free_len() + total_free(s.skip(1))
    }
}

/// Total duration of the placed fragments of split flexible tasks.
pub open spec fn total_parts(s: Seq<ScheduleView>) -> int
    decreases s.len(),
{
    if s.len() == 0 {
        0
    } else {
        s[0].part_len() + total_parts(s.skip(1))
    }
}

pub proof fn lemma_total_free_append(a: Seq<ScheduleView>, b: Seq<ScheduleView>)
    ensures
        total_free(a + b) == total_free(a) + total_free(b),
    decreases a.len(),
{
    if a.len() == 0 {
        assert(a + b =~= b);
    } else {
        lemma_total_free_append(a.skip(1), b);
        assert((a + b).skip(1) =~= a.skip(1) + b);
    }
}

pub proof fn lemma_total_parts_append(a: Seq<ScheduleView>, b: Seq<ScheduleView>)
    ensures
        total_parts(a + b) == total_parts(a) + total_parts(b),
    decreases a.len(),
{
    if a.len() == 0 {
        assert(a + b =~= b);
    } else {
        lemma_total_parts_append(a.skip(1), b);
        assert((a + b).skip(1) =~= a.skip(1) + b);
    }
}

pub proof fn lemma_total_free_singleton(e: ScheduleView)
    ensures
        total_free(seq![e]) == e.free_len(),
{
    let s = seq![e];
    assert(s.len() == 1);
    assert(s[0] == e);
    assert(s.skip(1) =~= Seq::<ScheduleView>::empty());
    assert(total_free(s.skip(1)) == 0);
    assert(total_free(s) == s[0].free_len() + total_free(s.skip(1)));
}

pub proof fn lemma_total_parts_singleton(e: ScheduleView)
    ensures
        total_parts(seq![e]) == e.part_len(),
{
    let s = seq![e];
    assert(s.len() == 1);
    assert(s[0] == e);
    assert(s.skip(1) =~= Seq::<ScheduleView>::empty());
    assert(total_parts(s.skip(1)) == 0);
    assert(total_parts(s) == s[0].part_len() + total_parts(s.skip(1)));
}

/// The exact window a fixed dynamic task claims; meaningful only for the
/// `Fixed` variant.
pub open spec fn fixed_window(t: DynamicTaskView) -> TimeRange {
    match t {
        DynamicTaskView::Fixed { task, .. } => task.time,
        DynamicTaskView::Flexible { .. } => TimeRange { start: 0, end: 0 },
    }
}

/// The required length of a flexible dynamic task; meaningful only for the
/// `Flexible` variant.
pub open spec fn flex_length(t: DynamicTaskView) -> u32 {
    match t {
        DynamicTaskView::Flexible { length, .. } => length,
        DynamicTaskView::Fixed { .. } => 0,
    }
}

/// The range of a free entry; meaningful only for the `Free` variant.
pub open spec fn free_range(e: ScheduleView) -> TimeRange {
    match e {
        ScheduleView::Free(r) => r,
        _ => TimeRange { start: 0, end: 0 },
    }
}

/// Whether a free entry's range can hold the fixed task's whole window.
pub open spec fn is_fixed_slot(e: ScheduleView, t: DynamicTaskView) -> bool {
    e is Free && fixed_window(t).spec_subset(free_range(e))
}

/// What replaces a free entry of range `r` when the fixed task `t` is
/// placed into it: a residual gap before the window where the starts
/// differ, the task, and a residual gap after where the ends differ.
pub open spec fn fixed_pieces(r: TimeRange, t: DynamicTaskView) -> Seq<ScheduleView> {
    let w = fixed_window(t);
    (if r.start != w.start {
        seq![ScheduleView::Free(TimeRange { start: r.start, end: w.start })]
    } else {
        Seq::empty()
    }) + seq![ScheduleView::DynamicTask(t)] + (if w.end != r.end {
        seq![ScheduleView::Free(TimeRange { start: w.end, end: r.end })]
    } else {
        Seq::empty()
    })
}

/// Places a fixed dynamic task into the first free entry whose range holds
/// its whole window, or reports that no entry does.
pub open spec fn place_fixed_spec(s: Seq<ScheduleView>, t: DynamicTaskView) -> Option<
    Seq<ScheduleView>,
>
    decreases s.len(),
{
    if s.len() == 0 {
        None
    } else if is_fixed_slot(s[0], t) {
        Some(fixed_pieces(free_range(s[0]), t) + s.skip(1))
    } else {
        match place_fixed_spec(s.skip(1), t) {
            Some(rest) => Some(seq![s[0]] + rest),
            None => None,
        }
    }
}

/// When the first fitting free entry stands at `i`, fixed placement
/// replaces exactly that entry with its pieces.
pub proof fn lemma_place_fixed_at(s: Seq<ScheduleView>, t: DynamicTaskView, i: int)
    requires
        0 <= i < s.len(),
        is_fixed_slot(s[i], t),
        forall|j: int| 0 <= j < i ==> !is_fixed_slot(#[trigger] s[j], t),
    ensures
        place_fixed_spec(s, t) == Some(s.take(i) + fixed_pieces(free_range(s[i]), t) + s.skip(i + 1)),
    decreases i,
{
    if i == 0 {
        assert(s.take(0) + fixed_pieces(free_range(s[0]), t) + s.skip(1) =~= fixed_pieces(
            free_range(s[0]),
            t,
        ) + s.skip(1));
    } else {
        lemma_place_fixed_at(s.skip(1), t, i - 1);
        assert(s.skip(1).take(i - 1) =~= s.take(i).skip(1));
        assert(s.skip(1).skip(i) =~= s.skip(i + 1));
        assert(seq![s[0]] + (s.skip(1).take(i - 1) + fixed_pieces(free_range(s[i]), t) + s.skip(
            i + 1,
        )) =~= s.take(i) + fixed_pieces(free_range(s[i]), t) + s.skip(i + 1));
    }
}

/// When no free entry holds the window, fixed placement fails.
pub proof fn lemma_place_fixed_none(s: Seq<ScheduleView>, t: DynamicTaskView)
    requires
        forall|j: int| 0 <= j < s.len() ==> !is_fixed_slot(#[trigger] s[j], t),
    ensures
        place_fixed_spec(s, t) is None,
    decreases s.len(),
{
    if s.len() != 0 {
        lemma_place_fixed_none(s.skip(1), t);
    }
}

/// Whether a free entry's duration can hold a flexible task whole.
pub open spec fn is_whole_slot(e: ScheduleView, t: DynamicTaskView) -> bool {
    e is Free && free_range(e).spec_duration() >= flex_length(t)
}

/// What replaces a free entry of range `r` when the unsplit flexible task
/// `t` is placed at its start: the task, then a residual gap where the
/// entry was longer than required.
pub open spec fn whole_pieces(r: TimeRange, t: DynamicTaskView) -> Seq<ScheduleView> {
    let len = flex_length(t);
    seq![ScheduleView::DynamicTask(t)] + (if r.spec_duration() != len {
        seq![ScheduleView::Free(TimeRange { start: (r.start + len) as u32, end: r.end })]
    } else {
        Seq::empty()
    })
}

/// Places an unsplit flexible task into the first free entry long enough
/// for it, or reports that none is.
pub open spec fn place_whole_spec(s: Seq<ScheduleView>, t: DynamicTaskView) -> Option<
    Seq<ScheduleView>,
>
    decreases s.len(),
{
    if s.len() == 0 {
        None
    } else if is_whole_slot(s[0], t) {
        Some(whole_pieces(free_range(s[0]), t) + s.skip(1))
    } else {
        match place_whole_spec(s.skip(1), t) {
            Some(rest) => Some(seq![s[0]] + rest),
            None => None,
        }
    }
}

/// When the first long-enough free entry stands at `i`, whole placement
/// replaces exactly that entry with its pieces.
pub proof fn lemma_place_whole_at(s: Seq<ScheduleView>, t: DynamicTaskView, i: int)
    requires
        0 <= i < s.len(),
        is_whole_slot(s[i], t),
        forall|j: int| 0 <= j < i ==> !is_whole_slot(#[trigger] s[j], t),
    ensures
        place_whole_spec(s, t) == Some(s.take(i) + whole_pieces(free_range(s[i]), t) + s.skip(i + 1)),
    decreases i,
{
    if i == 0 {
        assert(s.take(0) + whole_pieces(free_range(s[0]), t) + s.skip(1) =~= whole_pieces(
            free_range(s[0]),
            t,
        ) + s.skip(1));
    } else {
        lemma_place_whole_at(s.skip(1), t, i - 1);
        assert(s.skip(1).take(i - 1) =~= s.take(i).skip(1));
        assert(s.skip(1).skip(i) =~= s.skip(i + 1));
        assert(seq![s[0]] + (s.skip(1).take(i - 1) + whole_pieces(free_range(s[i]), t) + s.skip(
            i + 1,
        )) =~= s.take(i) + whole_pieces(free_range(s[i]), t) + s.skip(i + 1));
    }
}

/// When no free entry is long enough, whole placement fails.
pub proof fn lemma_place_whole_none(s: Seq<ScheduleView>, t: DynamicTaskView)
    requires
        forall|j: int| 0 <= j < s.len() ==> !is_whole_slot(#[trigger] s[j], t),
    ensures
        place_whole_spec(s, t) is None,
    decreases s.len(),
{
    if s.len() != 0 {
        lemma_place_whole_none(s.skip(1), t);
    }
}

/// Consumes free entries in order for a splittable flexible task needing
/// `remaining` more seconds, numbering fragments from `part`: a gap of
/// exactly the remaining length is replaced whole and consumption ends; a
/// longer gap gives up its prefix and keeps a residual gap; a shorter gap
/// is consumed whole and consumption continues.
pub open spec fn split_consume(
    s: Seq<ScheduleView>,
    t: DynamicTaskView,
    remaining: u32,
    part: nat,
) -> Seq<ScheduleView>
    decreases s.len(),
{
    if s.len() == 0 {
        Seq::empty()
    } else if s[0] is Free {
        let r = free_range(s[0]);
        let d = r.spec_duration();
        if d == remaining {
            seq![ScheduleView::DynamicPart(spec_fixed_split(t, remaining, part))] + s.skip(1)
        } else if d > remaining {
            seq![
                ScheduleView::DynamicPart(spec_fixed_split(t, remaining, part)),
                ScheduleView::Free(TimeRange { start: (r.start + remaining) as u32, end: r.end }),
            ] + s.skip(1)
        } else {
            seq![ScheduleView::DynamicPart(spec_fixed_split(t, d as u32, part))] + split_consume(
                s.skip(1),
                t,
                (remaining - d) as u32,
                part + 1,
            )
        }
    } else {
        seq![s[0]] + split_consume(s.skip(1), t, remaining, part)
    }
}

/// Splitting consumes exactly the required length: the placed fragments
/// gain `remaining` seconds in total and the free gaps lose the same.
pub proof fn lemma_split_consume_durations(
    s: Seq<ScheduleView>,
    t: DynamicTaskView,
    remaining: u32,
    part: nat,
)
    requires
        t is Flexible,
        all_wf(s),
        total_free(s) >= remaining,
    ensures
        total_parts(split_consume(s, t, remaining, part)) == total_parts(s) + remaining,
        total_free(split_consume(s, t, remaining, part)) == total_free(s) - remaining,
    decreases s.len(),
{
    if s.len() > 0 {
        assert forall|i: int| 0 <= i < s.skip(1).len() implies (#[trigger] s.skip(1)[i]).wf() by {
            assert(s.skip(1)[i] == s[i + 1]);
        }
    }
    if s.len() == 0 {
    } else if s[0] is Free {
        assert(s[0].wf());
        let r = free_range(s[0]);
        let d = r.spec_duration();
        if d == remaining {
            let placed = ScheduleView::DynamicPart(spec_fixed_split(t, remaining, part));
            lemma_total_parts_append(seq![placed], s.skip(1));
            lemma_total_free_append(seq![placed], s.skip(1));
            lemma_total_parts_singleton(placed);
            lemma_total_free_singleton(placed);
        } else if d > remaining {
            let placed = ScheduleView::DynamicPart(spec_fixed_split(t, remaining, part));
            let residual = ScheduleView::Free(
                TimeRange { start: (r.start + remaining) as u32, end: r.end },
            );
            let head = seq![placed, residual];
            lemma_total_parts_append(head, s.skip(1));
            lemma_total_free_append(head, s.skip(1));
            assert(head =~= seq![placed] + seq![residual]);
            lemma_total_parts_append(seq![placed], seq![residual]);
            lemma_total_free_append(seq![placed], seq![residual]);
            lemma_total_parts_singleton(placed);
            lemma_total_parts_singleton(residual);
            lemma_total_free_singleton(placed);
            lemma_total_free_singleton(residual);
        } else {
            let placed = ScheduleView::DynamicPart(spec_fixed_split(t, d as u32, part));
            assert(total_free(s) == d + total_free(s.skip(1)));
            lemma_split_consume_durations(s.skip(1), t, (remaining - d) as u32, part + 1);
            let rest = split_consume(s.skip(1), t, (remaining - d) as u32, part + 1);
            lemma_total_parts_append(seq![placed], rest);
            lemma_total_free_append(seq![placed], rest);
            lemma_total_parts_singleton(placed);
            lemma_total_free_singleton(placed);
        }
    } else {
        assert(total_free(s) == total_free(s.skip(1)));
        lemma_split_consume_durations(s.skip(1), t, remaining, part);
        lemma_total_parts_append(seq![s[0]], split_consume(s.skip(1), t, remaining, part));
        lemma_total_free_append(seq![s[0]], split_consume(s.skip(1), t, remaining, part));
        lemma_total_parts_singleton(s[0]);
        lemma_total_free_singleton(s[0]);
    }
}

/// Placing a fixed task into a free entry of exactly its window replaces
/// that entry one for one, with no residual gap.
pub proof fn lemma_place_fixed_exact(s: Seq<ScheduleView>, t: DynamicTaskView, i: int)
    requires
        0 <= i < s.len(),
        is_fixed_slot(s[i], t),
        forall|j: int| 0 <= j < i ==> !is_fixed_slot(#[trigger] s[j], t),
        free_range(s[i]) == fixed_window(t),
    ensures
        place_fixed_spec(s, t) == Some(s.update(i, ScheduleView::DynamicTask(t))),
{
    lemma_place_fixed_at(s, t, i);
    assert(s.take(i) + fixed_pieces(free_range(s[i]), t) + s.skip(i + 1) =~= s.update(
        i,
        ScheduleView::DynamicTask(t),
    ));
}

/// Placing a fixed task strictly inside a free entry keeps the balance of
/// time: the free gaps lose exactly the placed window's duration (the up to
/// two residual gaps and the window sum to the original range), and at most
/// two entries are added.
pub proof fn lemma_place_fixed_residuals(s: Seq<ScheduleView>, t: DynamicTaskView, i: int)
    requires
        0 <= i < s.len(),
        is_fixed_slot(s[i], t),
        forall|j: int| 0 <= j < i ==> !is_fixed_slot(#[trigger] s[j], t),
        t.wf(),
        t is Fixed,
    ensures
        place_fixed_spec(s, t) matches Some(v) && total_free(v) == total_free(s) - fixed_window(
            t,
        ).spec_duration() && s.len() <= v.len() <= s.len() + 2,
{
    lemma_place_fixed_at(s, t, i);
    let r = free_range(s[i]);
    let w = fixed_window(t);
    let pieces = fixed_pieces(r, t);
    let v = s.take(i) + pieces + s.skip(i + 1);
    assert(s =~= s.take(i) + seq![s[i]] + s.skip(i + 1));
    lemma_total_free_append(s.take(i) + seq![s[i]], s.skip(i + 1));
    lemma_total_free_append(s.take(i), seq![s[i]]);
    lemma_total_free_singleton(s[i]);
    lemma_total_free_append(s.take(i) + pieces, s.skip(i + 1));
    lemma_total_free_append(s.take(i), pieces);
    let front: Seq<ScheduleView> = if r.start != w.start {
        seq![ScheduleView::Free(TimeRange { start: r.start, end: w.start })]
    } else {
        Seq::empty()
    };
    let back: Seq<ScheduleView> = if w.end != r.end {
        seq![ScheduleView::Free(TimeRange { start: w.end, end: r.end })]
    } else {
        Seq::empty()
    };
    let mid = seq![ScheduleView::DynamicTask(t)];
    assert(pieces == front + mid + back);
    lemma_total_free_append(front + mid, back);
    lemma_total_free_append(front, mid);
    lemma_total_free_singleton(ScheduleView::DynamicTask(t));
    if r.start != w.start {
        lemma_total_free_singleton(ScheduleView::Free(TimeRange { start: r.start, end: w.start }));
    } else {
        assert(total_free(front) == 0);
    }
    if w.end != r.end {
        lemma_total_free_singleton(ScheduleView::Free(TimeRange { start: w.end, end: r.end }));
    } else {
        assert(total_free(back) == 0);
    }
}

/// The range of the free entry at `i`.
fn free_range_at(s: &Vec<Schedule>, i: usize) -> (r: TimeRange)
    requires
        i < s@.len(),
        sched_views(s@)[i as int] is Free,
    ensures
        r == free_range(sched_views(s@)[i as int]),
{
    proof {
        assert(sched_views(s@)[i as int] == s@[i as int]@);
    }
    match &s[i] {
        Schedule::Free(range) => *range,
        _ => {
            proof {
                assert(false);
            }
            TimeRange { start: 0, end: 0 }
        },
    }
}

/// Places a fixed dynamic task into the first free entry whose range holds
/// its whole window: the entry is replaced by the task, with residual free
/// entries where the window leaves room before or after. Returns whether a
/// fitting entry was found; if none is, the schedule is unchanged.
#[verifier::rlimit(50)]
pub fn place_fixed(s: &mut Vec<Schedule>, task: &DynamicTask) -> (placed: bool)
    requires
        task@ is Fixed,
        task@.wf(),
        all_wf(sched_views(old(s)@)),
    ensures
        match place_fixed_spec(sched_views(old(s)@), task@) {
            Some(v) => placed && sched_views(final(s)@) == v,
            None => !placed && *final(s) == *old(s),
        },
        all_wf(sched_views(final(s)@)),
{
    let ghost vs = sched_views(s@);
    let time = match task {
        DynamicTask::Fixed { task: st, .. } => st.time,
        DynamicTask::Flexible { .. } => {
            proof {
                assert(false);
            }
            TimeRange { start: 0, end: 0 }
        },
    };
    proof {
        assert(time == fixed_window(task@));
    }
    let n = s.len();
    let mut idx: usize = 0;
    let mut found = false;
    while idx < n
        invariant_except_break
            idx <= n == s@.len(),
            !found,
            *s == *old(s),
            vs == sched_views(s@),
            time == fixed_window(task@),
            forall|j: int| 0 <= j < idx ==> !is_fixed_slot(#[trigger] vs[j], task@),
        ensures
            *s == *old(s),
            vs == sched_views(s@),
            found ==> idx < n && is_fixed_slot(vs[idx as int], task@) && forall|j: int|
                0 <= j < idx ==> !is_fixed_slot(#[trigger] vs[j], task@),
            !found ==> forall|j: int| 0 <= j < vs.len() ==> !is_fixed_slot(#[trigger] vs[j], task@),
        decreases n - idx,
    {
        let fits = match &s[idx] {
            Schedule::Free(range) => time.subset(range),
            _ => false,
        };
        proof {
            assert(vs[idx as int] == s@[idx as int]@);
            assert(fits == is_fixed_slot(vs[idx as int], task@));
        }
        if fits {
            found = true;
            break ;
        }
        idx = idx + 1;
    }
    if !found {
        proof {
            lemma_place_fixed_none(vs, task@);
        }
        return false;
    }
    proof {
        lemma_place_fixed_at(vs, task@, idx as int);
        assert(vs[idx as int].wf());
    }
    let range = free_range_at(s, idx);
    let slot = &mut s[idx];
    *slot = Schedule::DynamicTask(task.duplicate());
    proof {
        assert(sched_views(s@) =~= vs.update(
            idx as int,
            ScheduleView::DynamicTask(task@),
        ));
    }
    let ghost v1 = sched_views(s@);
    let mut at = idx;
    if range.start != time.start {
        s.insert(at, Schedule::Free(TimeRange { start: range.start, end: time.start }));
        proof {
            assert(sched_views(s@) =~= v1.insert(
                at as int,
                ScheduleView::Free(TimeRange { start: range.start, end: time.start }),
            ));
        }
        at = at + 1;
    }
    let ghost v2 = sched_views(s@);
    if time.end != range.end {
        let cur_len = s.len();
        proof {
            assert(at < cur_len);
        }
        s.insert(at + 1, Schedule::Free(TimeRange { start: time.end, end: range.end }));
        proof {
            assert(sched_views(s@) =~= v2.insert(
                at + 1,
                ScheduleView::Free(TimeRange { start: time.end, end: range.end }),
            ));
        }
    }
    proof {
        let target = vs.take(idx as int) + fixed_pieces(range, task@) + vs.skip(idx as int + 1);
        assert(sched_views(s@) =~= target);
        assert forall|j: int| 0 <= j < sched_views(s@).len() implies (#[trigger] sched_views(
            s@,
        )[j]).wf() by {
            let pieces = fixed_pieces(range, task@);
            let w = fixed_window(task@);
            if j < idx {
                assert(sched_views(s@)[j] == vs[j]);
                assert(vs[j].wf());
            } else if j < idx + pieces.len() {
                assert(sched_views(s@)[j] == pieces[j - idx]);
            } else {
                assert(sched_views(s@)[j] == vs[j - pieces.len() + 1]);
                assert(vs[j - pieces.len() + 1].wf());
            }
        }
    }
    true
}

/// Places an unsplit flexible task at the start of the first free entry
/// long enough for it, inserting a residual free entry where the gap was
/// longer than required. Returns whether such an entry was found; if none
/// is, the schedule is unchanged.
pub fn place_whole(s: &mut Vec<Schedule>, task: &DynamicTask) -> (placed: bool)
    requires
        task@ is Flexible,
        all_wf(sched_views(old(s)@)),
    ensures
        match place_whole_spec(sched_views(old(s)@), task@) {
            Some(v) => placed && sched_views(final(s)@) == v,
            None => !placed && *final(s) == *old(s),
        },
        all_wf(sched_views(final(s)@)),
{
    let ghost vs = sched_views(s@);
    let length = match task {
        DynamicTask::Flexible { length, .. } => *length,
        DynamicTask::Fixed { .. } => {
            proof {
                assert(false);
            }
            0
        },
    };
    proof {
        assert(length == flex_length(task@));
    }
    let n = s.len();
    let mut idx: usize = 0;
    let mut found = false;
    while idx < n
        invariant_except_break
            idx <= n == s@.len(),
            !found,
            *s == *old(s),
            vs == sched_views(s@),
            length == flex_length(task@),
            all_wf(vs),
            forall|j: int| 0 <= j < idx ==> !is_whole_slot(#[trigger] vs[j], task@),
        ensures
            *s == *old(s),
            vs == sched_views(s@),
            found ==> idx < n && is_whole_slot(vs[idx as int], task@) && forall|j: int|
                0 <= j < idx ==> !is_whole_slot(#[trigger] vs[j], task@),
            !found ==> forall|j: int| 0 <= j < vs.len() ==> !is_whole_slot(#[trigger] vs[j], task@),
        decreases n - idx,
    {
        proof {
            assert(vs[idx as int] == s@[idx as int]@);
            assert(vs[idx as int].wf());
        }
        let fits = match &s[idx] {
            Schedule::Free(range) => range.to_duration() >= length,
            _ => false,
        };
        proof {
            assert(fits == is_whole_slot(vs[idx as int], task@));
        }
        if fits {
            found = true;
            break ;
        }
        idx = idx + 1;
    }
    if !found {
        proof {
            lemma_place_whole_none(vs, task@);
        }
        return false;
    }
    proof {
        lemma_place_whole_at(vs, task@, idx as int);
        assert(vs[idx as int].wf());
    }
    let range = free_range_at(s, idx);
    let slot = &mut s[idx];
    *slot = Schedule::DynamicTask(task.duplicate());
    proof {
        assert(sched_views(s@) =~= vs.update(idx as int, ScheduleView::DynamicTask(task@)));
    }
    let ghost v1 = sched_views(s@);
    let duration = range.to_duration();
    if duration != length {
        s.insert(idx + 1, Schedule::Free(TimeRange { start: range.start + length, end: range.end }));
        proof {
            assert(sched_views(s@) =~= v1.insert(
                idx as int + 1,
                ScheduleView::Free(TimeRange { start: (range.start + length) as u32, end: range.end }),
            ));
        }
    }
    proof {
        let target = vs.take(idx as int) + whole_pieces(range, task@) + vs.skip(idx as int + 1);
        assert(sched_views(s@) =~= target);
        assert forall|j: int| 0 <= j < sched_views(s@).len() implies (#[trigger] sched_views(
            s@,
        )[j]).wf() by {
            let pieces = whole_pieces(range, task@);
            if j < idx {
                assert(sched_views(s@)[j] == vs[j]);
                assert(vs[j].wf());
            } else if j < idx + pieces.len() {
                assert(sched_views(s@)[j] == pieces[j - idx]);
            } else {
                assert(sched_views(s@)[j] == vs[j - pieces.len() + 1]);
                assert(vs[j - pieces.len() + 1].wf());
            }
        }
    }
    true
}

/// The total duration of the schedule's free gaps, in seconds.
pub fn total_free_of(s: &Vec<Schedule>) -> (r: u128)
    requires
        all_wf(sched_views(s@)),
    ensures
        r == total_free(sched_views(s@)),
{
    let ghost vs = sched_views(s@);
    let n = s.len();
    let mut sum: u128 = 0;
    let mut i: usize = 0;
    proof {
        assert(vs.take(0) =~= Seq::<ScheduleView>::empty());
    }
    while i < n
        invariant
            i <= n == s@.len(),
            vs == sched_views(s@),
            all_wf(vs),
            sum == total_free(vs.take(i as int)),
            sum <= i as int * 86400,
        decreases n - i,
    {
        proof {
            assert(vs[i as int] == s@[i as int]@);
            assert(vs[i as int].wf());
            assert(vs.take(i + 1) =~= vs.take(i as int) + seq![vs[i as int]]);
            lemma_total_free_append(vs.take(i as int), seq![vs[i as int]]);
            lemma_total_free_singleton(vs[i as int]);
        }
        let add: u32 = match &s[i] {
            Schedule::Free(range) => range.to_duration(),
            _ => 0,
        };
        sum = sum + add as u128;
        i = i + 1;
    }
    proof {
        assert(vs.take(n as int) =~= vs);
    }
    sum
}

/// Splits a flexible task over the free entries in order: each gap shorter
/// than what remains is consumed whole, the gap where the remainder ends is
/// consumed up to it, a residual free entry keeping what is left of it.
/// Fragments are numbered from 1 and carry the consumed amount as their
/// length.
pub fn place_split(s: &mut Vec<Schedule>, task: &DynamicTask)
    requires
        task@ is Flexible,
        all_wf(sched_views(old(s)@)),
        total_free(sched_views(old(s)@)) >= flex_length(task@),
    ensures
        sched_views(final(s)@) == split_consume(
            sched_views(old(s)@),
            task@,
            flex_length(task@),
            1,
        ),
        all_wf(sched_views(final(s)@)),
{
    let ghost vs = sched_views(old(s)@);
    let length = match task {
        DynamicTask::Flexible { length, .. } => *length,
        DynamicTask::Fixed { .. } => {
            proof {
                assert(false);
            }
            0
        },
    };
    proof {
        assert(length == flex_length(task@));
        assert(vs.skip(0) =~= vs);
        assert(sched_views(s@).take(0) =~= Seq::<ScheduleView>::empty());
        assert(Seq::<ScheduleView>::empty() + split_consume(vs, task@, length, 1) =~= split_consume(
            vs,
            task@,
            length,
            1,
        ));
    }
    let n = s.len();
    let mut i: usize = 0;
    let mut remaining: u32 = length;
    let mut part: usize = 1;
    loop
        invariant_except_break
            i <= n == s@.len(),
            1 <= part <= i + 1,
            task@ is Flexible,
            length == flex_length(task@),
            all_wf(sched_views(s@)),
            sched_views(s@).skip(i as int) == vs.skip(i as int),
            sched_views(s@).len() == vs.len(),
            total_free(vs.skip(i as int)) >= remaining,
            split_consume(vs, task@, length, 1) == sched_views(s@).take(i as int) + split_consume(
                vs.skip(i as int),
                task@,
                remaining,
                part as nat,
            ),
        ensures
            sched_views(s@) == split_consume(vs, task@, length, 1),
            all_wf(sched_views(s@)),
        decreases n - i,
    {
        if i >= n {
            proof {
                assert(vs.skip(i as int) =~= Seq::<ScheduleView>::empty());
                assert(sched_views(s@).take(i as int) + split_consume(
                    vs.skip(i as int),
                    task@,
                    remaining,
                    part as nat,
                ) =~= sched_views(s@));
            }
            break ;
        }
        let ghost cur = sched_views(s@);
        let ghost rest = vs.skip(i as int);
        proof {
            assert(rest.len() > 0);
            assert(rest[0] == vs[i as int]);
            assert(cur[i as int] == cur.skip(i as int)[0]);
            assert(rest.skip(1) =~= vs.skip(i as int + 1));
            assert(cur.skip(i as int).skip(1) =~= cur.skip(i as int + 1));
            assert(vs[i as int] == cur[i as int]);
            assert(cur[i as int] == s@[i as int]@);
        }
        let is_free = match &s[i] {
            Schedule::Free(_) => true,
            _ => false,
        };
        if is_free {
            proof {
                assert(cur[i as int].wf());
            }
            let range = free_range_at(s, i);
            let d = range.to_duration();
            if d >= remaining {
                let frag = match task.fixed_split(remaining, part) {
                    Ok(frag) => frag,
                    Err(_) => {
                        proof {
                            assert(false);
                        }
                        task.duplicate()
                    },
                };
                let slot = &mut s[i];
                *slot = Schedule::DynamicPart(frag);
                proof {
                    assert(sched_views(s@) =~= cur.update(
                        i as int,
                        ScheduleView::DynamicPart(spec_fixed_split(task@, remaining, part as nat)),
                    ));
                }
                if d > remaining {
                    let ghost v1 = sched_views(s@);
                    s.insert(
                        i + 1,
                        Schedule::Free(TimeRange { start: range.start + remaining, end: range.end }),
                    );
                    proof {
                        assert(sched_views(s@) =~= v1.insert(
                            i as int + 1,
                            ScheduleView::Free(
                                TimeRange {
                                    start: (range.start + remaining) as u32,
                                    end: range.end,
                                },
                            ),
                        ));
                        assert(split_consume(rest, task@, remaining, part as nat) == seq![
                            ScheduleView::DynamicPart(
                                spec_fixed_split(task@, remaining, part as nat),
                            ),
                            ScheduleView::Free(
                                TimeRange {
                                    start: (range.start + remaining) as u32,
                                    end: range.end,
                                },
                            ),
                        ] + rest.skip(1));
                        assert(sched_views(s@) =~= cur.take(i as int) + split_consume(
                            rest,
                            task@,
                            remaining,
                            part as nat,
                        ));
                        assert forall|j: int| 0 <= j < sched_views(s@).len() implies (
                        #[trigger] sched_views(s@)[j]).wf() by {
                            if j < i {
                                assert(sched_views(s@)[j] == cur[j]);
                                assert(cur[j].wf());
                            } else if j > i + 1 {
                                assert(sched_views(s@)[j] == cur[j - 1]);
                                assert(cur[j - 1].wf());
                            }
                        }
                    }
                } else {
                    proof {
                        assert(split_consume(rest, task@, remaining, part as nat) == seq![
                            ScheduleView::DynamicPart(
                                spec_fixed_split(task@, remaining, part as nat),
                            ),
                        ] + rest.skip(1));
                        assert(sched_views(s@) =~= cur.take(i as int) + split_consume(
                            rest,
                            task@,
                            remaining,
                            part as nat,
                        ));
                        assert forall|j: int| 0 <= j < sched_views(s@).len() implies (
                        #[trigger] sched_views(s@)[j]).wf() by {
                            if j != i {
                                assert(sched_views(s@)[j] == cur[j]);
                                assert(cur[j].wf());
                            }
                        }
                    }
                }
                proof {
                    assert(sched_views(s@) == split_consume(vs, task@, length, 1));
                }
                break ;
            } else {
                let frag = match task.fixed_split(d, part) {
                    Ok(frag) => frag,
                    Err(_) => {
                        proof {
                            assert(false);
                        }
                        task.duplicate()
                    },
                };
                let slot = &mut s[i];
                *slot = Schedule::DynamicPart(frag);
                proof {
                    assert(sched_views(s@) =~= cur.update(
                        i as int,
                        ScheduleView::DynamicPart(spec_fixed_split(task@, d, part as nat)),
                    ));
                    assert(split_consume(rest, task@, remaining, part as nat) == seq![
                        ScheduleView::DynamicPart(spec_fixed_split(task@, d, part as nat)),
                    ] + split_consume(rest.skip(1), task@, (remaining - d) as u32, part as nat + 1));
                    assert(sched_views(s@).take(i as int + 1) =~= cur.take(i as int) + seq![
                        ScheduleView::DynamicPart(spec_fixed_split(task@, d, part as nat)),
                    ]);
                    assert(split_consume(vs, task@, length, 1) =~= sched_views(s@).take(
                        i as int + 1,
                    ) + split_consume(
                        vs.skip(i as int + 1),
                        task@,
                        (remaining - d) as u32,
                        part as nat + 1,
                    ));
                    assert(sched_views(s@).skip(i as int + 1) =~= vs.skip(i as int + 1));
                    assert(total_free(rest) == d + total_free(rest.skip(1)));
                    assert forall|j: int| 0 <= j < sched_views(s@).len() implies (
                    #[trigger] sched_views(s@)[j]).wf() by {
                        if j != i {
                            assert(sched_views(s@)[j] == cur[j]);
                            assert(cur[j].wf());
                        }
                    }
                }
                remaining = remaining - d;
                part = part + 1;
                i = i + 1;
            }
        } else {
            proof {
                assert(split_consume(rest, task@, remaining, part as nat) == seq![rest[0]]
                    + split_consume(rest.skip(1), task@, remaining, part as nat));
                assert(sched_views(s@).take(i as int + 1) =~= cur.take(i as int) + seq![
                    vs[i as int],
                ]);
                assert(split_consume(vs, task@, length, 1) =~= sched_views(s@).take(i as int + 1)
                    + split_consume(vs.skip(i as int + 1), task@, remaining, part as nat));
                assert(sched_views(s@).skip(i as int + 1) =~= vs.skip(i as int + 1));
                assert(total_free(rest) == total_free(rest.skip(1)));
            }
            i = i + 1;
        }
    }
}

/// The mathematical value of a [`Diagnostic`].
#[verifier::ext_equal]
pub ghost enum DiagnosticView {
    UnplacedFixed(DynamicTaskView),
    InsufficientFreeTime(DynamicTaskView, u128),
    UnplacedFlexible(DynamicTaskView),
}

/// A non-fatal report that one dynamic task could not be placed; the rest
/// of the day's tasks are still placed.
#[derive(Debug, PartialEq, Eq)]
pub enum Diagnostic {
    /// No free gap held the fixed task's whole window.
    UnplacedFixed(DynamicTask),
    /// The splittable flexible task needed more than the day's total free
    /// time, which is carried along in seconds.
    InsufficientFreeTime(DynamicTask, u128),
    /// No single free gap was long enough for the unsplit flexible task.
    UnplacedFlexible(DynamicTask),
}

impl View for Diagnostic {
    type V = DiagnosticView;

    open spec fn view(&self) -> DiagnosticView {
        match self {
            Diagnostic::UnplacedFixed(t) => DiagnosticView::UnplacedFixed(t@),
            Diagnostic::InsufficientFreeTime(t, a) => DiagnosticView::InsufficientFreeTime(t@, *a),
            Diagnostic::UnplacedFlexible(t) => DiagnosticView::UnplacedFlexible(t@),
        }
    }
}

/// The views of a diagnostic list's entries.
pub open spec fn diag_views(s: Seq<Diagnostic>) -> Seq<DiagnosticView> {
    s.map_values(|d: Diagnostic| d@)
}

} // verus!
