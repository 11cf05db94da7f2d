use vstd::prelude::*;
use vstd::string::StringExecFns;

use crate::errors::PlanError;
use crate::sys;
use crate::text::dec_digits;
use crate::text::push_decimal;
use crate::time::PartOfDay;
use crate::time::TimeRange;

verus! {

/// The mathematical value of a [`Task`]: its identifier and the character
/// sequences of its display strings.
#[verifier::ext_equal]
pub ghost struct TaskView {
    pub id: u128,
    pub name: Seq<char>,
    pub description: Seq<char>,
}

/// An immutable leaf payload: a stable identifier plus a display name and
/// description. Identity is the identifier alone; the strings are
/// display-only.
#[derive(Debug, PartialEq, Eq)]
pub struct Task {
    pub id: u128,
    pub name: String,
    pub description: String,
}

impl View for Task {
    type V = TaskView;

    open spec fn view(&self) -> TaskView {
        TaskView { id: self.id, name: self.name@, description: self.description@ }
    }
}

impl Task {
    /// Creates a task under a fresh random identifier.
    pub fn new(name: String, description: String) -> (r: Self)
        ensures
            r@.name == name@,
            r@.description == description@,
    {
        Task { id: sys::fresh_id(), name, description }
    }

    /// An identical copy.
    pub fn duplicate(&self) -> (r: Self)
        ensures
            r == *self,
    {
        Task { id: self.id, name: self.name.clone(), description: self.description.clone() }
    }
}

/// The mathematical value of a [`StaticTask`].
#[verifier::ext_equal]
pub ghost struct StaticTaskView {
    pub task: TaskView,
    pub time: TimeRange,
}

impl StaticTaskView {
    /// The task's window is a well-formed range.
    pub open spec fn wf(self) -> bool {
        self.time.wf()
    }
}

/// A task anchored to a fixed window of the day; a day keeps its static
/// tasks ordered by the window's start.
#[derive(Debug, PartialEq, Eq)]
pub struct StaticTask {
    pub task: Task,
    pub time: TimeRange,
}

impl View for StaticTask {
    type V = StaticTaskView;

    open spec fn view(&self) -> StaticTaskView {
        StaticTaskView { task: self.task@, time: self.time }
    }
}

impl StaticTask {
    pub fn new(task: Task, time: TimeRange) -> (r: Self)
        ensures
            r@ == (StaticTaskView { task: task@, time }),
    {
        StaticTask { task, time }
    }

    /// An identical copy.
    pub fn duplicate(&self) -> (r: Self)
        ensures
            r == *self,
    {
        StaticTask { task: self.task.duplicate(), time: self.time }
    }
}

/// The mathematical value of a [`DynamicTask`].
#[verifier::ext_equal]
pub ghost enum DynamicTaskView {
    Flexible {
        task: TaskView,
        date: i64,
        length: u32,
        around: PartOfDay,
        can_split: bool,
        priority: i32,
    },
    Fixed { task: StaticTaskView, date: i64, priority: i32 },
}

impl DynamicTaskView {
    /// The calendar date the task is for, as a day number.
    pub open spec fn date(self) -> i64 {
        match self {
            DynamicTaskView::Flexible { date, .. } => date,
            DynamicTaskView::Fixed { date, .. } => date,
        }
    }

    /// The stable identifier of the task's payload.
    pub open spec fn id(self) -> u128 {
        match self {
            DynamicTaskView::Flexible { task, .. } => task.id,
            DynamicTaskView::Fixed { task, .. } => task.task.id,
        }
    }

    /// A fixed task's window is well-formed.
    pub open spec fn wf(self) -> bool {
        match self {
            DynamicTaskView::Flexible { .. } => true,
            DynamicTaskView::Fixed { task, .. } => task.wf(),
        }
    }
}

/// A dated task still to be placed: either `Fixed`, claiming exactly its
/// static task's window on its date, or `Flexible`, needing `length`
/// seconds of free time on its date, in one piece unless `can_split`.
/// The `around` preference is informational metadata: placement does not
/// consult it.
#[derive(Debug, PartialEq, Eq)]
pub enum DynamicTask {
    Flexible {
        task: Task,
        date: i64,
        length: u32,
        around: PartOfDay,
        can_split: bool,
        priority: i32,
    },
    Fixed { task: StaticTask, date: i64, priority: i32 },
}

impl View for DynamicTask {
    type V = DynamicTaskView;

    open spec fn view(&self) -> DynamicTaskView {
        match self {
            DynamicTask::Flexible { task, date, length, around, can_split, priority } => {
                DynamicTaskView::Flexible {
                    task: task@,
                    date: *date,
                    length: *length,
                    around: *around,
                    can_split: *can_split,
                    priority: *priority,
                }
            },
            DynamicTask::Fixed { task, date, priority } => {
                DynamicTaskView::Fixed { task: task@, date: *date, priority: *priority }
            },
        }
    }
}

/// The name of the `nth` fragment of a split task: the original name, a
/// dash, and the fragment index in decimal.
pub open spec fn part_name(name: Seq<char>, nth: nat) -> Seq<char> {
    name + seq!['-'] + dec_digits(nth)
}

/// The `nth` fragment of a flexible task view, its length replaced by the
/// consumed amount and its name suffixed with the fragment index. Fixed
/// task views are returned unchanged; splitting applies only to flexible
/// tasks.
pub open spec fn spec_fixed_split(v: DynamicTaskView, length: u32, nth: nat) -> DynamicTaskView {
    match v {
        DynamicTaskView::Flexible { task, date, around, can_split, priority, .. } => {
            DynamicTaskView::Flexible {
                task: TaskView {
                    id: task.id,
                    name: part_name(task.name, nth),
                    description: task.description,
                },
                date,
                length,
                around,
                can_split,
                priority,
            }
        },
        DynamicTaskView::Fixed { .. } => v,
    }
}

impl DynamicTask {
    pub fn new_flexible(
        task: Task,
        date: i64,
        length: u32,
        around: PartOfDay,
        can_split: bool,
    ) -> (r: Self)
        ensures
            r@ == (DynamicTaskView::Flexible {
                task: task@,
                date,
                length,
                around,
                can_split,
                priority: 0,
            }),
    {
        DynamicTask::Flexible { task, date, length, around, can_split, priority: 0 }
    }

    pub fn new_fixed(task: StaticTask, date: i64) -> (r: Self)
        ensures
            r@ == (DynamicTaskView::Fixed { task: task@, date, priority: 0 }),
    {
        DynamicTask::Fixed { task, date, priority: 0 }
    }

    /// The same task with its priority replaced.
    pub fn priority(self, priority: i32) -> (r: Self)
        ensures
            r@ == match self@ {
                DynamicTaskView::Flexible { task, date, length, around, can_split, .. } => {
                    DynamicTaskView::Flexible { task, date, length, around, can_split, priority }
                },
                DynamicTaskView::Fixed { task, date, .. } => {
                    DynamicTaskView::Fixed { task, date, priority }
                },
            },
    {
        match self {
            DynamicTask::Flexible { task, date, length, around, can_split, .. } => {
                DynamicTask::Flexible { task, date, length, around, can_split, priority }
            },
            DynamicTask::Fixed { task, date, .. } => DynamicTask::Fixed { task, date, priority },
        }
    }

    /// The calendar date the task is for, as a day number.
    pub fn get_date(&self) -> (d: i64)
        ensures
            d == self@.date(),
    {
        match self {
            DynamicTask::Flexible { date, .. } => *date,
            DynamicTask::Fixed { date, .. } => *date,
        }
    }

    /// An identical copy.
    pub fn duplicate(&self) -> (r: Self)
        ensures
            r == *self,
    {
        match self {
            DynamicTask::Flexible { task, date, length, around, can_split, priority } => {
                DynamicTask::Flexible {
                    task: task.duplicate(),
                    date: *date,
                    length: *length,
                    around: *around,
                    can_split: *can_split,
                    priority: *priority,
                }
            },
            DynamicTask::Fixed { task, date, priority } => {
                DynamicTask::Fixed { task: task.duplicate(), date: *date, priority: *priority }
            },
        }
    }

    /// Derives the `nth` fragment of a flexible task for placement into one
    /// free gap: the given consumed `length`, and the name suffixed with
    /// the fragment index. Fails on a fixed task.
    pub fn fixed_split(&self, length: u32, nth: usize) -> (r: Result<Self, PlanError>)
        ensures
            self is Flexible ==> (r matches Ok(t) && t@ == spec_fixed_split(
                self@,
                length,
                nth as nat,
            )),
            self is Fixed ==> r == Err::<DynamicTask, PlanError>(PlanError::NotFlexible),
    {
        match self {
            DynamicTask::Flexible { task, date, around, can_split, priority, .. } => {
                let mut name = task.name.clone();
                name.append("-");
                proof {
                    reveal_strlit("-");
                    assert(name@ =~= task.name@ + seq!['-']);
                }
                push_decimal(&mut name, nth as u64);
                proof {
                    assert(name@ =~= part_name(task.name@, nth as nat));
                }
                Ok(
                    DynamicTask::Flexible {
                        task: Task {
                            id: task.id,
                            name,
                            description: task.description.clone(),
                        },
                        date: *date,
                        length,
                        around: *around,
                        can_split: *can_split,
                        priority: *priority,
                    },
                )
            },
            DynamicTask::Fixed { .. } => Err(PlanError::NotFlexible),
        }
    }
}

/// The rank of a part of day in the preference order: the four named parts
/// in day order, then explicit windows.
pub open spec fn pod_rank(p: PartOfDay) -> int {
    match p {
        PartOfDay::Morning => 0,
        PartOfDay::Afternoon => 1,
        PartOfDay::Evening => 2,
        PartOfDay::Night => 3,
        PartOfDay::Fixed(_) => 4,
    }
}

/// The tie-break key of a part of day: an explicit window orders by its
/// start, named parts are equal at their rank.
pub open spec fn pod_key(p: PartOfDay) -> int {
    match p {
        PartOfDay::Fixed(r) => r.start as int,
        _ => 0,
    }
}

/// The sort key of a dynamic task: date first, then fixed before flexible,
/// then per kind. Fixed tasks tie-break by window start and priority;
/// flexible ones by preferred part of day and priority.
pub open spec fn dyn_key(t: DynamicTaskView) -> (int, int, int, int, int) {
    match t {
        DynamicTaskView::Fixed { task, date, priority } => {
            (date as int, 0, task.time.start as int, priority as int, 0)
        },
        DynamicTaskView::Flexible { date, around, priority, .. } => {
            (date as int, 1, pod_rank(around), pod_key(around), priority as int)
        },
    }
}

/// The total preorder the master list is sorted by: lexicographic order of
/// the sort keys.
pub open spec fn dyn_le(a: DynamicTaskView, b: DynamicTaskView) -> bool {
    let (a0, a1, a2, a3, a4) = dyn_key(a);
    let (b0, b1, b2, b3, b4) = dyn_key(b);
    if a0 != b0 {
        a0 < b0
    } else if a1 != b1 {
        a1 < b1
    } else if a2 != b2 {
        a2 < b2
    } else if a3 != b3 {
        a3 < b3
    } else {
        a4 <= b4
    }
}

/// Any two dynamic tasks are comparable.
pub proof fn lemma_dyn_le_total(a: DynamicTaskView, b: DynamicTaskView)
    ensures
        dyn_le(a, b) || dyn_le(b, a),
{
}

/// The master-list order is transitive.
pub proof fn lemma_dyn_le_trans(a: DynamicTaskView, b: DynamicTaskView, c: DynamicTaskView)
    requires
        dyn_le(a, b),
        dyn_le(b, c),
    ensures
        dyn_le(a, c),
{
}

/// Decides the master-list order between two dynamic tasks.
pub fn dynamic_le(a: &DynamicTask, b: &DynamicTask) -> (r: bool)
    ensures
        r == dyn_le(a@, b@),
{
    let (a0, a1, a2, a3, a4) = dynamic_key(a);
    let (b0, b1, b2, b3, b4) = dynamic_key(b);
    if a0 != b0 {
        a0 < b0
    } else if a1 != b1 {
        a1 < b1
    } else if a2 != b2 {
        a2 < b2
    } else if a3 != b3 {
        a3 < b3
    } else {
        a4 <= b4
    }
}

/// The sort key of a dynamic task, as machine integers.
fn dynamic_key(t: &DynamicTask) -> (k: (i64, u8, u32, i64, i64))
    ensures
        (k.0 as int, k.1 as int, k.2 as int, k.3 as int, k.4 as int) == dyn_key(t@),
{
    match t {
        DynamicTask::Fixed { task, date, priority } => {
            (*date, 0u8, task.time.start, *priority as i64, 0i64)
        },
        DynamicTask::Flexible { date, around, priority, .. } => {
            let rank: u32 = match around {
                PartOfDay::Morning => 0,
                PartOfDay::Afternoon => 1,
                PartOfDay::Evening => 2,
                PartOfDay::Night => 3,
                PartOfDay::Fixed(_) => 4,
            };
            let key: i64 = match around {
                PartOfDay::Fixed(r) => r.start as i64,
                _ => 0,
            };
            (*date, 1u8, rank, key, *priority as i64)
        },
    }
}

} // verus!
