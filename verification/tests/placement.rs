use lunite::Config;
use lunite::Diagnostic;
use lunite::DynamicTask;
use lunite::PartOfDay;
use lunite::PlanError;
use lunite::Planner;
use lunite::Schedule;
use lunite::StaticTask;
use lunite::Task;
use lunite::TimeRange;

// A Monday: 700001 = 7 * 100000 + 1, and day 1 of the calendar is a Monday.
const MONDAY: i64 = 700001;

fn at(h: u32, m: u32) -> u32 {
    h * 3600 + m * 60
}

fn named(name: &str) -> Task {
    Task::new(name.to_string(), String::new())
}

/// Window 08:00-21:00 with fixed tasks 08:00-10:00 and 11:00-12:00, and
/// copies of the two tasks for expected values.
fn booked_planner() -> (Planner, StaticTask, StaticTask) {
    let mut p = Planner::new(Config::new(at(8, 0), at(21, 0)));
    let t1 = StaticTask::new(named("t1"), TimeRange::new(at(8, 0), at(10, 0)));
    let t2 = StaticTask::new(named("t2"), TimeRange::new(at(11, 0), at(12, 0)));
    let copies = (t1.duplicate(), t2.duplicate());
    let day = p.nth_day_mut(0).unwrap();
    day.add_static(t1);
    day.add_static(t2);
    (p, copies.0, copies.1)
}

#[test]
fn unsplit_flexible_takes_first_fitting_gap() {
    // 90 minutes, no splitting: the 60-minute gap is skipped, the task
    // starts the 12:00-21:00 gap and leaves Free(13:30-21:00).
    let (mut p, t1, t2) = booked_planner();
    let task = DynamicTask::new_flexible(named("s"), MONDAY, 90 * 60, PartOfDay::Morning, false);
    let task_copy = task.duplicate();
    p.add_dynamic_on(task, MONDAY).unwrap();
    let (sched, diags) = p.get_schedule_with_dynamics_nth(0).unwrap();
    assert_eq!(diags.len(), 0);
    assert_eq!(
        sched,
        vec![
            Schedule::Static(t1),
            Schedule::Free(TimeRange { start: at(10, 0), end: at(11, 0) }),
            Schedule::Static(t2),
            Schedule::DynamicTask(task_copy),
            Schedule::Free(TimeRange { start: at(13, 30), end: at(21, 0) }),
        ]
    );
}

#[test]
fn split_flexible_consumes_gaps_in_order() {
    // 90 splittable minutes against gaps of 60 and 540 minutes: the first
    // gap is consumed whole as fragment 1, fragment 2 takes 30 minutes of
    // the second gap, and the rest of it stays free.
    let (mut p, t1, t2) = booked_planner();
    let task = DynamicTask::new_flexible(named("s"), MONDAY, 90 * 60, PartOfDay::Morning, true);
    let part1 = task.fixed_split(60 * 60, 1).unwrap();
    let part1_copy = part1.duplicate();
    let part2 = task.fixed_split(30 * 60, 2).unwrap();
    p.add_dynamic_on(task, MONDAY).unwrap();
    let (sched, diags) = p.get_schedule_with_dynamics_nth(0).unwrap();
    assert_eq!(diags.len(), 0);
    assert_eq!(
        sched,
        vec![
            Schedule::Static(t1),
            Schedule::DynamicPart(part1),
            Schedule::Static(t2),
            Schedule::DynamicPart(part2),
            Schedule::Free(TimeRange { start: at(12, 30), end: at(21, 0) }),
        ]
    );
    // The fragments carry the consumed lengths, which sum to the request,
    // and the indexed names.
    let mut part_sum = 0u32;
    for entry in p.get_schedule_with_dynamics_nth(0).unwrap().0 {
        if let Schedule::DynamicPart(DynamicTask::Flexible { length, .. }) = entry {
            part_sum += length;
        }
    }
    assert_eq!(part_sum, 90 * 60);
    match part1_copy {
        DynamicTask::Flexible { task, length, .. } => {
            assert_eq!(task.name, "s-1");
            assert_eq!(length, 60 * 60);
        }
        _ => panic!("expected a flexible fragment"),
    }
}

#[test]
fn split_flexible_needs_total_free_time() {
    // 20 splittable hours against 10 free hours: nothing changes and one
    // diagnostic reports the available total.
    let (mut p, _, _) = booked_planner();
    let task = DynamicTask::new_flexible(named("s"), MONDAY, 20 * 3600, PartOfDay::Night, true);
    let task_copy = task.duplicate();
    p.add_dynamic_on(task, MONDAY).unwrap();
    let plain = p.get_freetime_nth(0).unwrap();
    let (sched, diags) = p.get_schedule_with_dynamics_nth(0).unwrap();
    assert_eq!(sched, plain);
    assert_eq!(diags, vec![Diagnostic::InsufficientFreeTime(task_copy, 10 * 3600)]);
}

#[test]
fn fixed_window_matching_gap_replaces_it_whole() {
    // The fixed window equals the 10:00-11:00 gap: replaced one for one.
    let (mut p, t1, t2) = booked_planner();
    let anchored = StaticTask::new(named("f"), TimeRange::new(at(10, 0), at(11, 0)));
    let task = DynamicTask::new_fixed(anchored, MONDAY);
    let task_copy = task.duplicate();
    p.add_dynamic_on(task, MONDAY).unwrap();
    let (sched, diags) = p.get_schedule_with_dynamics_nth(0).unwrap();
    assert_eq!(diags.len(), 0);
    assert_eq!(
        sched,
        vec![
            Schedule::Static(t1),
            Schedule::DynamicTask(task_copy),
            Schedule::Static(t2),
            Schedule::Free(TimeRange { start: at(12, 0), end: at(21, 0) }),
        ]
    );
}

#[test]
fn fixed_window_inside_gap_leaves_two_residuals() {
    // A window strictly inside the 10:00-11:00 gap leaves residual gaps on
    // both sides that sum with it to the original hour.
    let (mut p, t1, t2) = booked_planner();
    let anchored = StaticTask::new(named("f"), TimeRange::new(at(10, 15), at(10, 45)));
    let task = DynamicTask::new_fixed(anchored, MONDAY);
    let task_copy = task.duplicate();
    p.add_dynamic_on(task, MONDAY).unwrap();
    let (sched, _) = p.get_schedule_with_dynamics_nth(0).unwrap();
    assert_eq!(
        sched,
        vec![
            Schedule::Static(t1),
            Schedule::Free(TimeRange { start: at(10, 0), end: at(10, 15) }),
            Schedule::DynamicTask(task_copy),
            Schedule::Free(TimeRange { start: at(10, 45), end: at(11, 0) }),
            Schedule::Static(t2),
            Schedule::Free(TimeRange { start: at(12, 0), end: at(21, 0) }),
        ]
    );
}

#[test]
fn fixed_task_without_room_is_reported() {
    // The window collides with a fixed commitment: no gap holds it, the
    // schedule stays as computed and a diagnostic names the task.
    let (mut p, _, _) = booked_planner();
    let anchored = StaticTask::new(named("f"), TimeRange::new(at(9, 0), at(10, 30)));
    let task = DynamicTask::new_fixed(anchored, MONDAY);
    let task_copy = task.duplicate();
    p.add_dynamic_on(task, MONDAY).unwrap();
    let plain = p.get_freetime_nth(0).unwrap();
    let (sched, diags) = p.get_schedule_with_dynamics_nth(0).unwrap();
    assert_eq!(sched, plain);
    assert_eq!(diags, vec![Diagnostic::UnplacedFixed(task_copy)]);
}

#[test]
fn unsplit_flexible_without_room_is_reported() {
    // 10 unsplittable hours, but the longest gap has 9: one diagnostic.
    let (mut p, _, _) = booked_planner();
    let task = DynamicTask::new_flexible(named("s"), MONDAY, 10 * 3600, PartOfDay::Evening, false);
    let task_copy = task.duplicate();
    p.add_dynamic_on(task, MONDAY).unwrap();
    let plain = p.get_freetime_nth(0).unwrap();
    let (sched, diags) = p.get_schedule_with_dynamics_nth(0).unwrap();
    assert_eq!(sched, plain);
    assert_eq!(diags, vec![Diagnostic::UnplacedFlexible(task_copy)]);
}

#[test]
fn schedule_day_index_is_checked() {
    let (p, _, _) = booked_planner();
    assert_eq!(
        p.get_schedule_with_dynamics_nth(7).err(),
        Some(PlanError::DayOutOfRange { given: 7 })
    );
    assert_eq!(p.get_freetime_nth(9).err(), Some(PlanError::DayOutOfRange { given: 9 }));
}
