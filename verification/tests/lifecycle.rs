use lunite::Config;
use lunite::DynamicTask;
use lunite::ErrIdx;
use lunite::Schedule;
use lunite::PartOfDay;
use lunite::PlanError;
use lunite::Planner;
use lunite::StaticTask;
use lunite::Task;
use lunite::TimeRange;
use lunite::planner::weekday_of_day;

// A Monday: 700001 = 7 * 100000 + 1, and day 1 of the calendar is a Monday.
const MONDAY: i64 = 700001;

fn at(h: u32, m: u32) -> u32 {
    h * 3600 + m * 60
}

fn named(name: &str) -> Task {
    Task::new(name.to_string(), String::new())
}

fn flexible(name: &str, date: i64) -> DynamicTask {
    DynamicTask::new_flexible(named(name), date, 3600, PartOfDay::Morning, false)
}

#[test]
fn new_planner_is_empty() {
    let p = Planner::new(Config::new(at(8, 0), at(21, 0)));
    assert_eq!(p.days.len(), 7);
    for day in &p.days {
        assert_eq!(day.static_tasks.len(), 0);
        assert_eq!(day.static_done.len(), 0);
        assert_eq!(day.dynamic_tasks.len(), 0);
    }
    assert_eq!(p.dynamic_tasks.len(), 0);
    assert_eq!(p.dynamic_done.len(), 0);
}

#[test]
fn weekday_of_day_number() {
    // Day 1 of the calendar is a Monday; the week wraps every 7 days,
    // also before the calendar's origin.
    assert_eq!(weekday_of_day(1), 0);
    assert_eq!(weekday_of_day(7), 6);
    assert_eq!(weekday_of_day(8), 0);
    assert_eq!(weekday_of_day(0), 6);
    assert_eq!(weekday_of_day(-1), 5);
    assert_eq!(weekday_of_day(MONDAY), 0);
}

#[test]
fn past_task_is_rejected_and_nothing_changes() {
    let mut p = Planner::new(Config::new(at(8, 0), at(21, 0)));
    let r = p.add_dynamic_on(flexible("old", MONDAY - 1), MONDAY);
    assert_eq!(r, Err(PlanError::DateInPast));
    assert_eq!(p.dynamic_tasks.len(), 0);
    for day in &p.days {
        assert_eq!(day.dynamic_tasks.len(), 0);
    }
}

#[test]
fn added_tasks_reach_their_days() {
    let mut p = Planner::new(Config::new(at(8, 0), at(21, 0)));
    p.add_dynamic_on(flexible("mon", MONDAY), MONDAY).unwrap();
    p.add_dynamic_on(flexible("wed", MONDAY + 2), MONDAY).unwrap();
    assert_eq!(p.dynamic_tasks.len(), 2);
    assert_eq!(p.days[0].dynamic_tasks.len(), 1);
    assert_eq!(p.days[1].dynamic_tasks.len(), 0);
    assert_eq!(p.days[2].dynamic_tasks.len(), 1);
    match &p.dynamic_tasks[0] {
        DynamicTask::Flexible { task, .. } => assert_eq!(p.days[0].dynamic_tasks[0], task.id),
        _ => panic!("expected the flexible task"),
    }
}

#[test]
fn master_list_keeps_date_order() {
    // Date first; on one date fixed tasks come before flexible ones.
    let mut p = Planner::new(Config::new(at(8, 0), at(21, 0)));
    p.add_dynamic_on(flexible("later", MONDAY + 3), MONDAY).unwrap();
    p.add_dynamic_on(flexible("sooner", MONDAY), MONDAY).unwrap();
    let anchored = StaticTask::new(named("fix"), TimeRange::new(at(9, 0), at(10, 0)));
    p.add_dynamic_on(DynamicTask::new_fixed(anchored, MONDAY), MONDAY).unwrap();
    let kinds: Vec<(i64, bool)> = p
        .dynamic_tasks
        .iter()
        .map(|t| match t {
            DynamicTask::Fixed { date, .. } => (*date, true),
            DynamicTask::Flexible { date, .. } => (*date, false),
        })
        .collect();
    assert_eq!(kinds, vec![(MONDAY, true), (MONDAY, false), (MONDAY + 3, false)]);
}

#[test]
fn equal_tasks_keep_insertion_order() {
    // Two tasks that compare equal stay in the order they were added.
    let mut p = Planner::new(Config::new(at(8, 0), at(21, 0)));
    p.add_dynamic_on(flexible("first", MONDAY), MONDAY).unwrap();
    p.add_dynamic_on(flexible("second", MONDAY), MONDAY).unwrap();
    match (&p.dynamic_tasks[0], &p.dynamic_tasks[1]) {
        (
            DynamicTask::Flexible { task: a, .. },
            DynamicTask::Flexible { task: b, .. },
        ) => {
            assert_eq!(a.name, "first");
            assert_eq!(b.name, "second");
        }
        _ => panic!("expected two flexible tasks"),
    }
}

#[test]
fn priority_orders_equal_dates() {
    let mut p = Planner::new(Config::new(at(8, 0), at(21, 0)));
    p.add_dynamic_on(flexible("low", MONDAY).priority(5), MONDAY).unwrap();
    p.add_dynamic_on(flexible("high", MONDAY).priority(-3), MONDAY).unwrap();
    match &p.dynamic_tasks[0] {
        DynamicTask::Flexible { task, priority, .. } => {
            assert_eq!(task.name, "high");
            assert_eq!(*priority, -3);
        }
        _ => panic!("expected a flexible task"),
    }
}

#[test]
fn completing_a_dynamic_task_moves_it_to_the_log() {
    let mut p = Planner::new(Config::new(at(8, 0), at(21, 0)));
    let task = flexible("done-me", MONDAY);
    let task_copy = task.duplicate();
    p.add_dynamic_on(task, MONDAY).unwrap();
    let r = p.complete_dynamic_on(0, MONDAY, 12345);
    assert_eq!(r, Ok(()));
    assert_eq!(p.dynamic_tasks.len(), 0);
    assert_eq!(p.days[0].dynamic_tasks.len(), 0);
    assert_eq!(p.dynamic_done, vec![(task_copy, 12345)]);
}

#[test]
fn completing_one_of_two_keeps_the_other() {
    let mut p = Planner::new(Config::new(at(8, 0), at(21, 0)));
    p.add_dynamic_on(flexible("a", MONDAY), MONDAY).unwrap();
    p.add_dynamic_on(flexible("b", MONDAY), MONDAY).unwrap();
    p.complete_dynamic_on(0, MONDAY, 1).unwrap();
    assert_eq!(p.dynamic_tasks.len(), 1);
    assert_eq!(p.days[0].dynamic_tasks.len(), 1);
    match &p.dynamic_tasks[0] {
        DynamicTask::Flexible { task, .. } => {
            assert_eq!(task.name, "b");
            assert_eq!(p.days[0].dynamic_tasks[0], task.id);
        }
        _ => panic!("expected a flexible task"),
    }
}

#[test]
fn complete_dynamic_rejects_bad_index() {
    let mut p = Planner::new(Config::new(at(8, 0), at(21, 0)));
    let r = p.complete_dynamic_on(0, MONDAY, 1);
    assert_eq!(r, Err(PlanError::NoSuchDynamicTask { index: 0 }));
}

#[test]
fn stale_reference_is_reported() {
    // A reference whose task has left the master list is rejected.
    let mut p = Planner::new(Config::new(at(8, 0), at(21, 0)));
    p.days[0].dynamic_tasks.push(42);
    let r = p.complete_dynamic_on(0, MONDAY, 1);
    assert_eq!(r, Err(PlanError::MissingFromMaster));
}

#[test]
fn nth_day_rejects_out_of_range() {
    let mut p = Planner::new(Config::new(at(8, 0), at(21, 0)));
    assert!(p.nth_day(6).is_ok());
    assert_eq!(p.nth_day(7).err(), Some(PlanError::DayOutOfRange { given: 7 }));
    assert_eq!(p.nth_day_mut(8).err(), Some(PlanError::DayOutOfRange { given: 8 }));
}

#[test]
fn error_messages_name_the_failure() {
    assert_eq!(PlanError::DateInPast.message(), "a task cannot start in the past");
    assert_eq!(
        PlanError::DayOutOfRange { given: 9 }.message(),
        "expected a day index of at most 6"
    );
}

#[test]
fn add_dynamic_reads_the_clock() {
    let mut p = Planner::new(Config::new(at(8, 0), at(21, 0)));
    // A day number far in the future is never in the past.
    assert_eq!(p.add_dynamic(flexible("future", 1_100_000)), Ok(()));
    assert_eq!(p.dynamic_tasks.len(), 1);
    // Day 1 of the calendar lies long before any present clock reading.
    assert_eq!(p.add_dynamic(flexible("ancient", 1)), Err(PlanError::DateInPast));
    assert_eq!(p.dynamic_tasks.len(), 1);
}

#[test]
fn todays_schedule_of_an_empty_planner_is_one_free_window() {
    let mut p = Planner::new(Config::new(at(8, 0), at(21, 0)));
    let whole = vec![Schedule::Free(TimeRange { start: at(8, 0), end: at(21, 0) })];
    assert_eq!(p.get_freetime_current(), whole);
    let (sched, diags) = p.get_schedule_with_dynamics();
    assert_eq!(sched, whole);
    assert_eq!(diags.len(), 0);
    assert_eq!(p.current_day().static_tasks.len(), 0);
    assert_eq!(p.complete_dynamic(0), Err(PlanError::NoSuchDynamicTask { index: 0 }));
    p.current_day_mut()
        .add_static(StaticTask::new(named("walk"), TimeRange::new(at(9, 0), at(10, 0))));
    assert_eq!(p.current_day().static_tasks.len(), 1);
}

#[test]
fn err_idx_carries_its_fields() {
    let e = ErrIdx::new(4, "missing".to_string());
    assert_eq!(e.idx, 4);
    assert_eq!(e.err, "missing");
}
