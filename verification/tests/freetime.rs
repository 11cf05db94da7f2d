use lunite::Config;
use lunite::Day;
use lunite::Schedule;
use lunite::StaticTask;
use lunite::Task;
use lunite::TimeRange;

fn at(h: u32, m: u32) -> u32 {
    h * 3600 + m * 60
}

fn named(name: &str) -> Task {
    Task::new(name.to_string(), String::new())
}

#[test]
fn empty_day_is_one_free_window() {
    let day = Day::new();
    let config = Config::new(at(8, 0), at(21, 0));
    let free = day.get_freetime(&config);
    assert_eq!(free, vec![Schedule::Free(TimeRange { start: at(8, 0), end: at(21, 0) })]);
}

#[test]
fn freetime_example_two_tasks() {
    // Config 08:00-21:00, tasks 08:00-10:00 and 11:00-12:00 leave
    // Static, Free(10-11), Static, Free(12-21).
    let mut day = Day::new();
    let config = Config::new(at(8, 0), at(21, 0));
    let t1 = StaticTask::new(named("t1"), TimeRange::new(at(8, 0), at(10, 0)));
    let t2 = StaticTask::new(named("t2"), TimeRange::new(at(11, 0), at(12, 0)));
    let t1_copy = t1.duplicate();
    let t2_copy = t2.duplicate();
    day.add_static(t1);
    day.add_static(t2);
    let free = day.get_freetime(&config);
    assert_eq!(
        free,
        vec![
            Schedule::Static(t1_copy),
            Schedule::Free(TimeRange { start: at(10, 0), end: at(11, 0) }),
            Schedule::Static(t2_copy),
            Schedule::Free(TimeRange { start: at(12, 0), end: at(21, 0) }),
        ]
    );
}

#[test]
fn freetime_covers_window_without_gaps() {
    // The emitted ranges tile the schedulable window exactly.
    let mut day = Day::new();
    let config = Config::new(at(6, 30), at(22, 0));
    day.add_static(StaticTask::new(named("a"), TimeRange::new(at(9, 0), at(10, 30))));
    day.add_static(StaticTask::new(named("b"), TimeRange::new(at(6, 30), at(7, 0))));
    day.add_static(StaticTask::new(named("c"), TimeRange::new(at(10, 30), at(11, 0))));
    let free = day.get_freetime(&config);
    let mut cursor = at(6, 30);
    let mut last_was_free = false;
    for entry in &free {
        let (s, e, is_free) = match entry {
            Schedule::Static(t) => (t.time.start, t.time.end, false),
            Schedule::Free(r) => (r.start, r.end, true),
            _ => panic!("unexpected entry kind"),
        };
        assert_eq!(s, cursor);
        assert!(s < e);
        assert!(!(is_free && last_was_free));
        last_was_free = is_free;
        cursor = e;
    }
    assert_eq!(cursor, at(22, 0));
}

#[test]
fn tasks_added_out_of_order_are_sorted() {
    let mut day = Day::new();
    day.add_static(StaticTask::new(named("late"), TimeRange::new(at(15, 0), at(16, 0))));
    day.add_static(StaticTask::new(named("early"), TimeRange::new(at(9, 0), at(10, 0))));
    assert_eq!(day.static_tasks[0].task.name, "early");
    assert_eq!(day.static_tasks[1].task.name, "late");
}

#[test]
fn completed_static_reclaims_its_window() {
    // A task marked done no longer appears; its slot is free time.
    let mut day = Day::new();
    let config = Config::new(at(8, 0), at(21, 0));
    let t1 = StaticTask::new(named("t1"), TimeRange::new(at(8, 0), at(10, 0)));
    let t2 = StaticTask::new(named("t2"), TimeRange::new(at(11, 0), at(12, 0)));
    let t2_copy = t2.duplicate();
    day.add_static(t1);
    day.add_static(t2);
    day.complete_static(0).unwrap();
    let free = day.get_freetime(&config);
    assert_eq!(
        free,
        vec![
            Schedule::Free(TimeRange { start: at(8, 0), end: at(11, 0) }),
            Schedule::Static(t2_copy),
            Schedule::Free(TimeRange { start: at(12, 0), end: at(21, 0) }),
        ]
    );
}

#[test]
fn completing_static_keeps_the_task() {
    // The task recurs weekly: completion only logs a timestamp.
    let mut day = Day::new();
    day.add_static(StaticTask::new(named("t"), TimeRange::new(at(8, 0), at(9, 0))));
    assert_eq!(day.static_done.len(), 0);
    day.complete_static(0).unwrap();
    assert_eq!(day.static_tasks.len(), 1);
    assert_eq!(day.static_done.len(), 1);
    assert_eq!(day.static_done[0].0, day.static_tasks[0].task.id);
}

#[test]
fn complete_static_rejects_bad_index() {
    let mut day = Day::new();
    let r = day.complete_static_at(3, 0);
    assert_eq!(r, Err(lunite::PlanError::NoSuchStaticTask { index: 3 }));
    assert_eq!(day.static_done.len(), 0);
}

#[test]
fn day_fully_booked_leaves_no_free_time() {
    let mut day = Day::new();
    let config = Config::new(at(8, 0), at(21, 0));
    let t = StaticTask::new(named("all"), TimeRange::new(at(8, 0), at(21, 0)));
    let t_copy = t.duplicate();
    day.add_static(t);
    let free = day.get_freetime(&config);
    assert_eq!(free, vec![Schedule::Static(t_copy)]);
}
