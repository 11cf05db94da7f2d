use lunite::DynamicTask;
use lunite::PartOfDay;
use lunite::PlanError;
use lunite::TagSearch;
use lunite::Task;
use lunite::TimeRange;

fn at(h: u32, m: u32) -> u32 {
    h * 3600 + m * 60
}

fn tags(ts: &[&str]) -> Vec<String> {
    ts.iter().map(|t| t.to_string()).collect()
}

#[test]
fn time_range_duration() {
    let r = TimeRange::new(at(10, 0), at(11, 30));
    assert_eq!(r.to_duration(), 90 * 60);
}

#[test]
fn time_range_overlap() {
    let a = TimeRange::new(at(10, 0), at(12, 0));
    assert!(a.overlap(&TimeRange::new(at(11, 0), at(13, 0))));
    assert!(a.overlap(&TimeRange::new(at(9, 0), at(11, 0))));
    assert!(a.overlap(&TimeRange::new(at(10, 30), at(11, 30))));
    assert!(!a.overlap(&TimeRange::new(at(12, 0), at(13, 0))));
    assert!(!a.overlap(&TimeRange::new(at(8, 0), at(10, 0))));
}

#[test]
fn time_range_subset() {
    let outer = TimeRange::new(at(10, 0), at(12, 0));
    assert!(TimeRange::new(at(10, 30), at(11, 30)).subset(&outer));
    assert!(TimeRange::new(at(10, 0), at(12, 0)).subset(&outer));
    assert!(!TimeRange::new(at(9, 30), at(11, 0)).subset(&outer));
    assert!(!TimeRange::new(at(11, 0), at(12, 30)).subset(&outer));
}

#[test]
fn named_parts_have_canonical_windows() {
    assert_eq!(
        PartOfDay::Morning.fixed_from_part(),
        Ok(PartOfDay::Fixed(TimeRange { start: at(4, 0), end: at(12, 0) }))
    );
    assert_eq!(
        PartOfDay::Afternoon.fixed_from_part(),
        Ok(PartOfDay::Fixed(TimeRange { start: at(12, 0), end: at(18, 0) }))
    );
    assert_eq!(
        PartOfDay::Evening.fixed_from_part(),
        Ok(PartOfDay::Fixed(TimeRange { start: at(18, 0), end: at(21, 0) }))
    );
    assert_eq!(
        PartOfDay::Night.fixed_from_part(),
        Ok(PartOfDay::Fixed(TimeRange { start: at(21, 0), end: at(24, 0) }))
    );
}

#[test]
fn explicit_window_has_no_named_part() {
    let w = PartOfDay::Fixed(TimeRange { start: at(9, 0), end: at(10, 0) });
    assert_eq!(w.fixed_from_part(), Err(PlanError::AlreadyFixed));
}

#[test]
fn task_new_keeps_name_and_description() {
    let t = Task::new("read".to_string(), "a chapter".to_string());
    assert_eq!(t.name, "read");
    assert_eq!(t.description, "a chapter");
}

#[test]
fn split_fragment_carries_indexed_name_and_length() {
    let t = DynamicTask::new_flexible(
        Task::new("run".to_string(), "around the block".to_string()),
        5,
        3600,
        PartOfDay::Morning,
        true,
    );
    let frag = t.fixed_split(600, 12).unwrap();
    match (t, frag) {
        (
            DynamicTask::Flexible { task: orig, .. },
            DynamicTask::Flexible { task, length, around, can_split, date, priority },
        ) => {
            assert_eq!(task.name, "run-12");
            assert_eq!(task.description, "around the block");
            assert_eq!(task.id, orig.id);
            assert_eq!(length, 600);
            assert_eq!(around, PartOfDay::Morning);
            assert!(can_split);
            assert_eq!(date, 5);
            assert_eq!(priority, 0);
        }
        _ => panic!("expected flexible tasks"),
    }
}

#[test]
fn splitting_a_fixed_task_fails() {
    let anchored = lunite::StaticTask::new(
        Task::new("fix".to_string(), String::new()),
        TimeRange::new(at(9, 0), at(10, 0)),
    );
    let t = DynamicTask::new_fixed(anchored, 5);
    assert_eq!(t.fixed_split(600, 1), Err(PlanError::NotFlexible));
}

#[test]
fn tag_query_all_of() {
    let q = TagSearch::from_str(&"work home".to_string());
    assert_eq!(q, TagSearch::Has(tags(&["work", "home"])));
}

#[test]
fn tag_query_one_of() {
    let q = TagSearch::from_str(&"work|home|garden".to_string());
    assert_eq!(q, TagSearch::OneOf(tags(&["work", "home", "garden"])));
}

#[test]
fn tag_query_exactly() {
    let q = TagSearch::from_str(&"^work home$".to_string());
    assert_eq!(q, TagSearch::Only(tags(&["work", "home"])));
}

#[test]
fn tag_query_empty_string() {
    let q = TagSearch::from_str(&String::new());
    assert_eq!(q, TagSearch::Has(tags(&[""])));
}

#[test]
fn tag_query_edge_markers() {
    assert_eq!(TagSearch::from_str(&"^$".to_string()), TagSearch::Only(tags(&[""])));
    assert_eq!(TagSearch::from_str(&"^".to_string()), TagSearch::Has(tags(&["^"])));
    assert_eq!(
        TagSearch::from_str(&"a||b".to_string()),
        TagSearch::OneOf(tags(&["a", "", "b"]))
    );
}
