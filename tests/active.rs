use devlog::active::{pick_active_sprint_id, within_range};
use devlog::model::Sprint;

fn sprint(id: &str, start: &str, end: Option<&str>, created: &str) -> Sprint {
    Sprint {
        id: id.to_string(),
        code: format!("sprint-{id}"),
        name: id.to_string(),
        start_date: start.to_string(),
        end_date: end.map(|e| e.to_string()),
        created_at: created.to_string(),
    }
}

#[test]
fn active_sprint_prefers_window_then_newest() {
    let sprints = vec![
        sprint("1", "2024-01-01", Some("2024-01-14"), "2024-01-01T00:00:00Z"),
        sprint("2", "2024-01-15", None, "2024-01-15T00:00:00Z"),
    ];
    assert_eq!(pick_active_sprint_id(&sprints, "2024-01-20"), Some("2".to_string()));
    assert_eq!(pick_active_sprint_id(&sprints, "2023-12-01"), Some("2".to_string()));
    assert_eq!(pick_active_sprint_id(&sprints, "2024-01-10"), Some("1".to_string()));
    assert_eq!(pick_active_sprint_id(&Vec::new(), "2024-01-10"), None);
}

#[test]
fn equal_creation_times_pick_the_first_listed() {
    let sprints = vec![
        sprint("a", "2024-01-01", None, "same"),
        sprint("b", "2024-01-01", None, "same"),
    ];
    assert_eq!(pick_active_sprint_id(&sprints, "2024-02-01"), Some("a".to_string()));
}

#[test]
fn range_bounds_are_inclusive() {
    let from = Some("2024-01-02".to_string());
    let to = Some("2024-01-04".to_string());
    assert!(within_range("2024-01-02", &from, &to));
    assert!(within_range("2024-01-04", &from, &to));
    assert!(!within_range("2024-01-01", &from, &to));
    assert!(!within_range("2024-01-05", &from, &to));
    assert!(within_range("1999-01-01", &None, &None));
}
