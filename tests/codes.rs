use devlog::codes::{format_sprint_code, next_sprint_code, normalize_sprint_codes, sprint_number};
use devlog::model::Sprint;

fn sprint(id: &str, code: &str, name: &str, created: &str) -> Sprint {
    Sprint {
        id: id.to_string(),
        code: code.to_string(),
        name: name.to_string(),
        start_date: "2024-01-01".to_string(),
        end_date: None,
        created_at: created.to_string(),
    }
}

#[test]
fn sprint_number_reads_plain_and_prefixed_forms() {
    assert_eq!(sprint_number("12"), Some(12));
    assert_eq!(sprint_number("  +7 "), Some(7));
    assert_eq!(sprint_number("sprint-3"), Some(3));
    assert_eq!(sprint_number("Sprint 4"), Some(4));
    assert_eq!(sprint_number("SPRINT_5"), Some(5));
    assert_eq!(sprint_number("sprint--9"), Some(9));
    assert_eq!(sprint_number("sprint"), None);
    assert_eq!(sprint_number("release-2"), None);
    assert_eq!(sprint_number(""), None);
    assert_eq!(sprint_number("4294967296"), None);
    assert_eq!(sprint_number("4294967295"), Some(4294967295));
}

#[test]
fn format_sprint_code_writes_canonical_form() {
    assert_eq!(format_sprint_code(0), "sprint-0");
    assert_eq!(format_sprint_code(42), "sprint-42");
    assert_eq!(format_sprint_code(4294967296), "sprint-4294967296");
}

#[test]
fn next_code_is_one_above_highest_number() {
    let sprints = vec![
        sprint("a", "sprint-2", "x", "1"),
        sprint("b", "", "Sprint 7", "2"),
        sprint("c", "weird", "none", "3"),
    ];
    assert_eq!(next_sprint_code(&sprints), "sprint-8");
    assert_eq!(next_sprint_code(&Vec::new()), "sprint-1");
}

#[test]
fn normalization_renumbers_the_later_duplicate() {
    let mut sprints = vec![
        sprint("a", "sprint-2", "A", "2024-01-01T00:00:00Z"),
        sprint("b", "sprint-2", "B", "2024-01-02T00:00:00Z"),
        sprint("c", "sprint-5", "C", "2024-01-03T00:00:00Z"),
    ];
    let changed = normalize_sprint_codes(&mut sprints);
    assert!(changed);
    assert_eq!(sprints[0].code, "sprint-2");
    assert_eq!(sprints[1].code, "sprint-6");
    assert_eq!(sprints[2].code, "sprint-5");
}

#[test]
fn normalization_follows_creation_time_not_position() {
    let mut sprints = vec![
        sprint("late", "sprint-1", "L", "2024-02-01"),
        sprint("early", "sprint-1", "E", "2024-01-01"),
    ];
    normalize_sprint_codes(&mut sprints);
    assert_eq!(sprints[1].code, "sprint-1");
    assert_eq!(sprints[0].code, "sprint-2");
}

#[test]
fn normalization_is_idempotent() {
    let mut sprints = vec![
        sprint("a", "", "Sprint 3", "1"),
        sprint("b", "Sprint-3", "", "2"),
        sprint("c", "junk", "junk", "3"),
        sprint("d", " 2 ", "", "4"),
    ];
    assert!(normalize_sprint_codes(&mut sprints));
    let once = sprints.clone();
    assert_eq!(once[0].code, "sprint-3");
    assert_eq!(once[1].code, "sprint-4");
    assert_eq!(once[2].code, "sprint-5");
    assert_eq!(once[3].code, "sprint-2");
    assert!(!normalize_sprint_codes(&mut sprints));
    assert_eq!(sprints, once);
}
