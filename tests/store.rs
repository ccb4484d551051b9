use devlog::model::{Category, DailyEntry};
use devlog::store::{Store, StoreError};

fn seeded() -> Store {
    let mut st = Store::new();
    st.ensure_default_categories("2024-01-01T00:00:00Z");
    st
}

#[test]
fn defaults_are_seeded_once() {
    let mut st = seeded();
    let ids: Vec<String> = st.list_categories().into_iter().map(|c| c.id).collect();
    assert_eq!(ids, vec!["pr-reviews", "meeting", "tasks"]);
    st.ensure_default_categories("later");
    assert_eq!(st.categories.len(), 3);
}

#[test]
fn created_category_is_listed_once_and_case_duplicates_conflict() {
    let mut st = seeded();
    let c = st.create_category("  Design Work ", 1700, "2024-02-01T00:00:00Z").unwrap();
    assert_eq!(c.name, "Design Work");
    assert_eq!(c.id, "cat-design-work-1700");
    assert_eq!(c.created_at, "2024-02-01T00:00:00Z");
    let listed = st.list_categories();
    assert_eq!(listed.iter().filter(|x| x.id == c.id).count(), 1);
    let again = st.create_category("design WORK", 1800, "2024-02-02T00:00:00Z");
    assert!(matches!(again, Err(StoreError::Conflict(_))));
    assert_eq!(st.categories.len(), 4);
}

#[test]
fn blank_category_name_is_a_validation_error() {
    let mut st = seeded();
    assert!(matches!(st.create_category("   ", 1, "t"), Err(StoreError::Validation(_))));
}

#[test]
fn same_stamp_and_slug_is_a_storage_error() {
    let mut st = seeded();
    st.create_category("Ops", 5, "t").unwrap();
    st.update_category("cat-ops-5", "Other").unwrap();
    assert!(matches!(st.create_category("ops", 5, "t"), Err(StoreError::Storage(_))));
}

#[test]
fn rename_category_checks_uniqueness_and_existence() {
    let mut st = seeded();
    assert!(matches!(st.update_category("meeting", "TASKS"), Err(StoreError::Conflict(_))));
    assert!(matches!(st.update_category("nope", "Fresh"), Err(StoreError::NotFound(_))));
    assert!(matches!(st.update_category(" ", "Fresh"), Err(StoreError::Validation(_))));
    let c = st.update_category(" meeting ", " MEETING ").unwrap();
    assert_eq!(c.id, "meeting");
    assert_eq!(c.name, "MEETING");
    assert_eq!(st.categories[1].name, "MEETING");
}

fn store_with_entries() -> Store {
    let mut st = seeded();
    st.create_sprint("2024-01-01", None, None, "s1", "2024-01-01T00:00:00Z").unwrap();
    for (i, cat) in ["meeting", "meeting", "tasks"].iter().enumerate() {
        st.add_daily_entry("s1", "2024-01-02", cat, "work", None, &format!("e{i}"), "t").unwrap();
    }
    st
}

#[test]
fn deleting_the_last_category_fails() {
    let mut st = Store::new();
    st.categories.push(Category { id: "only".into(), name: "Only".into(), created_at: "t".into() });
    assert!(matches!(st.delete_category("only", None), Err(StoreError::Validation(_))));
    assert_eq!(st.categories.len(), 1);
}

#[test]
fn deleting_with_replacement_moves_every_entry() {
    let mut st = store_with_entries();
    st.delete_category("meeting", Some("tasks".to_string())).unwrap();
    assert_eq!(st.entries.len(), 3);
    assert!(st.entries.iter().all(|e| e.category_id == "tasks"));
    assert!(st.categories.iter().all(|c| c.id != "meeting"));
    assert_eq!(st.categories.len(), 2);
}

#[test]
fn deleting_without_replacement_uses_oldest_other() {
    let mut st = store_with_entries();
    st.delete_category("tasks", None).unwrap();
    assert_eq!(st.entries[2].category_id, "pr-reviews");
}

#[test]
fn delete_category_errors() {
    let mut st = store_with_entries();
    assert!(matches!(st.delete_category("meeting", Some("meeting".into())), Err(StoreError::Validation(_))));
    assert!(matches!(st.delete_category("meeting", Some("ghost".into())), Err(StoreError::NotFound(_))));
    assert!(matches!(st.delete_category("ghost", None), Err(StoreError::NotFound(_))));
    assert!(matches!(st.delete_category("", None), Err(StoreError::Validation(_))));
    assert_eq!(st.categories.len(), 3);
    st.delete_category("pr-reviews", Some("ghost".into())).unwrap();
    assert_eq!(st.categories.len(), 2);
}

#[test]
fn create_sprint_computes_window_and_code() {
    let mut st = seeded();
    let s = st.create_sprint(" 2024-01-01 ", None, None, "s1", "t1").unwrap();
    assert_eq!(s.code, "sprint-1");
    assert_eq!(s.name, "sprint-1");
    assert_eq!(s.start_date, "2024-01-01");
    assert_eq!(s.end_date.as_deref(), Some("2024-01-14"));
    let s2 = st.create_sprint("2024-02-26", Some(7), Some("  Launch ".into()), "s2", "t2").unwrap();
    assert_eq!(s2.code, "sprint-2");
    assert_eq!(s2.name, "Launch");
    assert_eq!(s2.end_date.as_deref(), Some("2024-03-03"));
}

#[test]
fn create_sprint_rejects_bad_input() {
    let mut st = seeded();
    assert!(matches!(st.create_sprint("", None, None, "s", "t"), Err(StoreError::Validation(_))));
    assert!(matches!(st.create_sprint("2024-13-01", None, None, "s", "t"), Err(StoreError::Validation(_))));
    assert!(matches!(st.create_sprint("01/02/2024", None, None, "s", "t"), Err(StoreError::Validation(_))));
    assert!(matches!(st.create_sprint("2024-01-01", Some(10), None, "s", "t"), Err(StoreError::Validation(_))));
    st.create_sprint("2024-01-01", None, None, "s", "t").unwrap();
    assert!(matches!(st.create_sprint("2024-01-01", None, None, "s", "t"), Err(StoreError::Storage(_))));
}

#[test]
fn rename_sprint_keeps_code() {
    let mut st = seeded();
    st.create_sprint("2024-01-01", None, None, "s1", "t").unwrap();
    let s = st.update_sprint_name(" s1 ", " New ").unwrap();
    assert_eq!(s.name, "New");
    assert_eq!(s.code, "sprint-1");
    assert!(matches!(st.update_sprint_name("zz", "x"), Err(StoreError::NotFound(_))));
    assert!(matches!(st.update_sprint_name("s1", " "), Err(StoreError::Validation(_))));
}

#[test]
fn delete_sprint_guards_active_and_cascades() {
    let mut st = seeded();
    st.create_sprint("2024-01-01", None, None, "old", "2024-01-01T00:00:00Z").unwrap();
    st.create_sprint("2024-01-15", None, None, "new", "2024-01-15T00:00:00Z").unwrap();
    st.add_daily_entry("old", "2024-01-02", "tasks", "a", None, "e1", "t").unwrap();
    st.add_daily_entry("new", "2024-01-16", "tasks", "b", None, "e2", "t").unwrap();
    assert!(matches!(st.delete_sprint("new", "2024-01-20"), Err(StoreError::Validation(_))));
    assert!(matches!(st.delete_sprint("gone", "2024-01-20"), Err(StoreError::NotFound(_))));
    st.delete_sprint("old", "2024-01-20").unwrap();
    assert_eq!(st.sprints.len(), 1);
    assert_eq!(st.entries.len(), 1);
    assert_eq!(st.entries[0].id, "e2");
}

#[test]
fn add_entry_validates_and_trims() {
    let mut st = seeded();
    st.create_sprint("2024-01-01", None, None, "s1", "t").unwrap();
    let e = st.add_daily_entry("s1", "2024-01-02", "tasks", "  Fix bug ", Some("   ".into()), "e1", "now").unwrap();
    assert_eq!(e.title, "Fix bug");
    assert_eq!(e.details, None);
    let e2 = st.add_daily_entry("s1", "2024-01-02", "tasks", "x", Some(" more ".into()), "e2", "now").unwrap();
    assert_eq!(e2.details.as_deref(), Some("more"));
    assert!(matches!(st.add_daily_entry("s1", "2024-01-02", "tasks", " ", None, "e3", "n"), Err(StoreError::Validation(_))));
    assert!(matches!(st.add_daily_entry("s1", " ", "tasks", "t", None, "e3", "n"), Err(StoreError::Validation(_))));
    assert!(matches!(st.add_daily_entry("zz", "d", "tasks", "t", None, "e3", "n"), Err(StoreError::NotFound(_))));
    assert!(matches!(st.add_daily_entry("s1", "d", "zz", "t", None, "e3", "n"), Err(StoreError::NotFound(_))));
    assert!(matches!(st.add_daily_entry("s1", "d", "tasks", "t", None, "e1", "n"), Err(StoreError::Storage(_))));
    assert_eq!(st.entries.len(), 2);
}

#[test]
fn entries_are_listed_by_date_category_and_time() {
    let mut st = seeded();
    st.create_sprint("2024-01-01", None, None, "s1", "t").unwrap();
    st.add_daily_entry("s1", "2024-01-03", "tasks", "c", None, "e1", "3").unwrap();
    st.add_daily_entry("s1", "2024-01-02", "tasks", "b", None, "e2", "2").unwrap();
    st.add_daily_entry("s1", "2024-01-02", "meeting", "a", None, "e3", "1").unwrap();
    let got: Vec<DailyEntry> = st.list_entries_for_sprint("s1");
    let ids: Vec<&str> = got.iter().map(|e| e.id.as_str()).collect();
    assert_eq!(ids, vec!["e3", "e2", "e1"]);
}

#[test]
fn sprints_by_start_are_latest_first() {
    let mut st = seeded();
    st.create_sprint("2024-01-15", None, None, "b", "2").unwrap();
    st.create_sprint("2024-01-01", None, None, "a", "1").unwrap();
    st.create_sprint("2024-01-15", None, None, "c", "3").unwrap();
    let ids: Vec<String> = st.list_sprints_by_start().into_iter().map(|s| s.id).collect();
    assert_eq!(ids, vec!["c", "b", "a"]);
}

#[test]
fn error_messages_are_readable() {
    let mut st = seeded();
    let err = st.create_category(" ", 1, "t").unwrap_err();
    assert_eq!(err.message(), "category name is required");
    let err = st.delete_sprint("none", "2024-01-01").unwrap_err();
    assert_eq!(err.message(), "sprint not found");
}

#[test]
fn categories_are_listed_oldest_first() {
    let mut st = Store::new();
    st.create_category("Later", 1, "2024-03-01T00:00:00Z").unwrap();
    st.create_category("Earlier", 2, "2024-01-01T00:00:00Z").unwrap();
    let names: Vec<String> = st.list_categories().into_iter().map(|c| c.name).collect();
    assert_eq!(names, vec!["Earlier", "Later"]);
}

#[test]
fn renames_return_the_stored_rows() {
    let mut st = seeded();
    let c = st.update_category("tasks", "Chores").unwrap();
    assert_eq!(c, st.categories[2]);
    assert_eq!(c.created_at, "2024-01-01T00:00:00Z");
    st.create_sprint("2024-01-01", Some(7), None, "s1", "t1").unwrap();
    let s = st.update_sprint_name("s1", "Renamed").unwrap();
    assert_eq!(s, st.sprints[0]);
    assert_eq!(s.code, "sprint-1");
    assert_eq!(s.end_date.as_deref(), Some("2024-01-07"));
    assert_eq!(s.created_at, "t1");
}
