use devlog::legacy::{add_missing_categories, assign_missing_sprint_codes, ensure_default_categories};
use devlog::model::{AppData, Category, DailyEntry, Sprint};
use devlog::store::{Store, StoreError};

fn entry(id: &str, sprint: &str, cat: &str, title: &str) -> DailyEntry {
    DailyEntry {
        id: id.into(),
        sprint_id: sprint.into(),
        date: "2024-01-02".into(),
        category_id: cat.into(),
        title: title.into(),
        details: None,
        created_at: "t".into(),
    }
}

fn sprint(id: &str, code: &str, created: &str) -> Sprint {
    Sprint {
        id: id.into(),
        code: code.into(),
        name: "".into(),
        start_date: "2024-01-01".into(),
        end_date: None,
        created_at: created.into(),
    }
}

fn snapshot() -> AppData {
    AppData {
        categories: vec![],
        sprints: vec![sprint("s1", "sprint-2", "1"), sprint("s2", "sprint-2", "2"), sprint("", "x", "3")],
        entries: vec![
            entry("e1", "s1", "tasks", "one"),
            entry("", "s2", "code_review", "two"),
            entry("e3", "s1", "tasks", "  "),
            entry("e4", "", "tasks", "four"),
        ],
    }
}

#[test]
fn snapshot_is_prepared_before_import() {
    let mut data = snapshot();
    ensure_default_categories(&mut data, "now");
    assert_eq!(data.categories.len(), 3);
    assert!(assign_missing_sprint_codes(&mut data));
    assert_eq!(data.sprints[1].code, "sprint-3");
    add_missing_categories(&mut data, "now");
    assert_eq!(data.categories.len(), 4);
    assert_eq!(data.categories[3].id, "code_review");
    assert_eq!(data.categories[3].name, "Code Review");
}

#[test]
fn import_fills_an_empty_store() {
    let mut st = Store::new();
    assert_eq!(st.import_legacy(snapshot(), 99, "now"), Ok(true));
    assert_eq!(st.categories.len(), 4);
    assert_eq!(st.sprints.len(), 2);
    assert_eq!(st.sprints[0].name, "sprint-2");
    assert_eq!(st.sprints[1].code, "sprint-3");
    assert_eq!(st.entries.len(), 2);
    assert_eq!(st.entries[1].id, "entry-import-99-1");
}

#[test]
fn import_never_runs_twice() {
    let mut st = Store::new();
    st.import_legacy(snapshot(), 1, "now").unwrap();
    let before = st.clone();
    assert_eq!(st.import_legacy(snapshot(), 2, "later"), Ok(false));
    assert_eq!(st, before);
}

#[test]
fn import_of_an_unresolvable_entry_changes_nothing() {
    let mut st = Store::new();
    let data = AppData {
        categories: vec![Category { id: "c1".into(), name: "Tasks".into(), created_at: "t".into() }],
        sprints: vec![sprint("s1", "sprint-1", "1")],
        entries: vec![entry("e1", "s1", "tasks", "clash")],
    };
    let r = st.import_legacy(data, 1, "now");
    assert!(matches!(r, Err(StoreError::Import(_))));
    assert!(st.is_empty());
}

#[test]
fn an_id_without_words_gets_a_category_named_category() {
    let mut st = Store::new();
    let data = AppData {
        categories: vec![],
        sprints: vec![sprint("s1", "sprint-1", "1")],
        entries: vec![entry("e1", "s1", "-", "dash")],
    };
    assert_eq!(st.import_legacy(data, 1, "now"), Ok(true));
    let c = st.categories.iter().find(|c| c.id == "-").unwrap();
    assert_eq!(c.name, "Category");
    assert_eq!(st.entries.len(), 1);
}

#[test]
fn repair_flag_reports_the_p4_renumbering() {
    let mut data = AppData {
        categories: vec![],
        sprints: vec![
            sprint("a", "sprint-2", "2024-01-01T00:00:00Z"),
            sprint("b", "sprint-2", "2024-01-02T00:00:00Z"),
            sprint("c", "sprint-5", "2024-01-03T00:00:00Z"),
        ],
        entries: vec![],
    };
    assert!(assign_missing_sprint_codes(&mut data));
    let codes: Vec<&str> = data.sprints.iter().map(|s| s.code.as_str()).collect();
    assert_eq!(codes, vec!["sprint-2", "sprint-6", "sprint-5"]);
    assert!(!assign_missing_sprint_codes(&mut data));
}
