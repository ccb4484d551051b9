use devlog::report::{generate_report, report_file_name};
use devlog::store::{Store, StoreError};

fn sample() -> Store {
    let mut st = Store::new();
    st.ensure_default_categories("t0");
    st.create_sprint("2024-01-01", None, Some("Alpha".into()), "s1", "t1").unwrap();
    st.add_daily_entry("s1", "2024-01-03", "tasks", "Ship", Some("v2".into()), "e1", "2024-01-03T10:00:00Z").unwrap();
    st.add_daily_entry("s1", "2024-01-02", "tasks", "Plan", None, "e2", "2024-01-02T10:00:00Z").unwrap();
    st.add_daily_entry("s1", "2024-01-02", "meeting", "Standup", None, "e3", "2024-01-02T09:00:00Z").unwrap();
    st.add_daily_entry("s1", "2024-01-02", "meeting", "Retro", None, "e4", "2024-01-02T08:00:00Z").unwrap();
    st
}

#[test]
fn report_orders_dates_then_categories() {
    let st = sample();
    let out = st.generate_report("s1", &None, &None, &None, "NOW").unwrap();
    assert_eq!(out.total_items, 4);
    let expected = "# Sprint Report: Alpha\n\n\
- Sprint ID: `s1`\n\
- Sprint Code: `sprint-1`\n\
- Sprint Window: 2024-01-01 to 2024-01-14\n\
- Exported At: NOW\n\
- Included Items: 4\n\n\
## 2024-01-02\n\n\
### Meeting\n\
- Retro\n\
- Standup\n\n\
### Tasks\n\
- Plan\n\n\
## 2024-01-03\n\n\
### Tasks\n\
- Ship - v2\n\n";
    assert_eq!(out.markdown, expected);
}

#[test]
fn category_filter_drops_other_category_and_empty_dates() {
    let st = sample();
    let filter = Some(vec!["meeting".to_string()]);
    let out = st.generate_report("s1", &None, &None, &filter, "NOW").unwrap();
    assert_eq!(out.total_items, 2);
    assert!(out.markdown.contains("## 2024-01-02"));
    assert!(!out.markdown.contains("## 2024-01-03"));
    assert!(!out.markdown.contains("### Tasks"));
    assert!(!out.markdown.contains("Plan"));
}

#[test]
fn date_filters_and_empty_result() {
    let st = sample();
    let from = Some("2024-01-05".to_string());
    let to = Some("2024-01-09".to_string());
    let out = st.generate_report("s1", &from, &to, &Some(vec![]), "NOW").unwrap();
    assert_eq!(out.total_items, 0);
    assert!(out.markdown.contains("- Report From: 2024-01-05\n- Report To: 2024-01-09\n"));
    assert!(out.markdown.ends_with("- Included Items: 0\n\nNo items found for the selected filters.\n"));
}

#[test]
fn report_for_missing_sprint_fails() {
    let st = sample();
    assert!(matches!(st.generate_report("nope", &None, &None, &None, "NOW"), Err(StoreError::NotFound(_))));
}

#[test]
fn unknown_category_shows_its_id_and_open_window() {
    let mut st = sample();
    st.sprints[0].end_date = None;
    st.entries[0].category_id = "legacy-cat".to_string();
    let sprint = st.sprints[0].clone();
    let (md, n) = generate_report(&sprint, &st.entries, &st.categories, &None, &None, &None, "X");
    assert_eq!(n, 4);
    assert!(md.contains("- Sprint Window: 2024-01-01 to open\n"));
    assert!(md.contains("### legacy-cat\n- Ship - v2\n"));
}

#[test]
fn header_fields_read_back() {
    let st = sample();
    let out = st.generate_report("s1", &None, &None, &None, "STAMP").unwrap();
    let field = |key: &str| -> String {
        let line = out.markdown.lines().find(|l| l.starts_with(key)).unwrap();
        line[key.len()..].trim_matches('`').to_string()
    };
    assert_eq!(field("- Sprint ID: "), st.sprints[0].id);
    assert_eq!(field("- Sprint Code: "), st.sprints[0].code);
    assert_eq!(field("- Sprint Window: "), "2024-01-01 to 2024-01-14");
}

#[test]
fn report_file_name_uses_slug() {
    assert_eq!(report_file_name("Alpha Release!", "20240101120000"), "report-alpha-release-20240101120000.md");
}

#[test]
fn identical_inputs_give_identical_reports() {
    let st = sample();
    let a = st.generate_report("s1", &None, &None, &None, "T").unwrap();
    let b = st.generate_report("s1", &None, &None, &None, "T").unwrap();
    assert_eq!(a, b);
}

#[test]
fn empty_category_filter_means_all_categories() {
    let st = sample();
    let all = st.generate_report("s1", &None, &None, &None, "NOW").unwrap();
    let empty = st.generate_report("s1", &None, &None, &Some(vec![]), "NOW").unwrap();
    assert_eq!(all, empty);
    assert_eq!(empty.total_items, 4);
}

#[test]
fn header_reader_returns_sprint_fields() {
    let st = sample();
    let out = st.generate_report("s1", &None, &None, &None, "NOW").unwrap();
    let fields = devlog::report::report_header_fields(&out.markdown);
    assert_eq!(
        fields,
        Some(("s1".to_string(), "sprint-1".to_string(), "2024-01-01 to 2024-01-14".to_string()))
    );
    assert_eq!(devlog::report::report_header_fields("# title\nno header"), None);
}
