use devlog::cli::{
    build_all_details_text, build_day_text, date_counts, date_menu_options, pick_date, split_and_truncate,
    sprint_label, sprint_summary_lines, text_screen, truncate_lines, DatePick, MenuResult,
};
use devlog::model::{Category, DailyEntry, Sprint};

fn sprint(code: &str, name: &str) -> Sprint {
    Sprint {
        id: "s".into(),
        code: code.into(),
        name: name.into(),
        start_date: "2024-01-01".into(),
        end_date: None,
        created_at: "t".into(),
    }
}

fn entry(date: &str, cat: &str, title: &str, details: Option<&str>) -> DailyEntry {
    DailyEntry {
        id: title.into(),
        sprint_id: "s".into(),
        date: date.into(),
        category_id: cat.into(),
        title: title.into(),
        details: details.map(|d| d.into()),
        created_at: "t".into(),
    }
}

fn cats() -> Vec<Category> {
    vec![
        Category { id: "m".into(), name: "Meeting".into(), created_at: "t".into() },
        Category { id: "t".into(), name: "Tasks".into(), created_at: "t".into() },
    ]
}

#[test]
fn labels() {
    assert_eq!(sprint_label(&sprint("sprint-1", "  ")), "sprint-1");
    assert_eq!(sprint_label(&sprint("SPRINT-1", "sprint-1")), "sprint-1");
    assert_eq!(sprint_label(&sprint("", "Launch")), "Launch");
    assert_eq!(sprint_label(&sprint("sprint-1", "Launch")), "sprint-1 - Launch");
}

#[test]
fn truncation_notes_omitted_lines() {
    let lines: Vec<String> = (0..5).map(|i| i.to_string()).collect();
    assert_eq!(truncate_lines(lines.clone(), 5), lines);
    assert_eq!(truncate_lines(lines, 2), vec!["0", "1", "... (3 more lines not shown)"]);
    assert_eq!(split_and_truncate("a\r\nb\n\nc\n", 10), vec!["a", "b", "", "c"]);
    assert_eq!(split_and_truncate("a\nb\nc", 1), vec!["a", "... (2 more lines not shown)"]);
    assert_eq!(split_and_truncate("", 3), Vec::<String>::new());
}

#[test]
fn day_text_groups_by_label() {
    let es = vec![
        entry("2024-01-02", "t", "b", None),
        entry("2024-01-02", "m", "a", Some("x")),
        entry("2024-01-03", "m", "c", None),
    ];
    assert_eq!(build_day_text("2024-01-02", &es, &cats()), "2024-01-02\n\nMeeting\n- a - x\n\nTasks\n- b\n\n");
    assert_eq!(build_day_text("2024-02-01", &es, &cats()), "2024-02-01\n\nNo entries for this date.");
}

#[test]
fn all_details_groups_by_date_and_label() {
    let es = vec![
        entry("2024-01-03", "m", "c", None),
        entry("2024-01-02", "t", "b", None),
        entry("2024-01-02", "zz", "a", None),
    ];
    assert_eq!(
        build_all_details_text(&es, &cats()),
        "2024-01-02\n  Tasks\n  - b\n  zz\n  - a\n\n2024-01-03\n  Meeting\n  - c\n\n"
    );
    assert_eq!(build_all_details_text(&vec![], &cats()), "No entries in this sprint yet.");
}

#[test]
fn summary_lists_dates_latest_first() {
    let es = vec![
        entry("2024-01-02", "t", "b", None),
        entry("2024-01-03", "m", "c", None),
        entry("2024-01-02", "m", "a", None),
    ];
    let counts = date_counts(&es);
    assert_eq!(counts, vec![("2024-01-03".to_string(), 1), ("2024-01-02".to_string(), 2)]);
    let lines = sprint_summary_lines(&sprint("sprint-1", "Launch"), &es);
    assert_eq!(
        lines,
        vec![
            "Sprint: sprint-1 - Launch",
            "Window: 2024-01-01 to open",
            "Total items: 3",
            "",
            "Dates:",
            "- 2024-01-03: 1 items",
            "- 2024-01-02: 2 items",
        ]
    );
    let empty = sprint_summary_lines(&sprint("sprint-1", "Launch"), &vec![]);
    assert_eq!(empty.last().unwrap(), "- No entries yet");
}

#[test]
fn date_picker_maps_choices() {
    let counts = vec![("2024-01-03".to_string(), 1), ("2024-01-02".to_string(), 2)];
    assert_eq!(date_menu_options(&counts), vec!["2024-01-03 (1 items)", "2024-01-02 (2 items)", "Back"]);
    assert_eq!(pick_date(&counts, MenuResult::Selected(1)), DatePick::Date("2024-01-02".into()));
    assert_eq!(pick_date(&counts, MenuResult::Selected(2)), DatePick::Back);
    assert_eq!(pick_date(&counts, MenuResult::Quit), DatePick::Quit);
    assert_eq!(text_screen(&vec!["x".to_string()]), vec!["x", "", "Press Space/Enter to go back."]);
}
