use devlog::text::{humanize_category_id, normalize_shortcut_accelerator, slugify};

#[test]
fn slugify_collapses_separators() {
    assert_eq!(slugify("Sprint  12 -- Final_Push"), "sprint-12-final-push");
    assert_eq!(slugify("--Hello, World!--"), "hello-world");
    assert_eq!(slugify("!!!"), "value");
    assert_eq!(slugify(""), "value");
}

#[test]
fn humanize_capitalizes_words() {
    assert_eq!(humanize_category_id("code-review_notes"), "Code Review Notes");
    assert_eq!(humanize_category_id("  BUG  fixes "), "Bug Fixes");
    assert_eq!(humanize_category_id("   "), "Category");
    assert_eq!(humanize_category_id("--"), "Category");
    assert_eq!(humanize_category_id("_"), "Category");
}

#[test]
fn shortcut_is_trimmed_or_dropped() {
    assert_eq!(normalize_shortcut_accelerator(Some("  Cmd+K ".to_string())), Some("Cmd+K".to_string()));
    assert_eq!(normalize_shortcut_accelerator(Some("   ".to_string())), None);
    assert_eq!(normalize_shortcut_accelerator(None), None);
}
