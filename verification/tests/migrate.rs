use zerooraclaw::entry::MemoryCategory;
use zerooraclaw::migrate::{
    collect_source_entries, normalize_key, parse_category, parse_markdown_file,
    parse_structured_memory_line, split_lines, MarkdownSource,
};

#[test]
fn parse_structured_markdown_line() {
    let line = "**user_pref**: likes Rust";
    let parsed = parse_structured_memory_line(line).unwrap();
    assert_eq!(parsed.0, "user_pref");
    assert_eq!(parsed.1, "likes Rust");
}

#[test]
fn parse_unstructured_markdown_generates_key() {
    let entries = parse_markdown_file("- plain note", MemoryCategory::Core, "core");
    assert_eq!(entries.len(), 1);
    assert!(entries[0].key.starts_with("openclaw_core_"));
    assert_eq!(entries[0].content, "plain note");
}

#[test]
fn parse_category_handles_all_variants() {
    assert_eq!(parse_category("core"), MemoryCategory::Core);
    assert_eq!(parse_category("daily"), MemoryCategory::Daily);
    assert_eq!(parse_category("conversation"), MemoryCategory::Conversation);
    assert_eq!(parse_category(""), MemoryCategory::Core);
    assert_eq!(
        parse_category("custom_type"),
        MemoryCategory::Custom("custom_type".to_string())
    );
}

#[test]
fn parse_category_case_insensitive() {
    assert_eq!(parse_category("CORE"), MemoryCategory::Core);
    assert_eq!(parse_category("Daily"), MemoryCategory::Daily);
    assert_eq!(parse_category("CONVERSATION"), MemoryCategory::Conversation);
}

#[test]
fn normalize_key_handles_empty_string() {
    let key = normalize_key("", 42);
    assert_eq!(key, "openclaw_42");
}

#[test]
fn normalize_key_trims_whitespace() {
    let key = normalize_key("  my_key  ", 0);
    assert_eq!(key, "my_key");
}

#[test]
fn parse_structured_markdown_rejects_empty_key() {
    assert!(parse_structured_memory_line("****:value").is_none());
}

#[test]
fn parse_structured_markdown_rejects_empty_value() {
    assert!(parse_structured_memory_line("**key**:").is_none());
}

#[test]
fn parse_structured_markdown_rejects_no_stars() {
    assert!(parse_structured_memory_line("key: value").is_none());
}

#[test]
fn collect_entries_from_markdown_only() {
    let files = vec![MarkdownSource {
        stem: "openclaw_core".to_string(),
        content: "- **pref**: likes Rust\n".to_string(),
        category: MemoryCategory::Core,
    }];

    let entries = collect_source_entries(&files);
    assert_eq!(entries.len(), 1);
    assert_eq!(entries[0].content, "likes Rust");
}

#[test]
fn collect_drops_exact_repeats() {
    let files = vec![
        MarkdownSource {
            stem: "a".to_string(),
            content: "- **pref**: likes Rust\n".to_string(),
            category: MemoryCategory::Core,
        },
        MarkdownSource {
            stem: "b".to_string(),
            content: "- **pref**: likes Rust\n- **drink**: tea\n".to_string(),
            category: MemoryCategory::Core,
        },
    ];

    let entries = collect_source_entries(&files);
    assert_eq!(entries.len(), 2);
    assert_eq!(entries[0].key, "pref");
    assert_eq!(entries[1].key, "drink");
}

#[test]
fn parse_markdown_skips_headings_and_blanks() {
    let content = "# Memory\n\n- **pref**: likes Rust\n\n## Notes\n- plain note\n";
    let entries = parse_markdown_file(content, MemoryCategory::Daily, "notes");
    assert_eq!(entries.len(), 2);
    assert_eq!(entries[0].key, "pref");
    assert_eq!(entries[0].content, "likes Rust");
    assert!(entries[1].key.starts_with("openclaw_notes_"));
    assert_eq!(entries[1].content, "plain note");
}

#[test]
fn unstructured_keys_number_lines_from_one() {
    let entries = parse_markdown_file("- first\n- second", MemoryCategory::Core, "s");
    assert_eq!(entries.len(), 2);
    assert_eq!(entries[0].key, "openclaw_s_1");
    assert_eq!(entries[1].key, "openclaw_s_2");
}

#[test]
fn split_lines_handles_crlf_and_trailing_newline() {
    let lines = split_lines("one\r\ntwo\nthree\n");
    assert_eq!(lines, vec!["one", "two", "three"]);
}
