use zerooraclaw::entry::{parse_category, MemoryCategory};
use zerooraclaw::recall::{
    recall, similarity_from_distance, KEYWORD_SCORE, MIN_SIMILARITY, SCORE_SCALE,
};
use zerooraclaw::store::MemoryStore;

#[test]
fn memory_store_same_key_deduplicates() {
    let mut mem = MemoryStore::new();

    // Store same key twice with different content
    mem.store("greeting", "hello world", MemoryCategory::Core, None, false);
    mem.store("greeting", "hello updated", MemoryCategory::Core, None, false);

    // Should have exactly 1 entry, not 2
    let count = mem.count();
    assert_eq!(
        count, 1,
        "storing same key twice should not create duplicates"
    );

    // Content should be the latest version
    let entry = mem.get("greeting").expect("entry should exist");
    assert_eq!(entry.content, "hello updated");
}

#[test]
fn memory_store_different_keys_creates_separate_entries() {
    let mut mem = MemoryStore::new();

    mem.store("key_a", "content a", MemoryCategory::Core, None, false);
    mem.store("key_b", "content b", MemoryCategory::Core, None, false);

    let count = mem.count();
    assert_eq!(count, 2, "different keys should create separate entries");
}

#[test]
fn memory_rewrite_does_not_duplicate() {
    let mut mem = MemoryStore::new();

    // First round: store entries
    mem.store("fact_1", "original content", MemoryCategory::Core, None, false);
    mem.store("fact_2", "another fact", MemoryCategory::Core, None, false);

    // Second round: re-store same keys (simulates channel re-reading history)
    mem.store("fact_1", "original content", MemoryCategory::Core, None, false);
    mem.store("fact_2", "another fact", MemoryCategory::Core, None, false);

    let count = mem.count();
    assert_eq!(
        count, 2,
        "re-storing same keys should not create duplicates"
    );
}

#[test]
fn memory_session_scoped_store_and_recall() {
    let mut mem = MemoryStore::new();

    // Store in different sessions
    mem.store(
        "session_a_fact",
        "fact from session A",
        MemoryCategory::Conversation,
        Some("session_a"),
        false,
    );
    mem.store(
        "session_b_fact",
        "fact from session B",
        MemoryCategory::Conversation,
        Some("session_b"),
        false,
    );

    // List scoped to session_a
    let session_a_entries = mem.list(Some(&MemoryCategory::Conversation), Some("session_a"));
    assert_eq!(
        session_a_entries.len(),
        1,
        "session_a should have exactly 1 entry"
    );
    assert_eq!(session_a_entries[0].content, "fact from session A");
}

#[test]
fn memory_global_recall_includes_all_sessions() {
    let mut mem = MemoryStore::new();

    mem.store("global_a", "alpha content", MemoryCategory::Core, Some("s1"), false);
    mem.store("global_b", "beta content", MemoryCategory::Core, Some("s2"), false);

    // Global count should include all
    let count = mem.count();
    assert_eq!(
        count, 2,
        "global count should include entries from all sessions"
    );
}

#[test]
fn memory_recall_returns_relevant_results() {
    let mut mem = MemoryStore::new();

    mem.store(
        "lang_pref",
        "User prefers Rust programming",
        MemoryCategory::Core,
        None,
        false,
    );
    mem.store(
        "food_pref",
        "User likes sushi for lunch",
        MemoryCategory::Core,
        None,
        false,
    );

    let results = recall(&mem, "Rust programming", 10, None, None);
    assert!(!results.is_empty(), "recall should find matching entries");
    // The Rust-related entry should be in results
    assert!(
        results.iter().any(|e| e.entry.content.contains("Rust")),
        "recall for 'Rust' should include the Rust-related entry"
    );
}

#[test]
fn memory_recall_respects_limit() {
    let mut mem = MemoryStore::new();

    for i in 0..10 {
        mem.store(
            &format!("entry_{i}"),
            &format!("test content number {i}"),
            MemoryCategory::Core,
            None,
            false,
        );
    }

    let results = recall(&mem, "test content", 3, None, None);
    assert!(
        results.len() <= 3,
        "recall should respect limit of 3, got {}",
        results.len()
    );
}

#[test]
fn memory_recall_empty_query_returns_empty() {
    let mut mem = MemoryStore::new();

    mem.store("fact", "some content", MemoryCategory::Core, None, false);

    let results = recall(&mem, "", 10, None, None);
    assert!(results.is_empty(), "empty query should return no results");
}

#[test]
fn memory_forget_removes_entry() {
    let mut mem = MemoryStore::new();

    mem.store("to_forget", "temporary info", MemoryCategory::Core, None, false);
    assert_eq!(mem.count(), 1);

    let removed = mem.forget("to_forget");
    assert!(removed, "forget should return true for existing key");
    assert_eq!(mem.count(), 0);
}

#[test]
fn memory_forget_nonexistent_returns_false() {
    let mut mem = MemoryStore::new();

    let removed = mem.forget("nonexistent_key");
    assert!(!removed, "forget should return false for nonexistent key");
}

#[test]
fn memory_list_by_category() {
    let mut mem = MemoryStore::new();

    mem.store("core_fact", "core info", MemoryCategory::Core, None, false);
    mem.store("daily_note", "daily note", MemoryCategory::Daily, None, false);
    mem.store(
        "conv_msg",
        "conversation msg",
        MemoryCategory::Conversation,
        None,
        false,
    );

    let core_entries = mem.list(Some(&MemoryCategory::Core), None);
    assert_eq!(core_entries.len(), 1, "should have 1 Core entry");
    assert_eq!(core_entries[0].key, "core_fact");

    let daily_entries = mem.list(Some(&MemoryCategory::Daily), None);
    assert_eq!(daily_entries.len(), 1, "should have 1 Daily entry");
}

#[test]
fn keyword_fallback_scores_nominal() {
    let mut mem = MemoryStore::new();

    // Embedding unavailable: store without a vector, recall with no
    // query embedding outcome.
    mem.store("note", "quarterly report due", MemoryCategory::Core, None, false);

    let results = recall(&mem, "quarterly", 10, None, None);
    assert_eq!(results.len(), 1);
    assert_eq!(results[0].entry.content, "quarterly report due");
    assert_eq!(results[0].score, KEYWORD_SCORE);
}

#[test]
fn keyword_match_is_case_insensitive() {
    let mut mem = MemoryStore::new();

    mem.store("note", "Quarterly Report Due", MemoryCategory::Core, None, false);

    let results = recall(&mem, "qUaRtErLy", 10, None, None);
    assert_eq!(results.len(), 1);
}

#[test]
fn keyword_match_also_searches_keys() {
    let mut mem = MemoryStore::new();

    mem.store("shopping_list", "eggs and milk", MemoryCategory::Core, None, false);

    let results = recall(&mem, "shopping", 10, None, None);
    assert_eq!(results.len(), 1);
}

#[test]
fn vector_recall_filters_below_threshold() {
    let mut mem = MemoryStore::new();

    mem.store("close", "a close memory", MemoryCategory::Core, None, true);
    mem.store("far", "a far memory", MemoryCategory::Core, None, true);

    // Distances in thousandths against the two vector candidates, in
    // store order (most recent first): "far" at 0.9, "close" at 0.2.
    let candidates = mem.vector_candidates(None);
    assert_eq!(candidates.len(), 2);
    assert_eq!(candidates[0].key, "far");
    let distances = vec![900u32, 200u32];

    let results = recall(&mem, "memory", 10, None, Some(&distances));
    assert_eq!(results.len(), 1, "only one candidate scores at or above 0.3");
    assert_eq!(results[0].entry.key, "close");
    assert_eq!(results[0].score, 800);
    assert!(results[0].score >= MIN_SIMILARITY);
}

#[test]
fn vector_recall_orders_by_similarity() {
    let mut mem = MemoryStore::new();

    mem.store("a", "alpha", MemoryCategory::Core, None, true);
    mem.store("b", "beta", MemoryCategory::Core, None, true);
    mem.store("c", "gamma", MemoryCategory::Core, None, true);

    // Store order is most recent first: c, b, a.
    let distances = vec![500u32, 100u32, 300u32];
    let results = recall(&mem, "anything", 10, None, Some(&distances));
    assert_eq!(results.len(), 3);
    assert_eq!(results[0].entry.key, "b");
    assert_eq!(results[1].entry.key, "a");
    assert_eq!(results[2].entry.key, "c");
    assert_eq!(results[0].score, 900);
    assert_eq!(results[1].score, 700);
    assert_eq!(results[2].score, 500);
}

#[test]
fn vector_recall_falls_back_to_keyword() {
    let mut mem = MemoryStore::new();

    mem.store("note", "quarterly report due", MemoryCategory::Core, None, true);

    // The only vector candidate is too dissimilar, so the keyword path
    // must answer instead of returning nothing.
    let distances = vec![950u32];
    let results = recall(&mem, "quarterly", 10, None, Some(&distances));
    assert_eq!(results.len(), 1);
    assert_eq!(results[0].score, KEYWORD_SCORE);
}

#[test]
fn recall_zero_limit_returns_empty() {
    let mut mem = MemoryStore::new();

    mem.store("note", "some content", MemoryCategory::Core, None, false);

    let results = recall(&mem, "content", 0, None, None);
    assert!(results.is_empty());
}

#[test]
fn get_bumps_access_count() {
    let mut mem = MemoryStore::new();

    mem.store("fact", "content", MemoryCategory::Core, None, false);
    let first = mem.get("fact").unwrap();
    assert_eq!(first.access_count, 1);
    let second = mem.get("fact").unwrap();
    assert_eq!(second.access_count, 2);
}

#[test]
fn list_orders_most_recent_first() {
    let mut mem = MemoryStore::new();

    mem.store("first", "one", MemoryCategory::Core, None, false);
    mem.store("second", "two", MemoryCategory::Core, None, false);
    mem.store("first", "one again", MemoryCategory::Core, None, false);

    let entries = mem.list(None, None);
    assert_eq!(entries.len(), 2);
    assert_eq!(entries[0].key, "first");
    assert_eq!(entries[0].content, "one again");
    assert_eq!(entries[1].key, "second");
}

#[test]
fn similarity_conversion_values() {
    assert_eq!(similarity_from_distance(0), 1000);
    assert_eq!(similarity_from_distance(500), 500);
    assert_eq!(similarity_from_distance(1000), 0);
    assert_eq!(similarity_from_distance(1500), 0);
    assert_eq!(similarity_from_distance(2000), 0);
}

#[test]
fn parse_category_core() {
    assert_eq!(parse_category("core"), MemoryCategory::Core);
    assert_eq!(parse_category("CORE"), MemoryCategory::Core);
    assert_eq!(parse_category("Core"), MemoryCategory::Core);
}

#[test]
fn parse_category_daily() {
    assert_eq!(parse_category("daily"), MemoryCategory::Daily);
    assert_eq!(parse_category("DAILY"), MemoryCategory::Daily);
}

#[test]
fn parse_category_conversation() {
    assert_eq!(parse_category("conversation"), MemoryCategory::Conversation);
    assert_eq!(parse_category("CONVERSATION"), MemoryCategory::Conversation);
}

#[test]
fn parse_category_custom() {
    assert_eq!(
        parse_category("project_notes"),
        MemoryCategory::Custom("project_notes".into())
    );
}

#[test]
fn min_similarity_threshold_is_reasonable() {
    assert!(MIN_SIMILARITY > 0);
    assert!(MIN_SIMILARITY < SCORE_SCALE);
}
