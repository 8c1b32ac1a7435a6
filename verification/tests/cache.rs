use zerooraclaw::cache::ResponseCache;

fn temp_cache(ttl_minutes: u32) -> ResponseCache {
    ResponseCache::new(ttl_minutes, 1000)
}

#[test]
fn cache_key_deterministic() {
    let k1 = ResponseCache::cache_key("gpt-4", Some("sys"), "hello");
    let k2 = ResponseCache::cache_key("gpt-4", Some("sys"), "hello");
    assert_eq!(k1, k2);
    assert_eq!(k1.len(), 64); // SHA-256 hex
}

#[test]
fn cache_key_varies_by_model() {
    let k1 = ResponseCache::cache_key("gpt-4", None, "hello");
    let k2 = ResponseCache::cache_key("llama-3", None, "hello");
    assert_ne!(k1, k2);
}

#[test]
fn cache_key_varies_by_system_prompt() {
    let k1 = ResponseCache::cache_key("gpt-4", Some("You are helpful"), "hello");
    let k2 = ResponseCache::cache_key("gpt-4", Some("You are rude"), "hello");
    assert_ne!(k1, k2);
}

#[test]
fn cache_key_varies_by_prompt() {
    let k1 = ResponseCache::cache_key("gpt-4", None, "hello");
    let k2 = ResponseCache::cache_key("gpt-4", None, "goodbye");
    assert_ne!(k1, k2);
}

#[test]
fn cache_key_distinguishes_absent_from_empty_system() {
    let k1 = ResponseCache::cache_key("gpt-4", None, "hello");
    let k2 = ResponseCache::cache_key("gpt-4", Some(""), "hello");
    assert_ne!(k1, k2);
}

#[test]
fn cache_key_is_hex_digest() {
    let k = ResponseCache::cache_key("m", None, "p");
    assert_eq!(k.len(), 64);
    assert!(k.chars().all(|c| c.is_ascii_hexdigit()));
    assert_ne!(k, "m||p");
}

#[test]
fn put_and_get() {
    let mut cache = temp_cache(60);
    let key = ResponseCache::cache_key("gpt-4", None, "What is Rust?");

    cache.put(&key, "gpt-4", "Rust is a systems programming language.", 25);

    let result = cache.get(&key);
    assert_eq!(
        result.as_deref(),
        Some("Rust is a systems programming language.")
    );
}

#[test]
fn miss_returns_none() {
    let mut cache = temp_cache(60);
    let result = cache.get("nonexistent_key");
    assert!(result.is_none());
}

#[test]
fn expired_entry_returns_none() {
    let mut cache = temp_cache(0); // 0-minute TTL -- everything is instantly expired
    let key = ResponseCache::cache_key("gpt-4", None, "test");

    cache.put(&key, "gpt-4", "response", 10);

    // The entry was created at the current time, but the TTL is zero, so
    // its creation time is already at the expiry cutoff.
    let result = cache.get(&key);
    assert!(result.is_none());
}

#[test]
fn hit_count_incremented() {
    let mut cache = temp_cache(60);
    let key = ResponseCache::cache_key("gpt-4", None, "hello");

    cache.put(&key, "gpt-4", "Hi!", 5);

    // 3 hits
    for _ in 0..3 {
        let _ = cache.get(&key);
    }

    let (_, total_hits, _) = cache.stats();
    assert_eq!(total_hits, 3);
}

#[test]
fn tokens_saved_calculated() {
    let mut cache = temp_cache(60);
    let key = ResponseCache::cache_key("gpt-4", None, "explain rust");

    cache.put(&key, "gpt-4", "Rust is...", 100);

    // 5 cache hits x 100 tokens = 500 tokens saved
    for _ in 0..5 {
        let _ = cache.get(&key);
    }

    let (_, _, tokens_saved) = cache.stats();
    assert_eq!(tokens_saved, 500);
}

#[test]
fn cached_hits_accumulate_stats() {
    let mut cache = temp_cache(60);
    let key = ResponseCache::cache_key("model-a", Some("sys"), "hello");

    cache.put(&key, "model-a", "hi there", 100);
    for _ in 0..3 {
        assert_eq!(cache.get(&key).as_deref(), Some("hi there"));
    }

    assert_eq!(cache.stats(), (1, 3, 300));
}

#[test]
fn lru_eviction() {
    let mut cache = ResponseCache::new(60, 3); // max 3 entries

    for i in 0..5 {
        let key = ResponseCache::cache_key("gpt-4", None, &format!("prompt {i}"));
        cache.put(&key, "gpt-4", &format!("response {i}"), 10);
    }

    let (count, _, _) = cache.stats();
    assert!(count <= 3, "Should have at most 3 entries after eviction");
}

#[test]
fn clear_wipes_all() {
    let mut cache = temp_cache(60);

    for i in 0..10 {
        let key = ResponseCache::cache_key("gpt-4", None, &format!("prompt {i}"));
        cache.put(&key, "gpt-4", &format!("response {i}"), 10);
    }

    let cleared = cache.clear();
    assert_eq!(cleared, 10);

    let (count, _, _) = cache.stats();
    assert_eq!(count, 0);
}

#[test]
fn stats_empty_cache() {
    let cache = temp_cache(60);
    let (count, hits, tokens) = cache.stats();
    assert_eq!(count, 0);
    assert_eq!(hits, 0);
    assert_eq!(tokens, 0);
}

#[test]
fn overwrite_same_key() {
    let mut cache = temp_cache(60);
    let key = ResponseCache::cache_key("gpt-4", None, "question");

    cache.put(&key, "gpt-4", "answer v1", 20);
    cache.put(&key, "gpt-4", "answer v2", 25);

    let result = cache.get(&key);
    assert_eq!(result.as_deref(), Some("answer v2"));

    let (count, _, _) = cache.stats();
    assert_eq!(count, 1);
}

#[test]
fn unicode_prompt_handling() {
    let mut cache = temp_cache(60);
    let key = ResponseCache::cache_key("gpt-4", None, "test 🦀");

    cache.put(&key, "gpt-4", "Rust is great", 30);

    let result = cache.get(&key);
    assert_eq!(result.as_deref(), Some("Rust is great"));
}

#[test]
fn cache_handles_zero_max_entries() {
    let mut cache = ResponseCache::new(60, 0);

    let key = ResponseCache::cache_key("gpt-4", None, "test");
    // Should not panic even with a cap of zero
    cache.put(&key, "gpt-4", "response", 10);

    let (count, _, _) = cache.stats();
    assert_eq!(count, 0, "cache with max_entries=0 should evict everything");
}
