use zerooraclaw::backend::{
    classify_memory_backend, default_memory_backend_key, effective_memory_backend_name,
    is_assistant_autosave_key, memory_backend_profile, selectable_memory_backends,
    MemoryBackendKind, StorageProviderConfig,
};

#[test]
fn classify_always_returns_oracle() {
    assert_eq!(classify_memory_backend("sqlite"), MemoryBackendKind::Oracle);
    assert_eq!(classify_memory_backend("oracle"), MemoryBackendKind::Oracle);
    assert_eq!(
        classify_memory_backend("anything"),
        MemoryBackendKind::Oracle
    );
}

#[test]
fn default_backend_is_oracle() {
    assert_eq!(default_memory_backend_key(), "oracle");
}

#[test]
fn selectable_has_only_oracle() {
    let backends = selectable_memory_backends();
    assert_eq!(backends.len(), 1);
    assert_eq!(backends[0].key, "oracle");
}

#[test]
fn backend_profile_defaults_to_auto_save() {
    let profile = memory_backend_profile("whatever");
    assert_eq!(profile.key, "oracle");
    assert!(profile.auto_save_default);
}

#[test]
fn assistant_autosave_key_detection_matches_legacy_patterns() {
    assert!(is_assistant_autosave_key("assistant_resp"));
    assert!(is_assistant_autosave_key("assistant_resp_1234"));
    assert!(is_assistant_autosave_key("ASSISTANT_RESP_abcd"));
    assert!(!is_assistant_autosave_key("assistant_response"));
    assert!(!is_assistant_autosave_key("user_msg_1234"));
}

#[test]
fn effective_backend_always_returns_oracle() {
    assert_eq!(effective_memory_backend_name("sqlite", None), "oracle");
    assert_eq!(effective_memory_backend_name("postgres", None), "oracle");
    assert_eq!(effective_memory_backend_name("oracle", None), "oracle");

    let storage = StorageProviderConfig {
        provider: "postgres".into(),
        ..StorageProviderConfig::default()
    };
    assert_eq!(
        effective_memory_backend_name("sqlite", Some(&storage)),
        "oracle"
    );
}
