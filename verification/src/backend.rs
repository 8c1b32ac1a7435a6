//! Memory backend selection. This build knows a single backend, the
//! Oracle-backed store, and every classification resolves to it.

use vstd::prelude::*;
use crate::text::{eq_ci, eq_ci_exec, prefix_ci, prefix_ci_exec, trim_exec, trim_spec};

verus! {

/// The kinds of memory backend this build can run.
#[derive(Debug, Clone, Copy, PartialEq, Eq, Structural)]
pub enum MemoryBackendKind {
    Oracle,
}

/// A selectable backend as shown by the onboarding flow.
#[derive(Debug, Clone, Copy, PartialEq, Eq)]
pub struct MemoryBackendProfile {
    pub key: &'static str,
    pub label: &'static str,
    pub auto_save_default: bool,
}

/// Storage provider override as read from configuration; only the
/// provider name matters to backend selection.
#[derive(Debug)]
pub struct StorageProviderConfig {
    pub provider: String,
}

impl Clone for StorageProviderConfig {
    fn clone(&self) -> (r: Self)
        ensures
            r.provider@ == self.provider@,
    {
        StorageProviderConfig { provider: self.provider.clone() }
    }
}

impl Default for StorageProviderConfig {
    fn default() -> (r: Self)
        ensures
            r.provider@ == Seq::<char>::empty(),
    {
        StorageProviderConfig { provider: String::new() }
    }
}

/// The one profile on offer.
fn oracle_profile() -> (r: MemoryBackendProfile)
    ensures
        r.key@ == "oracle"@,
        r.label@ == "Oracle AI Database -- in-database ONNX vector search, persistent memory"@,
        r.auto_save_default == true,
{
    MemoryBackendProfile {
        key: "oracle",
        label: "Oracle AI Database -- in-database ONNX vector search, persistent memory",
        auto_save_default: true,
    }
}

/// The backends a user can select: exactly one, the Oracle store.
pub fn selectable_memory_backends() -> (r: Vec<MemoryBackendProfile>)
    ensures
        r@.len() == 1,
        r@[0].key@ == "oracle"@,
        r@[0].label@ == "Oracle AI Database -- in-database ONNX vector search, persistent memory"@,
        r@[0].auto_save_default == true,
{
    let mut v: Vec<MemoryBackendProfile> = Vec::new();
    v.push(oracle_profile());
    v
}

/// Key of the backend used when none is configured.
pub fn default_memory_backend_key() -> (r: &'static str)
    ensures
        r@ == "oracle"@,
{
    "oracle"
}

/// Classify a configured backend name: every name maps to the Oracle
/// backend in this build.
pub fn classify_memory_backend(_backend: &str) -> (r: MemoryBackendKind)
    ensures
        r == MemoryBackendKind::Oracle,
{
    MemoryBackendKind::Oracle
}

/// Profile for a configured backend name: always the Oracle profile.
pub fn memory_backend_profile(_backend: &str) -> (r: MemoryBackendProfile)
    ensures
        r.key@ == "oracle"@,
        r.label@ == "Oracle AI Database -- in-database ONNX vector search, persistent memory"@,
        r.auto_save_default == true,
{
    oracle_profile()
}

/// Whether `key` is a legacy auto-save key for model-authored assistant
/// summaries: after trimming it equals `assistant_resp` or starts with
/// `assistant_resp_`, ignoring ASCII case.
pub open spec fn spec_is_assistant_autosave_key(key: Seq<char>) -> bool {
    let t = trim_spec(key);
    eq_ci(t, "assistant_resp"@) || prefix_ci(t, "assistant_resp_"@)
}

/// Detect legacy auto-save keys; entries under them are treated as
/// untrusted context and are not re-injected.
pub fn is_assistant_autosave_key(key: &str) -> (r: bool)
    ensures
        r == spec_is_assistant_autosave_key(key@),
{
    let t = trim_exec(key);
    eq_ci_exec(t, "assistant_resp") || prefix_ci_exec(t, "assistant_resp_")
}

/// The effective backend name for a configured name and an optional
/// storage override: always `oracle` in this build, whatever is passed.
pub fn effective_memory_backend_name(
    _memory_backend: &str,
    _storage_provider: Option<&StorageProviderConfig>,
) -> (r: String)
    ensures
        r@ == "oracle"@,
{
    crate::text::string_of("oracle")
}

} // verus!
