//! Persistent-memory core for a conversational agent: a keyed entry store
//! with hybrid vector/keyword recall, and an in-memory response cache with
//! TTL expiry and least-recently-used eviction.

pub mod backend;
pub mod cache;
pub mod entry;
pub mod migrate;
pub mod recall;
pub mod store;
pub mod text;
