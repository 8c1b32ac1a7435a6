//! The memory entry data model: categories, entries and their
//! mathematical views.

use vstd::prelude::*;
use crate::text::{eq_ci, eq_ci_exec, string_of};

verus! {

/// Classification tag on a memory entry. Unrecognised labels round-trip
/// through `Custom` unchanged instead of being rejected.
#[derive(Debug)]
pub enum MemoryCategory {
    Core,
    Daily,
    Conversation,
    Custom(String),
}

/// Mathematical view of a `MemoryCategory`: the custom label is a
/// character sequence.
pub enum CategoryView {
    Core,
    Daily,
    Conversation,
    Custom(Seq<char>),
}

impl View for MemoryCategory {
    type V = CategoryView;

    open spec fn view(&self) -> CategoryView {
        match self {
            MemoryCategory::Core => CategoryView::Core,
            MemoryCategory::Daily => CategoryView::Daily,
            MemoryCategory::Conversation => CategoryView::Conversation,
            MemoryCategory::Custom(label) => CategoryView::Custom(label@),
        }
    }
}

impl PartialEq for MemoryCategory {
    fn eq(&self, other: &Self) -> (r: bool) {
        match (self, other) {
            (MemoryCategory::Core, MemoryCategory::Core) => true,
            (MemoryCategory::Daily, MemoryCategory::Daily) => true,
            (MemoryCategory::Conversation, MemoryCategory::Conversation) => true,
            (MemoryCategory::Custom(a), MemoryCategory::Custom(b)) => *a == *b,
            _ => false,
        }
    }
}

impl vstd::std_specs::cmp::PartialEqSpecImpl for MemoryCategory {
    open spec fn obeys_eq_spec() -> bool {
        true
    }

    open spec fn eq_spec(&self, other: &Self) -> bool {
        self@ == other@
    }
}

impl Clone for MemoryCategory {
    fn clone(&self) -> (r: Self)
        ensures
            r@ == self@,
    {
        match self {
            MemoryCategory::Core => MemoryCategory::Core,
            MemoryCategory::Daily => MemoryCategory::Daily,
            MemoryCategory::Conversation => MemoryCategory::Conversation,
            MemoryCategory::Custom(label) => MemoryCategory::Custom(label.clone()),
        }
    }
}

/// Parse a category label: `core`, `daily` and `conversation` are
/// recognised ignoring ASCII case; anything else becomes `Custom` with
/// the label kept as given.
pub open spec fn spec_parse_category(s: Seq<char>) -> CategoryView {
    if eq_ci(s, "core"@) {
        CategoryView::Core
    } else if eq_ci(s, "daily"@) {
        CategoryView::Daily
    } else if eq_ci(s, "conversation"@) {
        CategoryView::Conversation
    } else {
        CategoryView::Custom(s)
    }
}

/// Parse a category string into a `MemoryCategory`.
pub fn parse_category(s: &str) -> (r: MemoryCategory)
    ensures
        r@ == spec_parse_category(s@),
{
    if eq_ci_exec(s, "core") {
        MemoryCategory::Core
    } else if eq_ci_exec(s, "daily") {
        MemoryCategory::Daily
    } else if eq_ci_exec(s, "conversation") {
        MemoryCategory::Conversation
    } else {
        MemoryCategory::Custom(string_of(s))
    }
}

/// A stored memory fact. `timestamp` is a logical last-write stamp issued
/// by the owning store (larger means more recent); `access_count` counts
/// point lookups of the entry; `has_embedding` records whether an
/// embedding vector accompanies the entry in the vector index.
#[derive(Debug)]
pub struct MemoryEntry {
    pub id: u64,
    pub key: String,
    pub content: String,
    pub category: MemoryCategory,
    pub session_id: Option<String>,
    pub timestamp: u64,
    pub access_count: u64,
    pub has_embedding: bool,
}

/// Mathematical view of a `MemoryEntry`.
pub struct EntryView {
    pub id: u64,
    pub key: Seq<char>,
    pub content: Seq<char>,
    pub category: CategoryView,
    pub session_id: Option<Seq<char>>,
    pub timestamp: u64,
    pub access_count: u64,
    pub has_embedding: bool,
}

impl View for MemoryEntry {
    type V = EntryView;

    open spec fn view(&self) -> EntryView {
        EntryView {
            id: self.id,
            key: self.key@,
            content: self.content@,
            category: self.category@,
            session_id: match self.session_id {
                Some(s) => Some(s@),
                None => None,
            },
            timestamp: self.timestamp,
            access_count: self.access_count,
            has_embedding: self.has_embedding,
        }
    }
}

impl Clone for MemoryEntry {
    fn clone(&self) -> (r: Self)
        ensures
            r@ == self@,
    {
        MemoryEntry {
            id: self.id,
            key: self.key.clone(),
            content: self.content.clone(),
            category: self.category.clone(),
            session_id: match &self.session_id {
                Some(s) => Some(s.clone()),
                None => None,
            },
            timestamp: self.timestamp,
            access_count: self.access_count,
            has_embedding: self.has_embedding,
        }
    }
}

/// View of an optional borrowed string.
pub open spec fn opt_str_view(s: Option<&str>) -> Option<Seq<char>> {
    match s {
        Some(x) => Some(x@),
        None => None,
    }
}

} // verus!
