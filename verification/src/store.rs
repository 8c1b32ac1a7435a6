//! The keyed entry store: upsert, point lookup, filtered listing,
//! deletion and counting, with at most one entry per key and entries
//! held most-recently-updated first.

use vstd::prelude::*;
use vstd::seq_lib::*;
use crate::entry::{
    CategoryView, EntryView, MemoryCategory, MemoryEntry, opt_str_view,
};
use crate::text::{str_eq, string_of};

verus! {

/// No two entries share a key.
pub open spec fn unique_keys(s: Seq<EntryView>) -> bool {
    forall|i: int, j: int| 0 <= i < j < s.len() ==> s[i].key != s[j].key
}

/// No two entries share an identifier.
pub open spec fn unique_ids(s: Seq<EntryView>) -> bool {
    forall|i: int, j: int| 0 <= i < j < s.len() ==> s[i].id != s[j].id
}

/// Entries are ordered most-recently-written first.
pub open spec fn recency_sorted(s: Seq<EntryView>) -> bool {
    forall|i: int, j: int| 0 <= i < j < s.len() ==> s[i].timestamp > s[j].timestamp
}

/// Some entry holds key `k`.
pub open spec fn has_key(s: Seq<EntryView>, k: Seq<char>) -> bool {
    exists|i: int| 0 <= i < s.len() && s[i].key == k
}

/// Index of the first entry holding key `k`, or `-1` when there is none.
pub open spec fn index_of_key(s: Seq<EntryView>, k: Seq<char>) -> int
    decreases s.len(),
{
    if s.len() == 0 {
        -1
    } else if s[0].key == k {
        0
    } else {
        let r = index_of_key(s.drop_first(), k);
        if r < 0 {
            -1
        } else {
            r + 1
        }
    }
}

pub proof fn lemma_index_of_key(s: Seq<EntryView>, k: Seq<char>)
    ensures
        has_key(s, k) ==> {
            let i = index_of_key(s, k);
            &&& 0 <= i < s.len()
            &&& s[i].key == k
            &&& forall|j: int| 0 <= j < i ==> s[j].key != k
        },
        !has_key(s, k) ==> index_of_key(s, k) == -1,
    decreases s.len(),
{
    if s.len() == 0 {
    } else if s[0].key == k {
    } else {
        let t = s.drop_first();
        lemma_index_of_key(t, k);
        assert(forall|i: int| 0 <= i < t.len() ==> t[i] == s[i + 1]);
        if has_key(s, k) {
            let w = choose|i: int| 0 <= i < s.len() && s[i].key == k;
            assert(w != 0);
            assert(t[w - 1].key == k);
            assert(has_key(t, k));
        }
        if has_key(t, k) {
            let w = choose|i: int| 0 <= i < t.len() && t[i].key == k;
            assert(s[w + 1].key == k);
            assert(has_key(s, k));
        }
        if has_key(s, k) {
            let it = index_of_key(t, k);
            let i = index_of_key(s, k);
            assert(i == it + 1);
            assert(t[it] == s[i]);
            assert forall|j: int| 0 <= j < i implies s[j].key != k by {
                if j > 0 {
                    assert(s[j] == t[j - 1]);
                }
            }
        }
    }
}

/// The entry that replaces `e` when its key is written again.
pub open spec fn upsert_entry(
    e: EntryView,
    content: Seq<char>,
    category: CategoryView,
    session_id: Option<Seq<char>>,
    has_embedding: bool,
    stamp: u64,
) -> EntryView {
    EntryView {
        id: e.id,
        key: e.key,
        content: content,
        category: category,
        session_id: session_id,
        timestamp: stamp,
        access_count: e.access_count,
        has_embedding: has_embedding || e.has_embedding,
    }
}

/// A brand-new entry for a key not seen before.
pub open spec fn fresh_entry(
    k: Seq<char>,
    content: Seq<char>,
    category: CategoryView,
    session_id: Option<Seq<char>>,
    has_embedding: bool,
    id: u64,
    stamp: u64,
) -> EntryView {
    EntryView {
        id: id,
        key: k,
        content: content,
        category: category,
        session_id: session_id,
        timestamp: stamp,
        access_count: 0,
        has_embedding: has_embedding,
    }
}

/// The store contents after writing key `k`: the entry for `k` is
/// replaced in place (keeping its identifier) or created fresh, and moves
/// to the front as the most recent write.
pub open spec fn spec_upsert(
    s: Seq<EntryView>,
    k: Seq<char>,
    content: Seq<char>,
    category: CategoryView,
    session_id: Option<Seq<char>>,
    has_embedding: bool,
    fresh_id: u64,
    stamp: u64,
) -> Seq<EntryView> {
    let i = index_of_key(s, k);
    if i >= 0 {
        seq![upsert_entry(s[i], content, category, session_id, has_embedding, stamp)] + s.remove(i)
    } else {
        seq![fresh_entry(k, content, category, session_id, has_embedding, fresh_id, stamp)] + s
    }
}

/// `e` with its access counter bumped, saturating at the top.
pub open spec fn bump_access(e: EntryView) -> EntryView {
    EntryView {
        access_count: if e.access_count == u64::MAX {
            e.access_count
        } else {
            (e.access_count + 1) as u64
        },
        ..e
    }
}

/// Whether `e` falls under the category filter.
pub open spec fn cat_match(e: EntryView, c: Option<CategoryView>) -> bool {
    match c {
        None => true,
        Some(cv) => e.category == cv,
    }
}

/// Whether `e` falls under the session filter.
pub open spec fn sess_match(e: EntryView, s: Option<Seq<char>>) -> bool {
    match s {
        None => true,
        Some(sv) => e.session_id == Some(sv),
    }
}

/// The listing filter: both parts optional, independently applied.
pub open spec fn list_pred(c: Option<CategoryView>, s: Option<Seq<char>>) -> spec_fn(
    EntryView,
) -> bool {
    |e: EntryView| cat_match(e, c) && sess_match(e, s)
}

/// View of an optional borrowed category.
pub open spec fn opt_cat_view(c: Option<&MemoryCategory>) -> Option<CategoryView> {
    match c {
        Some(x) => Some(x@),
        None => None,
    }
}

/// Views of a sequence of entries.
pub open spec fn views_of(s: Seq<MemoryEntry>) -> Seq<EntryView> {
    s.map_values(|e: MemoryEntry| e@)
}

/// Number of entries holding key `k`.
pub open spec fn count_key(s: Seq<EntryView>, k: Seq<char>) -> int {
    s.filter(|e: EntryView| e.key == k).len() as int
}

proof fn lemma_filter_push<A>(s: Seq<A>, x: A, pred: spec_fn(A) -> bool)
    ensures
        s.push(x).filter(pred) == if pred(x) {
            s.filter(pred).push(x)
        } else {
            s.filter(pred)
        },
{
    reveal(Seq::filter);
    assert(s.push(x).drop_last() =~= s);
    assert(s.push(x).last() == x);
}

/// The agent's keyed entry store.
pub struct MemoryStore {
    entries: Vec<MemoryEntry>,
    next_id: u64,
    next_stamp: u64,
}

impl View for MemoryStore {
    type V = Seq<EntryView>;

    closed spec fn view(&self) -> Seq<EntryView> {
        views_of(self.entries@)
    }
}

impl MemoryStore {
    /// Identifier the next freshly created entry will receive.
    pub closed spec fn spec_next_id(&self) -> u64 {
        self.next_id
    }

    /// Logical write stamp the next write will receive.
    pub closed spec fn spec_next_stamp(&self) -> u64 {
        self.next_stamp
    }

    /// Store invariant: keys unique, identifiers unique (and never
    /// reused, since every identifier stays below the counter that
    /// issues fresh ones), entries most-recent-first, and all stamps
    /// below the stamp counter.
    pub closed spec fn wf(&self) -> bool {
        &&& unique_keys(self@)
        &&& unique_ids(self@)
        &&& recency_sorted(self@)
        &&& forall|i: int|
            0 <= i < self@.len() ==> (#[trigger] self@[i]).timestamp < self.next_stamp
                && self@[i].id < self.next_id
    }

    /// A well-formed store has unique keys, unique identifiers and
    /// recency order.
    pub proof fn lemma_wf(&self)
        requires
            self.wf(),
        ensures
            unique_keys(self@),
            unique_ids(self@),
            recency_sorted(self@),
    {
    }

    /// An empty store.
    pub fn new() -> (r: Self)
        ensures
            r.wf(),
            r@ == Seq::<EntryView>::empty(),
            r.spec_next_id() == 0,
            r.spec_next_stamp() == 0,
    {
        let r = MemoryStore { entries: Vec::new(), next_id: 0, next_stamp: 0 };
        proof {
            assert(r@ =~= Seq::<EntryView>::empty());
        }
        r
    }

    /// Total number of entries.
    pub fn count(&self) -> (r: usize)
        ensures
            r == self@.len(),
    {
        self.entries.len()
    }

    /// Borrow the entry at position `i` (most recent first).
    pub fn entry_at(&self, i: usize) -> (r: &MemoryEntry)
        requires
            i < self@.len(),
        ensures
            r@ == self@[i as int],
    {
        &self.entries[i]
    }

    fn find_index(&self, key: &str) -> (r: Option<usize>)
        ensures
            match r {
                Some(i) => 0 <= i < self@.len() && index_of_key(self@, key@) == i as int,
                None => index_of_key(self@, key@) == -1 && !has_key(self@, key@),
            },
    {
        let n = self.entries.len();
        let mut i: usize = 0;
        while i < n
            invariant
                n == self@.len(),
                i <= n,
                forall|j: int| 0 <= j < i ==> (#[trigger] self@[j]).key != key@,
            decreases n - i,
        {
            if str_eq(self.entries[i].key.as_str(), key) {
                proof {
                    assert(self@[i as int].key == key@);
                    assert(has_key(self@, key@));
                    lemma_index_of_key(self@, key@);
                    let w = index_of_key(self@, key@);
                    assert(w <= i as int);
                    assert(w >= i as int) by {
                        if w < i as int {
                            assert(self@[w].key != key@);
                        }
                    }
                }
                return Some(i);
            }
            i = i + 1;
        }
        proof {
            lemma_index_of_key(self@, key@);
            if has_key(self@, key@) {
                let w = choose|j: int| 0 <= j < self@.len() && self@[j].key == key@;
                assert(false);
            }
        }
        None
    }

    /// Write a fact under `key`: update the existing entry in place
    /// (keeping its identifier) or create a fresh one, and make it the
    /// most recent entry. `has_embedding` records whether an embedding
    /// vector was obtained for the new content; when none was, an
    /// existing entry keeps its old vector.
    pub fn store(
        &mut self,
        key: &str,
        content: &str,
        category: MemoryCategory,
        session_id: Option<&str>,
        has_embedding: bool,
    )
        requires
            old(self).wf(),
            old(self).spec_next_id() < u64::MAX,
            old(self).spec_next_stamp() < u64::MAX,
        ensures
            final(self).wf(),
            final(self)@ == spec_upsert(
                old(self)@,
                key@,
                content@,
                category@,
                opt_str_view(session_id),
                has_embedding,
                old(self).spec_next_id(),
                old(self).spec_next_stamp(),
            ),
            final(self).spec_next_stamp() == old(self).spec_next_stamp() + 1,
            final(self).spec_next_id() == if has_key(old(self)@, key@) {
                old(self).spec_next_id() as int
            } else {
                old(self).spec_next_id() + 1
            },
    {
        let ghost s0 = self@;
        let stamp = self.next_stamp;
        self.next_stamp = self.next_stamp + 1;
        let found = self.find_index(key);
        match found {
            Some(i) => {
                proof {
                    lemma_index_of_key(s0, key@);
                }
                let mut e = self.entries.remove(i);
                e.content = string_of(content);
                e.category = category;
                e.session_id = match session_id {
                    Some(s) => Some(string_of(s)),
                    None => None,
                };
                e.timestamp = stamp;
                e.has_embedding = has_embedding || e.has_embedding;
                self.entries.insert(0, e);
                proof {
                    assert(self@ =~= seq![
                        upsert_entry(
                            s0[i as int],
                            content@,
                            category@,
                            opt_str_view(session_id),
                            has_embedding,
                            stamp,
                        ),
                    ] + s0.remove(i as int));
                    assert(self@.drop_first() =~= s0.remove(i as int));
                    self.lemma_wf_after_upsert(s0, key@, i as int, stamp);
                }
            },
            None => {
                let id = self.next_id;
                self.next_id = self.next_id + 1;
                let e = MemoryEntry {
                    id: id,
                    key: string_of(key),
                    content: string_of(content),
                    category: category,
                    session_id: match session_id {
                        Some(s) => Some(string_of(s)),
                        None => None,
                    },
                    timestamp: stamp,
                    access_count: 0,
                    has_embedding: has_embedding,
                };
                self.entries.insert(0, e);
                proof {
                    assert(self@ =~= seq![
                        fresh_entry(
                            key@,
                            content@,
                            category@,
                            opt_str_view(session_id),
                            has_embedding,
                            id,
                            stamp,
                        ),
                    ] + s0);
                    assert(self@.drop_first() =~= s0);
                    self.lemma_wf_after_insert(s0, key@, stamp, id);
                }
            },
        }
    }

    proof fn lemma_wf_after_upsert(&self, s0: Seq<EntryView>, k: Seq<char>, i: int, stamp: u64)
        requires
            unique_keys(s0),
            unique_ids(s0),
            recency_sorted(s0),
            0 <= i < s0.len(),
            s0[i].key == k,
            forall|j: int| 0 <= j < s0.len() ==> (#[trigger] s0[j]).timestamp < stamp,
            forall|j: int| 0 <= j < s0.len() ==> (#[trigger] s0[j]).id < self.spec_next_id(),
            self@.len() == s0.len(),
            self@[0].key == k,
            self@[0].timestamp == stamp,
            self@[0].id == s0[i].id,
            self@.drop_first() == s0.remove(i),
            stamp < self.spec_next_stamp(),
        ensures
            self.wf(),
    {
        let t = s0.remove(i);
        assert(forall|j: int|
            0 <= j < t.len() ==> #[trigger] t[j] == if j < i {
                s0[j]
            } else {
                s0[j + 1]
            });
        assert(forall|j: int| 0 <= j < self@.len() - 1 ==> self@[j + 1] == t[j]);
        assert forall|j: int| 0 <= j < t.len() implies (#[trigger] t[j]).key != k by {
            if j < i {
                assert(t[j] == s0[j]);
            } else {
                assert(t[j] == s0[j + 1]);
            }
        }
        assert forall|a: int, b: int| 0 <= a < b < self@.len() implies self@[a].key
            != self@[b].key by {
            if a == 0 {
                assert(self@[b] == t[b - 1]);
            } else {
                assert(self@[a] == t[a - 1]);
                assert(self@[b] == t[b - 1]);
            }
        }
        assert(unique_keys(self@));
        assert forall|a: int, b: int| 0 <= a < b < self@.len() implies self@[a].timestamp
            > self@[b].timestamp by {
            if a == 0 {
                assert(self@[b] == t[b - 1]);
            } else {
                assert(self@[a] == t[a - 1]);
                assert(self@[b] == t[b - 1]);
            }
        }
        assert(recency_sorted(self@));
        assert forall|a: int, b: int| 0 <= a < b < self@.len() implies self@[a].id
            != self@[b].id by {
            let a0 = if a == 0 {
                i
            } else if a - 1 < i {
                a - 1
            } else {
                a
            };
            let b0 = if b - 1 < i {
                b - 1
            } else {
                b
            };
            if a > 0 {
                assert(self@[a] == t[a - 1]);
            }
            assert(self@[b] == t[b - 1]);
            assert(self@[a].id == s0[a0].id);
            assert(self@[b].id == s0[b0].id);
            assert(s0[a0].id != s0[b0].id) by {
                if a0 < b0 {
                    assert(s0[a0].id != s0[b0].id);
                } else {
                    assert(s0[b0].id != s0[a0].id);
                }
            }
        }
        assert(unique_ids(self@));
        assert forall|j: int| 0 <= j < self@.len() implies (#[trigger] self@[j]).timestamp
            < self.spec_next_stamp() && self@[j].id < self.spec_next_id() by {
            if j > 0 {
                assert(self@[j] == t[j - 1]);
            }
        }
    }

    proof fn lemma_wf_after_insert(&self, s0: Seq<EntryView>, k: Seq<char>, stamp: u64, id: u64)
        requires
            unique_keys(s0),
            unique_ids(s0),
            recency_sorted(s0),
            !has_key(s0, k),
            forall|j: int| 0 <= j < s0.len() ==> (#[trigger] s0[j]).timestamp < stamp,
            forall|j: int| 0 <= j < s0.len() ==> (#[trigger] s0[j]).id < id,
            self@.len() == s0.len() + 1,
            self@[0].key == k,
            self@[0].timestamp == stamp,
            self@[0].id == id,
            self@.drop_first() == s0,
            stamp < self.spec_next_stamp(),
            id < self.spec_next_id(),
        ensures
            self.wf(),
    {
        assert(forall|j: int| 0 <= j < s0.len() ==> self@[j + 1] == s0[j]);
        assert(forall|j: int| 0 <= j < s0.len() ==> (#[trigger] s0[j]).key != k);
        assert forall|a: int, b: int| 0 <= a < b < self@.len() implies self@[a].key
            != self@[b].key by {
            if a == 0 {
                assert(self@[b] == s0[b - 1]);
            } else {
                assert(self@[a] == s0[a - 1]);
                assert(self@[b] == s0[b - 1]);
            }
        }
        assert(unique_keys(self@));
        assert forall|a: int, b: int| 0 <= a < b < self@.len() implies self@[a].timestamp
            > self@[b].timestamp by {
            if a == 0 {
                assert(self@[b] == s0[b - 1]);
            } else {
                assert(self@[a] == s0[a - 1]);
                assert(self@[b] == s0[b - 1]);
            }
        }
        assert(recency_sorted(self@));
        assert forall|a: int, b: int| 0 <= a < b < self@.len() implies self@[a].id
            != self@[b].id by {
            if a == 0 {
                assert(self@[b] == s0[b - 1]);
                assert(s0[b - 1].id < id);
            } else {
                assert(self@[a] == s0[a - 1]);
                assert(self@[b] == s0[b - 1]);
            }
        }
        assert(unique_ids(self@));
        assert forall|j: int| 0 <= j < self@.len() implies (#[trigger] self@[j]).timestamp
            < self.spec_next_stamp() && self@[j].id < self.spec_next_id() by {
            if j > 0 {
                assert(self@[j] == s0[j - 1]);
            }
        }
    }

    /// Exact lookup by key. A hit also bumps the entry's access counter;
    /// the counter bump never makes the read itself fail.
    pub fn get(&mut self, key: &str) -> (r: Option<MemoryEntry>)
        requires
            old(self).wf(),
        ensures
            final(self).wf(),
            final(self).spec_next_id() == old(self).spec_next_id(),
            final(self).spec_next_stamp() == old(self).spec_next_stamp(),
            ({
                let i = index_of_key(old(self)@, key@);
                if i >= 0 {
                    &&& final(self)@ == old(self)@.update(i, bump_access(old(self)@[i]))
                    &&& match r {
                        Some(e) => e@ == bump_access(old(self)@[i]),
                        None => false,
                    }
                } else {
                    &&& final(self)@ == old(self)@
                    &&& r is None
                }
            }),
    {
        let ghost s0 = self@;
        let found = self.find_index(key);
        match found {
            Some(i) => {
                let mut e = self.entries.remove(i);
                if e.access_count < u64::MAX {
                    e.access_count = e.access_count + 1;
                }
                let out = e.clone();
                self.entries.insert(i, e);
                proof {
                    assert(self@ =~= s0.update(i as int, bump_access(s0[i as int])));
                    assert(forall|j: int|
                        0 <= j < self@.len() ==> (#[trigger] self@[j]).key == s0[j].key
                            && self@[j].timestamp == s0[j].timestamp && self@[j].id == s0[j].id);
                    assert forall|a: int, b: int| 0 <= a < b < self@.len() implies self@[a].key
                        != self@[b].key && self@[a].timestamp > self@[b].timestamp && self@[a].id
                        != self@[b].id by {
                        assert(s0[a].key != s0[b].key);
                        assert(s0[a].timestamp > s0[b].timestamp);
                        assert(s0[a].id != s0[b].id);
                    }
                    assert(unique_keys(self@));
                    assert(unique_ids(self@));
                    assert(recency_sorted(self@));
                }
                Some(out)
            },
            None => None,
        }
    }

    /// Entries matching the optional category and session filters,
    /// most-recently-updated first.
    pub fn list(&self, category: Option<&MemoryCategory>, session_id: Option<&str>) -> (r: Vec<
        MemoryEntry,
    >)
        ensures
            views_of(r@) == self@.filter(
                list_pred(opt_cat_view(category), opt_str_view(session_id)),
            ),
    {
        let ghost pred = list_pred(opt_cat_view(category), opt_str_view(session_id));
        let n = self.entries.len();
        let mut r: Vec<MemoryEntry> = Vec::new();
        let mut i: usize = 0;
        while i < n
            invariant
                n == self@.len(),
                i <= n,
                pred == list_pred(opt_cat_view(category), opt_str_view(session_id)),
                views_of(r@) == self@.subrange(0, i as int).filter(pred),
            decreases n - i,
        {
            let e = &self.entries[i];
            let cat_ok = match category {
                None => true,
                Some(c) => *c == e.category,
            };
            let sess_ok = match session_id {
                None => true,
                Some(s) => match &e.session_id {
                    Some(es) => str_eq(s, es.as_str()),
                    None => false,
                },
            };
            proof {
                assert(cat_ok == cat_match(self@[i as int], opt_cat_view(category)));
                assert(sess_ok == sess_match(self@[i as int], opt_str_view(session_id)));
            }
            let ghost r_old = r@;
            if cat_ok && sess_ok {
                r.push(e.clone());
                proof {
                    assert(views_of(r@) =~= views_of(r_old).push(self@[i as int]));
                }
            }
            proof {
                let prefix = self@.subrange(0, i as int);
                assert(self@.subrange(0, i + 1) =~= prefix.push(self@[i as int]));
                lemma_filter_push(prefix, self@[i as int], pred);
            }
            i = i + 1;
        }
        proof {
            assert(self@.subrange(0, n as int) =~= self@);
        }
        r
    }

    /// Delete the entry for `key` if it exists; report whether one was
    /// removed.
    pub fn forget(&mut self, key: &str) -> (r: bool)
        requires
            old(self).wf(),
        ensures
            final(self).wf(),
            final(self).spec_next_id() == old(self).spec_next_id(),
            final(self).spec_next_stamp() == old(self).spec_next_stamp(),
            ({
                let i = index_of_key(old(self)@, key@);
                if i >= 0 {
                    final(self)@ == old(self)@.remove(i) && r == true
                } else {
                    final(self)@ == old(self)@ && r == false
                }
            }),
    {
        let ghost s0 = self@;
        let found = self.find_index(key);
        match found {
            Some(i) => {
                self.entries.remove(i);
                proof {
                    assert(self@ =~= s0.remove(i as int));
                    let t = s0.remove(i as int);
                    assert(forall|j: int|
                        0 <= j < t.len() ==> #[trigger] t[j] == if j < i as int {
                            s0[j]
                        } else {
                            s0[j + 1]
                        });
                    assert forall|a: int, b: int| 0 <= a < b < t.len() implies t[a].key != t[b].key
                        && t[a].timestamp > t[b].timestamp && t[a].id != t[b].id by {
                        let a0 = if a < i as int { a } else { a + 1 };
                        let b0 = if b < i as int { b } else { b + 1 };
                        assert(t[a] == s0[a0] && t[b] == s0[b0]);
                        assert(s0[a0].key != s0[b0].key);
                        assert(s0[a0].timestamp > s0[b0].timestamp);
                        assert(s0[a0].id != s0[b0].id);
                    }
                    assert(unique_keys(self@));
                    assert(unique_ids(self@));
                    assert(recency_sorted(self@));
                }
                true
            },
            None => false,
        }
    }
}

/// Writing the same key twice leaves exactly one entry for it, holding
/// the content of the second write, at the front of the store.
pub proof fn lemma_upsert_twice_single_entry(
    s: Seq<EntryView>,
    k: Seq<char>,
    c1: Seq<char>,
    c2: Seq<char>,
    cat1: CategoryView,
    cat2: CategoryView,
    sess1: Option<Seq<char>>,
    sess2: Option<Seq<char>>,
    he1: bool,
    he2: bool,
    id1: u64,
    id2: u64,
    st1: u64,
    st2: u64,
)
    requires
        unique_keys(s),
    ensures
        ({
            let once = spec_upsert(s, k, c1, cat1, sess1, he1, id1, st1);
            let twice = spec_upsert(once, k, c2, cat2, sess2, he2, id2, st2);
            &&& twice.len() > 0
            &&& twice[0].key == k
            &&& twice[0].content == c2
            &&& count_key(twice, k) == 1
            &&& twice.len() == once.len()
        }),
{
    let once = spec_upsert(s, k, c1, cat1, sess1, he1, id1, st1);
    lemma_upsert_shape(s, k, c1, cat1, sess1, he1, id1, st1);
    let twice = spec_upsert(once, k, c2, cat2, sess2, he2, id2, st2);
    lemma_upsert_shape(once, k, c2, cat2, sess2, he2, id2, st2);
    lemma_count_key_front(twice, k);
}

/// Writing a fresh key grows the store by one entry; writing an existing
/// key keeps the entry count unchanged.
pub proof fn lemma_upsert_count(
    s: Seq<EntryView>,
    k: Seq<char>,
    content: Seq<char>,
    category: CategoryView,
    session_id: Option<Seq<char>>,
    has_embedding: bool,
    id: u64,
    stamp: u64,
)
    requires
        unique_keys(s),
    ensures
        spec_upsert(s, k, content, category, session_id, has_embedding, id, stamp).len()
            == if has_key(s, k) {
            s.len()
        } else {
            s.len() + 1
        },
{
    lemma_upsert_shape(s, k, content, category, session_id, has_embedding, id, stamp);
}

/// Shape of a single upsert: the written entry stands at the front, no
/// other entry holds its key, uniqueness is preserved, and the length
/// grows exactly when the key was fresh.
pub proof fn lemma_upsert_shape(
    s: Seq<EntryView>,
    k: Seq<char>,
    content: Seq<char>,
    category: CategoryView,
    session_id: Option<Seq<char>>,
    has_embedding: bool,
    id: u64,
    stamp: u64,
)
    requires
        unique_keys(s),
    ensures
        ({
            let r = spec_upsert(s, k, content, category, session_id, has_embedding, id, stamp);
            &&& r.len() > 0
            &&& r[0].key == k
            &&& r[0].content == content
            &&& r[0].category == category
            &&& r[0].session_id == session_id
            &&& forall|j: int| 1 <= j < r.len() ==> (#[trigger] r[j]).key != k
            &&& unique_keys(r)
            &&& r.len() == if has_key(s, k) {
                s.len()
            } else {
                s.len() + 1
            }
        }),
{
    lemma_index_of_key(s, k);
    let i = index_of_key(s, k);
    let r = spec_upsert(s, k, content, category, session_id, has_embedding, id, stamp);
    if i >= 0 {
        assert(has_key(s, k)) by {
            assert(s[i].key == k);
        }
        let t = s.remove(i);
        assert(forall|j: int|
            0 <= j < t.len() ==> #[trigger] t[j] == if j < i {
                s[j]
            } else {
                s[j + 1]
            });
        assert forall|j: int| 0 <= j < t.len() implies (#[trigger] t[j]).key != k by {
            if j < i {
                assert(t[j] == s[j]);
            } else {
                assert(t[j] == s[j + 1]);
            }
        }
        assert(forall|j: int| 1 <= j < r.len() ==> r[j] == t[j - 1]);
        assert forall|a: int, b: int| 0 <= a < b < r.len() implies r[a].key != r[b].key by {
            if a == 0 {
                assert(r[b] == t[b - 1]);
            } else {
                assert(r[a] == t[a - 1]);
                assert(r[b] == t[b - 1]);
                let a0 = if a - 1 < i { a - 1 } else { a };
                let b0 = if b - 1 < i { b - 1 } else { b };
                assert(t[a - 1] == s[a0] && t[b - 1] == s[b0]);
                assert(s[a0].key != s[b0].key);
            }
        }
        assert(unique_keys(r));
    } else {
        assert(!has_key(s, k));
        assert(forall|j: int| 1 <= j < r.len() ==> r[j] == s[j - 1]);
        assert forall|j: int| 0 <= j < s.len() implies (#[trigger] s[j]).key != k by {
            if s[j].key == k {
                assert(has_key(s, k));
            }
        }
        assert forall|a: int, b: int| 0 <= a < b < r.len() implies r[a].key != r[b].key by {
            if a == 0 {
                assert(r[b] == s[b - 1]);
            } else {
                assert(r[a] == s[a - 1]);
                assert(r[b] == s[b - 1]);
                assert(s[a - 1].key != s[b - 1].key);
            }
        }
        assert(unique_keys(r));
    }
}

/// Filtering keeps the most-recent-first order: any selection of a
/// recency-sorted sequence is itself recency-sorted.
pub proof fn lemma_filter_preserves_recency(
    s: Seq<EntryView>,
    pred: spec_fn(EntryView) -> bool,
)
    requires
        recency_sorted(s),
    ensures
        recency_sorted(s.filter(pred)),
    decreases s.len(),
{
    reveal(Seq::filter);
    if s.len() > 0 {
        let t = s.drop_last();
        assert(forall|i: int| 0 <= i < t.len() ==> t[i] == s[i]);
        assert(recency_sorted(t));
        lemma_filter_preserves_recency(t, pred);
        if pred(s.last()) {
            let ft = t.filter(pred);
            assert forall|k: int| 0 <= k < ft.len() implies ft[k].timestamp
                > s.last().timestamp by {
                t.lemma_filter_contains_rev(pred, ft[k]);
                assert(ft.contains(ft[k]));
                let w = choose|i: int| 0 <= i < t.len() && t[i] == ft[k];
                assert(s[w].timestamp > s[s.len() - 1].timestamp);
            }
            let r = ft.push(s.last());
            assert(s.filter(pred) == r);
            assert forall|i: int, j: int| 0 <= i < j < r.len() implies r[i].timestamp
                > r[j].timestamp by {
                if j == r.len() - 1 {
                    assert(r[i] == ft[i]);
                } else {
                    assert(r[i] == ft[i] && r[j] == ft[j]);
                }
            }
        } else {
            assert(s.filter(pred) == t.filter(pred));
        }
    }
}

/// One write, as data: the arguments a single `spec_upsert` consumes.
pub struct StoreOp {
    pub key: Seq<char>,
    pub content: Seq<char>,
    pub category: CategoryView,
    pub session_id: Option<Seq<char>>,
    pub has_embedding: bool,
    pub id: u64,
    pub stamp: u64,
}

/// The store contents after performing `ops` in order.
pub open spec fn apply_ops(s: Seq<EntryView>, ops: Seq<StoreOp>) -> Seq<EntryView>
    decreases ops.len(),
{
    if ops.len() == 0 {
        s
    } else {
        let o = ops[0];
        apply_ops(
            spec_upsert(s, o.key, o.content, o.category, o.session_id, o.has_embedding, o.id, o.stamp),
            ops.drop_first(),
        )
    }
}

/// Storing `n` distinct keys once each, none of them present yet, grows
/// the store by exactly `n` entries: with an empty store to begin with,
/// the count afterwards is `n`.
pub proof fn lemma_distinct_fresh_keys_count(s: Seq<EntryView>, ops: Seq<StoreOp>)
    requires
        unique_keys(s),
        forall|a: int, b: int| 0 <= a < b < ops.len() ==> ops[a].key != ops[b].key,
        forall|a: int| 0 <= a < ops.len() ==> !has_key(s, (#[trigger] ops[a]).key),
    ensures
        apply_ops(s, ops).len() == s.len() + ops.len(),
        unique_keys(apply_ops(s, ops)),
    decreases ops.len(),
{
    if ops.len() == 0 {
    } else {
        let o = ops[0];
        let s1 = spec_upsert(s, o.key, o.content, o.category, o.session_id, o.has_embedding, o.id, o.stamp);
        lemma_upsert_shape(s, o.key, o.content, o.category, o.session_id, o.has_embedding, o.id, o.stamp);
        lemma_index_of_key(s, o.key);
        assert(s1.len() == s.len() + 1);
        let rest = ops.drop_first();
        assert(forall|a: int| 0 <= a < rest.len() ==> rest[a] == ops[a + 1]);
        assert(forall|a: int, b: int| 0 <= a < b < rest.len() ==> rest[a].key != rest[b].key);
        // Each remaining key is absent from s and differs from the key
        // just written, so it is absent from the new store: the upsert
        // added only that one key to the fronted sequence.
        assert(s1[0].key == o.key);
        assert(forall|j: int| 1 <= j < s1.len() ==> has_key(s, (#[trigger] s1[j]).key)) by {
            let i = index_of_key(s, o.key);
            assert(i == -1);
            assert forall|j: int| 1 <= j < s1.len() implies has_key(s, (#[trigger] s1[j]).key) by {
                assert(s1[j] == s[j - 1]);
                assert(s[j - 1].key == s1[j].key);
            }
        }
        assert forall|a: int| 0 <= a < rest.len() implies !has_key(s1, (#[trigger] rest[a]).key) by {
            assert(rest[a].key == ops[a + 1].key);
            assert(ops[a + 1].key != o.key);
            if has_key(s1, rest[a].key) {
                let w = choose|j: int| 0 <= j < s1.len() && s1[j].key == rest[a].key;
                assert(w != 0);
                assert(has_key(s, s1[w].key));
                assert(!has_key(s, ops[a + 1].key));
            }
        }
        lemma_distinct_fresh_keys_count(s1, rest);
    }
}

proof fn lemma_count_key_front(s: Seq<EntryView>, k: Seq<char>)
    requires
        s.len() > 0,
        s[0].key == k,
        forall|j: int| 1 <= j < s.len() ==> (#[trigger] s[j]).key != k,
    ensures
        count_key(s, k) == 1,
{
    let pred = |e: EntryView| e.key == k;
    let rest = s.drop_first();
    assert(s =~= seq![s[0]] + rest);
    Seq::filter_distributes_over_add(seq![s[0]], rest, pred);
    assert(seq![s[0]].filter(pred) =~= seq![s[0]]) by {
        reveal(Seq::filter);
        assert(seq![s[0]].drop_last() =~= Seq::<EntryView>::empty());
        assert(Seq::<EntryView>::empty().filter(pred) =~= Seq::<EntryView>::empty());
    }
    assert(forall|j: int| 0 <= j < rest.len() ==> !pred(#[trigger] rest[j]));
    rest.lemma_all_neg_filter_empty(pred);
    assert(s.filter(pred) =~= seq![s[0]]);
}

} // verus!
