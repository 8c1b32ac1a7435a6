//! The response cache: an in-memory key to response map with TTL expiry
//! and least-recently-used eviction. Keys are digests of the model,
//! system prompt and user prompt; entries never survive the process.
//!
//! Time enters only through `now`-taking variants of the operations:
//! `put` and `get` read the wall clock once and hand the reading to
//! `put_at` / `get_at`, whose contracts hold for every possible reading.

use vstd::prelude::*;
use vstd::seq_lib::*;
use vstd::arithmetic::div_mod::lemma_fundamental_div_mod;
use vstd::arithmetic::mul::lemma_mul_inequality;
use crate::text::{str_eq, string_of};

verus! {

/// A single cached response.
#[derive(Debug)]
pub struct CacheEntry {
    pub key: String,
    pub model: String,
    pub response: String,
    pub token_count: u32,
    pub created_at: i64,
    pub accessed_at: i64,
    pub hit_count: u64,
}

/// Mathematical view of a cache entry.
pub struct CacheEntryView {
    pub key: Seq<char>,
    pub model: Seq<char>,
    pub response: Seq<char>,
    pub token_count: u32,
    pub created_at: i64,
    pub accessed_at: i64,
    pub hit_count: u64,
}

impl View for CacheEntry {
    type V = CacheEntryView;

    open spec fn view(&self) -> CacheEntryView {
        CacheEntryView {
            key: self.key@,
            model: self.model@,
            response: self.response@,
            token_count: self.token_count,
            created_at: self.created_at,
            accessed_at: self.accessed_at,
            hit_count: self.hit_count,
        }
    }
}

impl Clone for CacheEntry {
    fn clone(&self) -> (r: Self)
        ensures
            r@ == self@,
    {
        CacheEntry {
            key: self.key.clone(),
            model: self.model.clone(),
            response: self.response.clone(),
            token_count: self.token_count,
            created_at: self.created_at,
            accessed_at: self.accessed_at,
            hit_count: self.hit_count,
        }
    }
}

/// Views of a sequence of cache entries.
pub open spec fn cache_views(s: Seq<CacheEntry>) -> Seq<CacheEntryView> {
    s.map_values(|e: CacheEntry| e@)
}

/// No two entries share a key.
pub open spec fn unique_ckeys(s: Seq<CacheEntryView>) -> bool {
    forall|i: int, j: int| 0 <= i < j < s.len() ==> s[i].key != s[j].key
}

/// Some entry holds key `k`.
pub open spec fn has_ckey(s: Seq<CacheEntryView>, k: Seq<char>) -> bool {
    exists|i: int| 0 <= i < s.len() && s[i].key == k
}

/// Index of the first entry holding key `k`, or `-1` when there is none.
pub open spec fn index_of_ckey(s: Seq<CacheEntryView>, k: Seq<char>) -> int
    decreases s.len(),
{
    if s.len() == 0 {
        -1
    } else if s[0].key == k {
        0
    } else {
        let r = index_of_ckey(s.drop_first(), k);
        if r < 0 {
            -1
        } else {
            r + 1
        }
    }
}

pub proof fn lemma_index_of_ckey(s: Seq<CacheEntryView>, k: Seq<char>)
    ensures
        has_ckey(s, k) ==> {
            let i = index_of_ckey(s, k);
            &&& 0 <= i < s.len()
            &&& s[i].key == k
            &&& forall|j: int| 0 <= j < i ==> s[j].key != k
        },
        !has_ckey(s, k) ==> index_of_ckey(s, k) == -1,
    decreases s.len(),
{
    if s.len() == 0 {
    } else if s[0].key == k {
    } else {
        let t = s.drop_first();
        lemma_index_of_ckey(t, k);
        assert(forall|i: int| 0 <= i < t.len() ==> t[i] == s[i + 1]);
        if has_ckey(s, k) {
            let w = choose|i: int| 0 <= i < s.len() && s[i].key == k;
            assert(w != 0);
            assert(t[w - 1].key == k);
            assert(has_ckey(t, k));
        }
        if has_ckey(t, k) {
            let w = choose|i: int| 0 <= i < t.len() && t[i].key == k;
            assert(s[w + 1].key == k);
            assert(has_ckey(s, k));
        }
        if has_ckey(s, k) {
            let it = index_of_ckey(t, k);
            let i = index_of_ckey(s, k);
            assert(i == it + 1);
            assert(t[it] == s[i]);
            assert forall|j: int| 0 <= j < i implies s[j].key != k by {
                if j > 0 {
                    assert(s[j] == t[j - 1]);
                }
            }
        }
    }
}

/// An entry is expired at `now` when its creation time lies at or before
/// `now - ttl`.
pub open spec fn spec_expired(e: CacheEntryView, now: int, ttl: int) -> bool {
    e.created_at <= now - ttl
}

/// The freshly inserted entry for a put at time `now`.
pub open spec fn new_cache_entry(
    k: Seq<char>,
    model: Seq<char>,
    response: Seq<char>,
    token_count: u32,
    now: i64,
) -> CacheEntryView {
    CacheEntryView {
        key: k,
        model: model,
        response: response,
        token_count: token_count,
        created_at: now,
        accessed_at: now,
        hit_count: 0,
    }
}

/// Index of the first entry with the oldest access time.
pub open spec fn lru_index(s: Seq<CacheEntryView>) -> int
    decreases s.len(),
{
    if s.len() <= 1 {
        0
    } else {
        let r = lru_index(s.drop_first()) + 1;
        if s[0].accessed_at <= s[r].accessed_at {
            0
        } else {
            r
        }
    }
}

pub proof fn lemma_lru_index(s: Seq<CacheEntryView>)
    requires
        s.len() > 0,
    ensures
        0 <= lru_index(s) < s.len(),
        forall|j: int|
            0 <= j < s.len() ==> s[lru_index(s)].accessed_at <= (#[trigger] s[j]).accessed_at,
        forall|j: int|
            0 <= j < lru_index(s) ==> (#[trigger] s[j]).accessed_at > s[lru_index(s)].accessed_at,
    decreases s.len(),
{
    if s.len() == 1 {
    } else {
        let t = s.drop_first();
        lemma_lru_index(t);
        assert(forall|i: int| 0 <= i < t.len() ==> t[i] == s[i + 1]);
        let rt = lru_index(t);
        let r = rt + 1;
        assert(s[r] == t[rt]);
        if s[0].accessed_at <= s[r].accessed_at {
            assert forall|j: int| 0 <= j < s.len() implies s[0].accessed_at <= (#[trigger] s[j]).accessed_at by {
                if j > 0 {
                    assert(s[j] == t[j - 1]);
                    assert(t[rt].accessed_at <= t[j - 1].accessed_at);
                }
            }
        } else {
            assert forall|j: int| 0 <= j < s.len() implies s[r].accessed_at <= (#[trigger] s[j]).accessed_at by {
                if j > 0 {
                    assert(s[j] == t[j - 1]);
                    assert(t[rt].accessed_at <= t[j - 1].accessed_at);
                }
            }
            assert forall|j: int| 0 <= j < r implies (#[trigger] s[j]).accessed_at > s[r].accessed_at by {
                if j > 0 {
                    assert(s[j] == t[j - 1]);
                    assert(t[j - 1].accessed_at > t[rt].accessed_at);
                }
            }
        }
    }
}

/// Remove entries, oldest access first, until at most `max` remain.
pub open spec fn spec_evict(s: Seq<CacheEntryView>, max: int) -> Seq<CacheEntryView>
    decreases s.len(),
    via spec_evict_decreases
{
    if s.len() <= max || s.len() == 0 {
        s
    } else {
        spec_evict(s.remove(lru_index(s)), max)
    }
}

#[via_fn]
proof fn spec_evict_decreases(s: Seq<CacheEntryView>, max: int) {
    if s.len() > max && s.len() > 0 {
        lemma_lru_index(s);
    }
}

/// The cache contents after a put at time `now`: any entry for the key
/// is replaced, every entry created at or before `now - ttl` is swept,
/// then least-recently-used entries leave until the count is at most
/// `max`.
pub open spec fn spec_put(
    s: Seq<CacheEntryView>,
    k: Seq<char>,
    model: Seq<char>,
    response: Seq<char>,
    token_count: u32,
    now: i64,
    ttl: int,
    max: int,
) -> Seq<CacheEntryView> {
    let i = index_of_ckey(s, k);
    let without = if i >= 0 {
        s.remove(i)
    } else {
        s
    };
    let inserted = without.push(new_cache_entry(k, model, response, token_count, now));
    let swept = inserted.filter(|e: CacheEntryView| !spec_expired(e, now as int, ttl));
    spec_evict(swept, max)
}

/// `e` after a successful read at `now`: access time refreshed, hit
/// counter bumped (saturating at the top).
pub open spec fn hit_entry(e: CacheEntryView, now: i64) -> CacheEntryView {
    CacheEntryView {
        accessed_at: now,
        hit_count: if e.hit_count == u64::MAX {
            e.hit_count
        } else {
            (e.hit_count + 1) as u64
        },
        ..e
    }
}

/// The cache contents and the answer for a get at time `now`: a missing
/// key answers nothing; an expired entry is deleted on sight and answers
/// nothing; a live entry answers its response and registers the hit.
pub open spec fn spec_get(s: Seq<CacheEntryView>, k: Seq<char>, now: i64, ttl: int) -> (
    Seq<CacheEntryView>,
    Option<Seq<char>>,
) {
    let i = index_of_ckey(s, k);
    if i < 0 {
        (s, None)
    } else if spec_expired(s[i], now as int, ttl) {
        (s.remove(i), None)
    } else {
        (s.update(i, hit_entry(s[i], now)), Some(s[i].response))
    }
}

/// `x` clamped to the largest 64-bit value.
pub open spec fn sat64(x: int) -> int {
    if x > u64::MAX {
        u64::MAX as int
    } else {
        x
    }
}

/// Sum of every entry's hit counter, saturating.
pub open spec fn total_hits(s: Seq<CacheEntryView>) -> int
    decreases s.len(),
{
    if s.len() == 0 {
        0
    } else {
        sat64(total_hits(s.drop_last()) + s.last().hit_count)
    }
}

/// Sum over entries of hit count times token count, saturating: each hit
/// is counted as one avoided call of the original cost.
pub open spec fn total_tokens_saved(s: Seq<CacheEntryView>) -> int
    decreases s.len(),
{
    if s.len() == 0 {
        0
    } else {
        sat64(
            total_tokens_saved(s.drop_last()) + sat64(
                s.last().hit_count * s.last().token_count,
            ),
        )
    }
}

/// The presence marker placed before the system prompt in the cache-key
/// pre-image: `1` when a prompt is given (even an empty one), `0` when
/// it is absent.
pub open spec fn system_marker(system: Option<Seq<char>>) -> char {
    match system {
        Some(_) => '1',
        None => '0',
    }
}

/// The characters the system prompt contributes after its presence
/// marker; empty when it is absent.
pub open spec fn system_segment(system: Option<Seq<char>>) -> Seq<char> {
    match system {
        Some(s) => s,
        None => Seq::empty(),
    }
}

/// The pre-image hashed into a cache key: the three fields joined with
/// separators that are placed even when the system prompt is absent,
/// plus a presence marker, so that an absent system prompt is
/// distinguishable from an empty one.
pub open spec fn cache_key_chars(
    model: Seq<char>,
    system: Option<Seq<char>>,
    user: Seq<char>,
) -> Seq<char> {
    model + seq!['|'] + seq![system_marker(system)] + system_segment(system) + seq!['|'] + user
}

/// The SHA-256 digest of a string's bytes, rendered as 64 lowercase hex
/// digits. Left unspecified beyond its length: it is a fixed function of
/// the characters alone.
pub uninterp spec fn sha256_hex_of(s: Seq<char>) -> Seq<char>;

/// Relies on sha2's SHA-256 (through the `Digest` trait): the result is
/// the digest of the string's UTF-8 bytes written as 64 lowercase hex
/// digits, and depends on the string alone.
#[verifier::external_body]
fn sha256_hex(s: &str) -> (r: String)
    ensures
        r@ == sha256_hex_of(s@),
        r@.len() == 64,
{
    let digest = <sha2::Sha256 as sha2::Digest>::digest(s.as_bytes());
    let mut out = String::new();
    for byte in digest.as_slice() {
        out.push_str(&format!("{:02x}", byte));
    }
    out
}

/// Relies on chrono's `Local::now`, reduced to whole seconds since the
/// Unix epoch. Nothing is assumed of the reading: every contract here
/// holds for any value the clock returns.
#[verifier::external_body]
fn now_epoch_seconds() -> i64 {
    chrono::Local::now().timestamp()
}

/// View of an optional owned string.
pub open spec fn opt_string_view(r: Option<String>) -> Option<Seq<char>> {
    match r {
        Some(x) => Some(x@),
        None => None,
    }
}

/// The in-memory response cache.
pub struct ResponseCache {
    entries: Vec<CacheEntry>,
    ttl_seconds: i64,
    max_entries: usize,
}

impl View for ResponseCache {
    type V = Seq<CacheEntryView>;

    closed spec fn view(&self) -> Seq<CacheEntryView> {
        cache_views(self.entries@)
    }
}

impl ResponseCache {
    /// Configured time-to-live, in seconds.
    pub closed spec fn spec_ttl(&self) -> int {
        self.ttl_seconds as int
    }

    /// Configured entry cap.
    pub closed spec fn spec_max(&self) -> int {
        self.max_entries as int
    }

    /// Cache invariant: entry keys are unique and the time-to-live is
    /// not negative.
    pub closed spec fn wf(&self) -> bool {
        unique_ckeys(self@) && self.ttl_seconds >= 0
    }

    /// A well-formed cache has unique keys.
    pub proof fn lemma_wf(&self)
        requires
            self.wf(),
        ensures
            unique_ckeys(self@),
            self.spec_max() >= 0,
            self.spec_ttl() >= 0,
    {
    }

    /// An empty cache with the given time-to-live (in minutes) and entry
    /// cap.
    pub fn new(ttl_minutes: u32, max_entries: usize) -> (r: Self)
        ensures
            r.wf(),
            r@ == Seq::<CacheEntryView>::empty(),
            r.spec_ttl() == ttl_minutes * 60,
            r.spec_max() == max_entries,
    {
        let r = ResponseCache {
            entries: Vec::new(),
            ttl_seconds: (ttl_minutes as i64) * 60,
            max_entries: max_entries,
        };
        proof {
            assert(r@ =~= Seq::<CacheEntryView>::empty());
        }
        r
    }

    /// Deterministic cache key over model, optional system prompt and
    /// user prompt: the SHA-256 digest, in hex, of the three fields
    /// joined with separators. The separators are placed even when the
    /// system prompt is absent, and a presence marker keeps an absent
    /// prompt apart from an empty one.
    pub fn cache_key(model: &str, system_prompt: Option<&str>, user_prompt: &str) -> (r: String)
        ensures
            r@ == sha256_hex_of(
                cache_key_chars(
                    model@,
                    match system_prompt {
                        Some(s) => Some(s@),
                        None => None,
                    },
                    user_prompt@,
                ),
            ),
            r@.len() == 64,
    {
        proof {
            reveal_strlit("|");
            reveal_strlit("0");
            reveal_strlit("1");
        }
        let mut pre = string_of(model);
        crate::text::append_str(&mut pre, "|");
        match system_prompt {
            Some(s) => {
                crate::text::append_str(&mut pre, "1");
                crate::text::append_str(&mut pre, s);
            },
            None => crate::text::append_str(&mut pre, "0"),
        }
        crate::text::append_str(&mut pre, "|");
        crate::text::append_str(&mut pre, user_prompt);
        proof {
            assert(pre@ =~= cache_key_chars(
                model@,
                match system_prompt {
                    Some(s) => Some(s@),
                    None => None,
                },
                user_prompt@,
            ));
        }
        sha256_hex(pre.as_str())
    }

    fn find_index(&self, key: &str) -> (r: Option<usize>)
        ensures
            match r {
                Some(i) => 0 <= i < self@.len() && index_of_ckey(self@, key@) == i as int,
                None => index_of_ckey(self@, key@) == -1 && !has_ckey(self@, key@),
            },
    {
        let n = self.entries.len();
        let mut i: usize = 0;
        while i < n
            invariant
                n == self@.len(),
                i <= n,
                forall|j: int| 0 <= j < i ==> (#[trigger] self@[j]).key != key@,
            decreases n - i,
        {
            if str_eq(self.entries[i].key.as_str(), key) {
                proof {
                    assert(self@[i as int].key == key@);
                    assert(has_ckey(self@, key@));
                    lemma_index_of_ckey(self@, key@);
                    let w = index_of_ckey(self@, key@);
                    assert(w >= i as int) by {
                        if w < i as int {
                            assert(self@[w].key != key@);
                        }
                    }
                }
                return Some(i);
            }
            i = i + 1;
        }
        proof {
            lemma_index_of_ckey(self@, key@);
            if has_ckey(self@, key@) {
                let w = choose|j: int| 0 <= j < self@.len() && self@[j].key == key@;
                assert(false);
            }
        }
        None
    }

    /// Whether the entry at `i` is expired at time `now`.
    fn expired_at(&self, i: usize, now: i64) -> (r: bool)
        requires
            i < self@.len(),
        ensures
            r == spec_expired(self@[i as int], now as int, self.spec_ttl()),
    {
        (self.entries[i].created_at as i128) <= (now as i128) - (self.ttl_seconds as i128)
    }

    fn lru_pos(&self) -> (r: usize)
        requires
            self@.len() > 0,
        ensures
            r as int == lru_index(self@),
    {
        let n = self.entries.len();
        let mut best: usize = 0;
        let mut i: usize = 1;
        while i < n
            invariant
                n == self@.len(),
                n > 0,
                best < i <= n,
                forall|j: int|
                    0 <= j < i ==> self@[best as int].accessed_at <= (#[trigger] self@[j]).accessed_at,
                forall|j: int|
                    0 <= j < best ==> (#[trigger] self@[j]).accessed_at > self@[best as int].accessed_at,
            decreases n - i,
        {
            if self.entries[i].accessed_at < self.entries[best].accessed_at {
                best = i;
            }
            i = i + 1;
        }
        proof {
            lemma_lru_index(self@);
            let w = lru_index(self@);
            if w < best as int {
                assert(self@[w].accessed_at > self@[best as int].accessed_at);
                assert(self@[best as int].accessed_at >= self@[w].accessed_at);
                assert(false);
            }
            if w > best as int {
                assert(self@[best as int].accessed_at > self@[w].accessed_at);
                assert(self@[w].accessed_at >= self@[best as int].accessed_at);
                assert(false);
            }
        }
        best
    }

    /// Insert or replace the entry for `key` as of time `now`, then
    /// sweep expired entries and evict down to the cap.
    pub fn put_at(&mut self, key: &str, model: &str, response: &str, token_count: u32, now: i64)
        requires
            old(self).wf(),
        ensures
            final(self).wf(),
            final(self).spec_ttl() == old(self).spec_ttl(),
            final(self).spec_max() == old(self).spec_max(),
            final(self)@ == spec_put(
                old(self)@,
                key@,
                model@,
                response@,
                token_count,
                now,
                old(self).spec_ttl(),
                old(self).spec_max(),
            ),
            final(self)@.len() <= old(self).spec_max(),
    {
        let ghost s0 = self@;
        let ghost ttl = self.spec_ttl();
        let ghost max = self.spec_max();
        // Replace any existing entry for the key.
        let found = self.find_index(key);
        match found {
            Some(i) => {
                self.entries.remove(i);
                proof {
                    assert(self@ =~= s0.remove(i as int));
                }
            },
            None => (),
        }
        let ghost without = self@;
        proof {
            let i = index_of_ckey(s0, key@);
            assert(without == if i >= 0 {
                s0.remove(i)
            } else {
                s0
            });
        }
        self.entries.push(
            CacheEntry {
                key: string_of(key),
                model: string_of(model),
                response: string_of(response),
                token_count: token_count,
                created_at: now,
                accessed_at: now,
                hit_count: 0,
            },
        );
        let ghost inserted = self@;
        proof {
            assert(inserted =~= without.push(
                new_cache_entry(key@, model@, response@, token_count, now),
            ));
        }
        // Sweep expired entries.
        let ghost pred = |e: CacheEntryView| !spec_expired(e, now as int, ttl);
        let n = self.entries.len();
        let mut kept: Vec<CacheEntry> = Vec::new();
        let mut i: usize = 0;
        while i < n
            invariant
                n == self@.len(),
                i <= n,
                self@ == inserted,
                ttl == self.spec_ttl(),
                pred == (|e: CacheEntryView| !spec_expired(e, now as int, ttl)),
                cache_views(kept@) == inserted.subrange(0, i as int).filter(pred),
            decreases n - i,
        {
            let keep = !self.expired_at(i, now);
            let ghost kept_old = kept@;
            if keep {
                let e = &self.entries[i];
                kept.push(e.clone());
                proof {
                    assert(cache_views(kept@) =~= cache_views(kept_old).push(self@[i as int]));
                }
            }
            proof {
                let prefix = inserted.subrange(0, i as int);
                assert(inserted.subrange(0, i + 1) =~= prefix.push(inserted[i as int]));
                lemma_filter_push_c(prefix, inserted[i as int], pred);
            }
            i = i + 1;
        }
        self.entries = kept;
        let ghost swept = self@;
        proof {
            assert(inserted.subrange(0, n as int) =~= inserted);
            assert(swept == inserted.filter(pred));
        }
        // Evict least-recently-used entries down to the cap.
        while self.entries.len() > self.max_entries
            invariant
                ttl == self.spec_ttl(),
                max == self.spec_max(),
                spec_evict(self@, max) == spec_evict(swept, max),
            decreases self@.len(),
        {
            let li = self.lru_pos();
            let ghost cur = self@;
            proof {
                lemma_lru_index(cur);
            }
            self.entries.remove(li);
            proof {
                assert(self@ =~= cur.remove(lru_index(cur)));
                assert(spec_evict(cur, max) == spec_evict(cur.remove(lru_index(cur)), max));
            }
        }
        proof {
            assert(self@.len() <= max);
            assert(spec_evict(self@, max) == self@);
            assert(self@ == spec_evict(swept, max));
            // The result is exactly spec_put.
            assert(self@ == spec_put(s0, key@, model@, response@, token_count, now, ttl, max));
            // Uniqueness is preserved through every stage.
            lemma_put_unique(s0, key@, model@, response@, token_count, now, ttl, max);
        }
    }

    /// Insert or replace the entry for `key` at the current wall-clock
    /// time.
    pub fn put(&mut self, key: &str, model: &str, response: &str, token_count: u32)
        requires
            old(self).wf(),
        ensures
            final(self).wf(),
            final(self).spec_ttl() == old(self).spec_ttl(),
            final(self).spec_max() == old(self).spec_max(),
            exists|now: i64|
                final(self)@ == spec_put(
                    old(self)@,
                    key@,
                    model@,
                    response@,
                    token_count,
                    now,
                    old(self).spec_ttl(),
                    old(self).spec_max(),
                ),
            final(self)@.len() <= old(self).spec_max(),
    {
        let now = now_epoch_seconds();
        self.put_at(key, model, response, token_count, now);
        proof {
            let ghost w = now;
            assert(self@ == spec_put(
                old(self)@,
                key@,
                model@,
                response@,
                token_count,
                w,
                old(self).spec_ttl(),
                old(self).spec_max(),
            ));
        }
    }

    /// Look up `key` as of time `now`. An expired entry found here is
    /// deleted at once; a live entry answers a copy of its response and
    /// registers exactly one hit.
    pub fn get_at(&mut self, key: &str, now: i64) -> (r: Option<String>)
        requires
            old(self).wf(),
        ensures
            final(self).wf(),
            final(self).spec_ttl() == old(self).spec_ttl(),
            final(self).spec_max() == old(self).spec_max(),
            final(self)@ == spec_get(old(self)@, key@, now, old(self).spec_ttl()).0,
            opt_string_view(r) == spec_get(old(self)@, key@, now, old(self).spec_ttl()).1,
    {
        let ghost s0 = self@;
        let found = self.find_index(key);
        match found {
            Some(i) => {
                if self.expired_at(i, now) {
                    self.entries.remove(i);
                    proof {
                        assert(self@ =~= s0.remove(i as int));
                        let t = s0.remove(i as int);
                        assert(forall|j: int|
                            0 <= j < t.len() ==> #[trigger] t[j] == if j < i as int {
                                s0[j]
                            } else {
                                s0[j + 1]
                            });
                        assert forall|a: int, b: int| 0 <= a < b < t.len() implies t[a].key != t[b].key by {
                            let a0 = if a < i as int {
                                a
                            } else {
                                a + 1
                            };
                            let b0 = if b < i as int {
                                b
                            } else {
                                b + 1
                            };
                            assert(t[a] == s0[a0] && t[b] == s0[b0]);
                            assert(s0[a0].key != s0[b0].key);
                        }
                        assert(unique_ckeys(self@));
                    }
                    None
                } else {
                    let mut e = self.entries.remove(i);
                    if e.hit_count < u64::MAX {
                        e.hit_count = e.hit_count + 1;
                    }
                    e.accessed_at = now;
                    let resp = e.response.clone();
                    self.entries.insert(i, e);
                    proof {
                        assert(self@ =~= s0.update(i as int, hit_entry(s0[i as int], now)));
                        assert(forall|j: int|
                            0 <= j < self@.len() ==> (#[trigger] self@[j]).key == s0[j].key);
                        assert forall|a: int, b: int|
                            0 <= a < b < self@.len() implies self@[a].key != self@[b].key by {
                            assert(s0[a].key != s0[b].key);
                        }
                        assert(unique_ckeys(self@));
                    }
                    Some(resp)
                }
            },
            None => None,
        }
    }

    /// Look up `key` at the current wall-clock time.
    pub fn get(&mut self, key: &str) -> (r: Option<String>)
        requires
            old(self).wf(),
        ensures
            final(self).wf(),
            final(self).spec_ttl() == old(self).spec_ttl(),
            final(self).spec_max() == old(self).spec_max(),
            exists|now: i64|
                final(self)@ == spec_get(old(self)@, key@, now, old(self).spec_ttl()).0
                    && opt_string_view(r) == spec_get(old(self)@, key@, now, old(self).spec_ttl()).1,
            r is Some ==> has_ckey(old(self)@, key@),
    {
        let now = now_epoch_seconds();
        let r = self.get_at(key, now);
        proof {
            let ghost w = now;
            assert(self@ == spec_get(old(self)@, key@, w, old(self).spec_ttl()).0
                && opt_string_view(r) == spec_get(old(self)@, key@, w, old(self).spec_ttl()).1);
            lemma_index_of_ckey(old(self)@, key@);
        }
        r
    }

    /// Cache statistics: entry count, total hits over all entries, and
    /// tokens saved counting each hit as one avoided call of the entry's
    /// cost. The sums saturate at the largest 64-bit value.
    pub fn stats(&self) -> (r: (usize, u64, u64))
        ensures
            r.0 == self@.len(),
            r.1 == total_hits(self@),
            r.2 == total_tokens_saved(self@),
    {
        let n = self.entries.len();
        let mut hits: u64 = 0;
        let mut saved: u64 = 0;
        let mut i: usize = 0;
        while i < n
            invariant
                n == self@.len(),
                i <= n,
                hits == total_hits(self@.subrange(0, i as int)),
                saved == total_tokens_saved(self@.subrange(0, i as int)),
            decreases n - i,
        {
            let e = &self.entries[i];
            let ghost prefix = self@.subrange(0, i as int);
            hits = sat_add_u64(hits, e.hit_count);
            let prod = sat_mul_u64(e.hit_count, e.token_count as u64);
            saved = sat_add_u64(saved, prod);
            proof {
                let ext = self@.subrange(0, i + 1);
                assert(ext.drop_last() =~= prefix);
                assert(ext.last() == self@[i as int]);
                assert(sat64(sat64(total_tokens_saved(prefix) + sat64(ext.last().hit_count * ext.last().token_count))) == total_tokens_saved(ext));
            }
            i = i + 1;
        }
        proof {
            assert(self@.subrange(0, n as int) =~= self@);
        }
        (n, hits, saved)
    }

    /// Empty the cache, returning how many entries were present.
    pub fn clear(&mut self) -> (r: usize)
        requires
            old(self).wf(),
        ensures
            final(self).wf(),
            final(self).spec_ttl() == old(self).spec_ttl(),
            final(self).spec_max() == old(self).spec_max(),
            r == old(self)@.len(),
            final(self)@ == Seq::<CacheEntryView>::empty(),
    {
        let n = self.entries.len();
        self.entries.clear();
        proof {
            assert(self@ =~= Seq::<CacheEntryView>::empty());
        }
        n
    }
}

fn sat_add_u64(a: u64, b: u64) -> (r: u64)
    ensures
        r == sat64(a + b),
{
    if u64::MAX - a < b {
        u64::MAX
    } else {
        a + b
    }
}

fn sat_mul_u64(a: u64, b: u64) -> (r: u64)
    ensures
        r == sat64(a * b),
{
    if a == 0 || b == 0 {
        0
    } else {
        let q = u64::MAX / b;
        proof {
            let aa = a as int;
            let bb = b as int;
            let qq = q as int;
            let mm = u64::MAX as int;
            lemma_fundamental_div_mod(mm, bb);
            assert(mm == bb * qq + mm % bb);
            assert(mm % bb < bb);
            assert(qq * bb == bb * qq) by (nonlinear_arith);
            if a <= q {
                lemma_mul_inequality(aa, qq, bb);
                assert(aa * bb <= qq * bb);
                assert(aa * bb <= mm);
            } else {
                lemma_mul_inequality(qq + 1, aa, bb);
                assert((qq + 1) * bb <= aa * bb);
                assert((qq + 1) * bb == qq * bb + bb) by (nonlinear_arith);
                assert(aa * bb >= bb * qq + bb);
                assert(aa * bb > mm);
            }
        }
        if a > q {
            u64::MAX
        } else {
            a * b
        }
    }
}

proof fn lemma_filter_push_c(
    s: Seq<CacheEntryView>,
    x: CacheEntryView,
    pred: spec_fn(CacheEntryView) -> bool,
)
    ensures
        s.push(x).filter(pred) == if pred(x) {
            s.filter(pred).push(x)
        } else {
            s.filter(pred)
        },
{
    reveal(Seq::filter);
    assert(s.push(x).drop_last() =~= s);
    assert(s.push(x).last() == x);
}

/// Filtering keeps keys unique.
proof fn lemma_filter_unique_ckeys(s: Seq<CacheEntryView>, pred: spec_fn(CacheEntryView) -> bool)
    requires
        unique_ckeys(s),
    ensures
        unique_ckeys(s.filter(pred)),
        forall|j: int|
            0 <= j < s.filter(pred).len() ==> exists|i: int|
                0 <= i < s.len() && s[i] == #[trigger] s.filter(pred)[j],
    decreases s.len(),
{
    reveal(Seq::filter);
    if s.len() > 0 {
        let t = s.drop_last();
        assert(forall|i: int| 0 <= i < t.len() ==> t[i] == s[i]);
        lemma_filter_unique_ckeys(t, pred);
        let ft = t.filter(pred);
        if pred(s.last()) {
            assert(s.filter(pred) == ft.push(s.last()));
            let r = s.filter(pred);
            assert forall|j: int| 0 <= j < r.len() implies exists|i: int|
                0 <= i < s.len() && s[i] == #[trigger] r[j] by {
                if j < ft.len() {
                    assert(r[j] == ft[j]);
                    let w = choose|i: int| 0 <= i < t.len() && t[i] == ft[j];
                    assert(s[w] == r[j]);
                } else {
                    assert(r[j] == s.last());
                    assert(s[s.len() - 1] == r[j]);
                }
            }
            assert forall|a: int, b: int| 0 <= a < b < r.len() implies r[a].key != r[b].key by {
                if b < ft.len() {
                    assert(r[a] == ft[a] && r[b] == ft[b]);
                } else {
                    assert(r[b] == s.last());
                    assert(r[a] == ft[a]);
                    let w = choose|i: int| 0 <= i < t.len() && t[i] == ft[a];
                    assert(s[w].key != s[s.len() - 1].key);
                }
            }
        } else {
            assert(s.filter(pred) == ft);
        }
    }
}

/// Eviction removes entries only: uniqueness and any absent key stay
/// absent.
proof fn lemma_evict_unique(s: Seq<CacheEntryView>, max: int)
    requires
        unique_ckeys(s),
    ensures
        unique_ckeys(spec_evict(s, max)),
        forall|j: int|
            0 <= j < spec_evict(s, max).len() ==> exists|i: int|
                0 <= i < s.len() && s[i] == #[trigger] spec_evict(s, max)[j],
    decreases s.len(),
{
    if s.len() <= max || s.len() == 0 {
        assert forall|j: int| 0 <= j < s.len() implies exists|i: int|
            0 <= i < s.len() && s[i] == #[trigger] s[j] by {
            assert(s[j] == s[j]);
        }
    } else {
        lemma_lru_index(s);
        let li = lru_index(s);
        let t = s.remove(li);
        assert(forall|j: int|
            0 <= j < t.len() ==> #[trigger] t[j] == if j < li {
                s[j]
            } else {
                s[j + 1]
            });
        assert forall|a: int, b: int| 0 <= a < b < t.len() implies t[a].key != t[b].key by {
            let a0 = if a < li {
                a
            } else {
                a + 1
            };
            let b0 = if b < li {
                b
            } else {
                b + 1
            };
            assert(t[a] == s[a0] && t[b] == s[b0]);
            assert(s[a0].key != s[b0].key);
        }
        lemma_evict_unique(t, max);
        assert forall|j: int| 0 <= j < spec_evict(s, max).len() implies exists|i: int|
            0 <= i < s.len() && s[i] == #[trigger] spec_evict(s, max)[j] by {
            assert(spec_evict(s, max) == spec_evict(t, max));
            let w = choose|i: int| 0 <= i < t.len() && t[i] == spec_evict(t, max)[j];
            let w0 = if w < li {
                w
            } else {
                w + 1
            };
            assert(s[w0] == spec_evict(s, max)[j]);
        }
    }
}

/// A put leaves the keys unique.
proof fn lemma_put_unique(
    s: Seq<CacheEntryView>,
    k: Seq<char>,
    model: Seq<char>,
    response: Seq<char>,
    token_count: u32,
    now: i64,
    ttl: int,
    max: int,
)
    requires
        unique_ckeys(s),
    ensures
        unique_ckeys(spec_put(s, k, model, response, token_count, now, ttl, max)),
{
    lemma_index_of_ckey(s, k);
    let i = index_of_ckey(s, k);
    let without = if i >= 0 {
        s.remove(i)
    } else {
        s
    };
    if i >= 0 {
        let t = s.remove(i);
        assert(forall|j: int|
            0 <= j < t.len() ==> #[trigger] t[j] == if j < i {
                s[j]
            } else {
                s[j + 1]
            });
        assert forall|a: int, b: int| 0 <= a < b < t.len() implies t[a].key != t[b].key by {
            let a0 = if a < i {
                a
            } else {
                a + 1
            };
            let b0 = if b < i {
                b
            } else {
                b + 1
            };
            assert(t[a] == s[a0] && t[b] == s[b0]);
            assert(s[a0].key != s[b0].key);
        }
        assert forall|j: int| 0 <= j < t.len() implies (#[trigger] t[j]).key != k by {
            let j0 = if j < i {
                j
            } else {
                j + 1
            };
            assert(t[j] == s[j0]);
            if j0 != i && s[j0].key == k {
                assert(s[i].key == k);
                if j0 < i {
                    assert(s[j0].key != s[i].key);
                } else {
                    assert(s[i].key != s[j0].key);
                }
            }
        }
    } else {
        assert forall|j: int| 0 <= j < without.len() implies (#[trigger] without[j]).key != k by {
            if without[j].key == k {
                assert(has_ckey(s, k));
            }
        }
    }
    let ne = new_cache_entry(k, model, response, token_count, now);
    let inserted = without.push(ne);
    assert forall|a: int, b: int| 0 <= a < b < inserted.len() implies inserted[a].key != inserted[b].key by {
        if b == inserted.len() - 1 {
            assert(inserted[a] == without[a]);
            assert(inserted[b] == ne);
        } else {
            assert(inserted[a] == without[a] && inserted[b] == without[b]);
        }
    }
    let pred = |e: CacheEntryView| !spec_expired(e, now as int, ttl);
    lemma_filter_unique_ckeys(inserted, pred);
    lemma_evict_unique(inserted.filter(pred), max);
}

/// After eviction at most `max` entries remain (for any non-negative
/// cap); with a cap of zero the cache is empty.
pub proof fn lemma_evict_cap(s: Seq<CacheEntryView>, max: int)
    requires
        max >= 0,
    ensures
        spec_evict(s, max).len() <= max,
    decreases s.len(),
{
    if s.len() <= max || s.len() == 0 {
    } else {
        lemma_lru_index(s);
        lemma_evict_cap(s.remove(lru_index(s)), max);
    }
}

/// A put never leaves more entries than the configured cap; with a cap
/// of zero it leaves none.
pub proof fn lemma_put_respects_cap(
    s: Seq<CacheEntryView>,
    k: Seq<char>,
    model: Seq<char>,
    response: Seq<char>,
    token_count: u32,
    now: i64,
    ttl: int,
    max: int,
)
    requires
        max >= 0,
    ensures
        spec_put(s, k, model, response, token_count, now, ttl, max).len() <= max,
{
    let i = index_of_ckey(s, k);
    let without = if i >= 0 {
        s.remove(i)
    } else {
        s
    };
    let inserted = without.push(new_cache_entry(k, model, response, token_count, now));
    let pred = |e: CacheEntryView| !spec_expired(e, now as int, ttl);
    lemma_evict_cap(inserted.filter(pred), max);
}

/// With a zero (or negative) time-to-live the inserted entry expires the
/// moment it is written: after the put no entry for the key remains, and
/// a get of that key misses at every later (or equal, or any) time.
pub proof fn lemma_zero_ttl_put_then_get_misses(
    s: Seq<CacheEntryView>,
    k: Seq<char>,
    model: Seq<char>,
    response: Seq<char>,
    token_count: u32,
    now: i64,
    now2: i64,
    ttl: int,
    max: int,
)
    requires
        unique_ckeys(s),
        ttl <= 0,
    ensures
        !has_ckey(spec_put(s, k, model, response, token_count, now, ttl, max), k),
        spec_get(spec_put(s, k, model, response, token_count, now, ttl, max), k, now2, ttl).1
            is None,
{
    lemma_index_of_ckey(s, k);
    let i = index_of_ckey(s, k);
    let without = if i >= 0 {
        s.remove(i)
    } else {
        s
    };
    let ne = new_cache_entry(k, model, response, token_count, now);
    let inserted = without.push(ne);
    let pred = |e: CacheEntryView| !spec_expired(e, now as int, ttl);
    assert(spec_expired(ne, now as int, ttl));
    lemma_put_unique(s, k, model, response, token_count, now, ttl, max);
    // No entry of `without` holds the key (shown as in lemma_put_unique).
    if i >= 0 {
        let t = s.remove(i);
        assert(forall|j: int|
            0 <= j < t.len() ==> #[trigger] t[j] == if j < i {
                s[j]
            } else {
                s[j + 1]
            });
        assert forall|j: int| 0 <= j < t.len() implies (#[trigger] t[j]).key != k by {
            let j0 = if j < i {
                j
            } else {
                j + 1
            };
            assert(t[j] == s[j0]);
            if j0 != i && s[j0].key == k {
                if j0 < i {
                    assert(s[j0].key != s[i].key);
                } else {
                    assert(s[i].key != s[j0].key);
                }
            }
        }
    } else {
        assert forall|j: int| 0 <= j < without.len() implies (#[trigger] without[j]).key != k by {
            if without[j].key == k {
                assert(has_ckey(s, k));
            }
        }
    }
    // Every entry of the swept sequence comes from `inserted` and
    // satisfies the liveness predicate, so none holds the key.
    let swept = inserted.filter(pred);
    lemma_filter_unique_ckeys(inserted, pred);
    assert forall|j: int| 0 <= j < swept.len() implies (#[trigger] swept[j]).key != k by {
        assert(inserted.filter(pred) == swept);
        inserted.lemma_filter_pred(pred, j);
        assert(pred(inserted.filter(pred)[j]));
        assert(exists|i2: int|
            0 <= i2 < inserted.len() && inserted[i2] == inserted.filter(pred)[j]);
        let w = choose|i2: int| 0 <= i2 < inserted.len() && inserted[i2] == swept[j];
        if swept[j].key == k {
            if w < without.len() {
                assert(inserted[w] == without[w]);
            } else {
                assert(inserted[w] == ne);
                assert(!pred(ne));
            }
        }
    }
    let result = spec_evict(swept, max);
    lemma_evict_unique(swept, max);
    assert forall|j: int| 0 <= j < result.len() implies (#[trigger] result[j]).key != k by {
        let w = choose|i2: int| 0 <= i2 < swept.len() && swept[i2] == result[j];
        assert(swept[w].key != k);
    }
    if has_ckey(result, k) {
        let w = choose|i2: int| 0 <= i2 < result.len() && result[i2].key == k;
        assert(false);
    }
    lemma_index_of_ckey(result, k);
}

/// Two cache-key pre-images over different models (system prompt and
/// user prompt held fixed) differ.
pub proof fn lemma_cache_key_chars_model(
    m1: Seq<char>,
    m2: Seq<char>,
    system: Option<Seq<char>>,
    user: Seq<char>,
)
    requires
        m1 != m2,
    ensures
        cache_key_chars(m1, system, user) != cache_key_chars(m2, system, user),
{
    let w1 = cache_key_chars(m1, system, user);
    let w2 = cache_key_chars(m2, system, user);
    if m1.len() != m2.len() {
        assert(w1.len() != w2.len());
    } else if w1 == w2 {
        assert forall|j: int| 0 <= j < m1.len() implies m1[j] == m2[j] by {
            assert(w1[j] == m1[j]);
            assert(w2[j] == m2[j]);
        }
        assert(m1 =~= m2);
    }
}

/// Two cache-key pre-images over different user prompts (model and
/// system prompt held fixed) differ.
pub proof fn lemma_cache_key_chars_user(
    model: Seq<char>,
    system: Option<Seq<char>>,
    u1: Seq<char>,
    u2: Seq<char>,
)
    requires
        u1 != u2,
    ensures
        cache_key_chars(model, system, u1) != cache_key_chars(model, system, u2),
{
    let w1 = cache_key_chars(model, system, u1);
    let w2 = cache_key_chars(model, system, u2);
    let p = model.len() + 2 + system_segment(system).len() + 1;
    if u1.len() != u2.len() {
        assert(w1.len() != w2.len());
    } else if w1 == w2 {
        assert forall|j: int| 0 <= j < u1.len() implies u1[j] == u2[j] by {
            assert(w1[p + j] == u1[j]);
            assert(w2[p + j] == u2[j]);
        }
        assert(u1 =~= u2);
    }
}

/// Two cache-key pre-images over different system prompts (model and
/// user prompt held fixed) differ — including an absent prompt against
/// an empty one, which the presence marker keeps apart.
pub proof fn lemma_cache_key_chars_system(
    model: Seq<char>,
    s1: Option<Seq<char>>,
    s2: Option<Seq<char>>,
    user: Seq<char>,
)
    requires
        s1 != s2,
    ensures
        cache_key_chars(model, s1, user) != cache_key_chars(model, s2, user),
{
    let w1 = cache_key_chars(model, s1, user);
    let w2 = cache_key_chars(model, s2, user);
    let pm = model.len() as int + 1;
    if system_marker(s1) != system_marker(s2) {
        if w1 == w2 {
            assert(w1[pm] == system_marker(s1));
            assert(w2[pm] == system_marker(s2));
        }
    } else {
        // Equal markers mean both prompts are present, so the inner
        // sequences must differ.
        let g1 = system_segment(s1);
        let g2 = system_segment(s2);
        assert(s1 is Some && s2 is Some);
        assert(g1 != g2);
        let p = model.len() + 2;
        if g1.len() != g2.len() {
            assert(w1.len() != w2.len());
        } else if w1 == w2 {
            assert forall|j: int| 0 <= j < g1.len() implies g1[j] == g2[j] by {
                assert(w1[p + j] == g1[j]);
                assert(w2[p + j] == g2[j]);
            }
            assert(g1 =~= g2);
        }
    }
}

} // verus!
