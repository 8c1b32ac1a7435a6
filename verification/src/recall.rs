//! The recall engine: hybrid retrieval that prefers vector similarity and
//! falls back to case-insensitive keyword matching.
//!
//! Vector distances come from the backing vector index; the engine takes
//! them as plain fixed-point values, converts them to similarity scores,
//! filters below-threshold candidates, ranks the rest and truncates to
//! the requested limit. When no query embedding is available, or every
//! candidate falls below the threshold, the keyword path answers instead.

use vstd::prelude::*;
use vstd::seq_lib::*;
use crate::entry::{EntryView, MemoryEntry, opt_str_view};
use crate::store::{sess_match, views_of, MemoryStore};
use crate::text::{contains_ci, contains_ci_exec, str_eq};

verus! {

/// Fixed-point scale used for similarity scores: 1000 stands for 1.0.
pub const SCORE_SCALE: u32 = 1000;

/// Minimum similarity score (in thousandths) a vector candidate needs to
/// appear in recall results.
pub const MIN_SIMILARITY: u32 = 300;

/// Nominal score (in thousandths) assigned to keyword matches; keyword
/// matches are never true similarity scores.
pub const KEYWORD_SCORE: u32 = 500;

/// Similarity of a cosine distance given in thousandths:
/// `max(1000 - d, 0)`.
pub open spec fn spec_similarity(distance: int) -> int {
    if distance >= SCORE_SCALE {
        0
    } else {
        SCORE_SCALE - distance
    }
}

/// Convert a cosine distance (0 = identical direction, 2000 = opposite,
/// in thousandths) to a similarity score in `[0, 1000]`.
pub fn similarity_from_distance(distance: u32) -> (s: u32)
    ensures
        s == spec_similarity(distance as int),
{
    if distance >= SCORE_SCALE {
        0
    } else {
        SCORE_SCALE - distance
    }
}

/// A recall result: an entry together with its score in thousandths.
#[derive(Debug)]
pub struct ScoredEntry {
    pub entry: MemoryEntry,
    pub score: u32,
}

/// Mathematical view of a `ScoredEntry`.
pub struct ScoredView {
    pub entry: EntryView,
    pub score: u32,
}

impl View for ScoredEntry {
    type V = ScoredView;

    open spec fn view(&self) -> ScoredView {
        ScoredView { entry: self.entry@, score: self.score }
    }
}

impl Clone for ScoredEntry {
    fn clone(&self) -> (r: Self)
        ensures
            r@ == self@,
    {
        ScoredEntry { entry: self.entry.clone(), score: self.score }
    }
}

/// Views of a sequence of scored entries.
pub open spec fn scored_views(s: Seq<ScoredEntry>) -> Seq<ScoredView> {
    s.map_values(|e: ScoredEntry| e@)
}

/// The first `limit` elements of `s`, or all of them when there are
/// fewer.
pub open spec fn truncated<A>(s: Seq<A>, limit: int) -> Seq<A> {
    if s.len() <= limit {
        s
    } else {
        s.subrange(0, limit)
    }
}

/// Filter for the vector path: the entry carries an embedding and falls
/// under the session filter.
pub open spec fn vector_pred(sess: Option<Seq<char>>) -> spec_fn(EntryView) -> bool {
    |e: EntryView| e.has_embedding && sess_match(e, sess)
}

/// The entries eligible for vector ranking, in store order.
pub open spec fn vector_candidates_spec(s: Seq<EntryView>, sess: Option<Seq<char>>) -> Seq<
    EntryView,
> {
    s.filter(vector_pred(sess))
}

/// Pair each candidate with the similarity derived from its distance.
pub open spec fn attach_scores(cands: Seq<EntryView>, dists: Seq<u32>) -> Seq<ScoredView> {
    Seq::new(
        cands.len(),
        |i: int| ScoredView { entry: cands[i], score: spec_similarity(dists[i] as int) as u32 },
    )
}

/// Keep only candidates at or above the similarity threshold.
pub open spec fn above_threshold(s: Seq<ScoredView>) -> Seq<ScoredView> {
    s.filter(|p: ScoredView| p.score >= MIN_SIMILARITY)
}

/// Insert `p` into the descending-sorted `s`, after any elements of equal
/// score.
pub open spec fn insert_desc(p: ScoredView, s: Seq<ScoredView>) -> Seq<ScoredView>
    decreases s.len(),
{
    if s.len() == 0 {
        seq![p]
    } else if p.score > s[0].score {
        seq![p] + s
    } else {
        seq![s[0]] + insert_desc(p, s.drop_first())
    }
}

/// Stable sort by score, highest first; elements of equal score keep
/// their original relative order.
pub open spec fn sort_desc(s: Seq<ScoredView>) -> Seq<ScoredView>
    decreases s.len(),
{
    if s.len() == 0 {
        s
    } else {
        insert_desc(s.last(), sort_desc(s.drop_last()))
    }
}

/// Scores never increase along the sequence.
pub open spec fn sorted_desc(s: Seq<ScoredView>) -> bool {
    forall|i: int, j: int| 0 <= i < j < s.len() ==> s[i].score >= s[j].score
}

/// The vector ranking: similarity scores attached, the threshold
/// applied, sorted best-first, truncated to the limit.
pub open spec fn spec_vector_rank(cands: Seq<EntryView>, dists: Seq<u32>, limit: int) -> Seq<
    ScoredView,
> {
    truncated(sort_desc(above_threshold(attach_scores(cands, dists))), limit)
}

/// The query occurs in the entry's content or key, ignoring ASCII case.
pub open spec fn keyword_matches(e: EntryView, q: Seq<char>) -> bool {
    contains_ci(e.content, q) || contains_ci(e.key, q)
}

/// Filter for the keyword path.
pub open spec fn keyword_pred(q: Seq<char>, sess: Option<Seq<char>>) -> spec_fn(
    EntryView,
) -> bool {
    |e: EntryView| keyword_matches(e, q) && sess_match(e, sess)
}

/// Give each keyword match the fixed nominal score.
pub open spec fn with_keyword_scores(s: Seq<EntryView>) -> Seq<ScoredView> {
    s.map_values(|e: EntryView| ScoredView { entry: e, score: KEYWORD_SCORE })
}

/// The keyword fallback: matching entries in store order (most recently
/// updated first), truncated to the limit, each with the nominal score.
pub open spec fn spec_keyword_recall(
    s: Seq<EntryView>,
    q: Seq<char>,
    sess: Option<Seq<char>>,
    limit: int,
) -> Seq<ScoredView> {
    with_keyword_scores(truncated(s.filter(keyword_pred(q, sess)), limit))
}

/// The whole recall algorithm. `dists` is the outcome of the embedding
/// step: `None` when no query embedding could be obtained, otherwise one
/// cosine distance (in thousandths) per vector candidate. An empty query
/// recalls nothing; a non-empty vector ranking is the final answer; the
/// keyword fallback answers otherwise.
pub open spec fn spec_recall(
    s: Seq<EntryView>,
    q: Seq<char>,
    limit: int,
    sess: Option<Seq<char>>,
    dists: Option<Seq<u32>>,
) -> Seq<ScoredView> {
    if q.len() == 0 {
        Seq::empty()
    } else {
        let vec_part = match dists {
            Some(d) => spec_vector_rank(vector_candidates_spec(s, sess), d, limit),
            None => Seq::empty(),
        };
        if vec_part.len() > 0 {
            vec_part
        } else {
            spec_keyword_recall(s, q, sess, limit)
        }
    }
}

proof fn lemma_filter_push<A>(s: Seq<A>, x: A, pred: spec_fn(A) -> bool)
    ensures
        s.push(x).filter(pred) == if pred(x) {
            s.filter(pred).push(x)
        } else {
            s.filter(pred)
        },
{
    reveal(Seq::filter);
    assert(s.push(x).drop_last() =~= s);
    assert(s.push(x).last() == x);
}

impl MemoryStore {
    /// The entries eligible for vector ranking: those carrying an
    /// embedding and matching the session filter, in store order.
    pub fn vector_candidates(&self, session_id: Option<&str>) -> (r: Vec<MemoryEntry>)
        ensures
            views_of(r@) == vector_candidates_spec(self@, opt_str_view(session_id)),
    {
        let ghost pred = vector_pred(opt_str_view(session_id));
        let n = self.count();
        let mut r: Vec<MemoryEntry> = Vec::new();
        let mut i: usize = 0;
        while i < n
            invariant
                n == self@.len(),
                i <= n,
                pred == vector_pred(opt_str_view(session_id)),
                views_of(r@) == self@.subrange(0, i as int).filter(pred),
            decreases n - i,
        {
            let e = self.entry_at(i);
            let sess_ok = match session_id {
                None => true,
                Some(s) => match &e.session_id {
                    Some(es) => str_eq(s, es.as_str()),
                    None => false,
                },
            };
            proof {
                assert(sess_ok == sess_match(self@[i as int], opt_str_view(session_id)));
            }
            let ghost r_old = r@;
            if e.has_embedding && sess_ok {
                r.push(e.clone());
                proof {
                    assert(views_of(r@) =~= views_of(r_old).push(self@[i as int]));
                }
            }
            proof {
                let prefix = self@.subrange(0, i as int);
                assert(self@.subrange(0, i + 1) =~= prefix.push(self@[i as int]));
                lemma_filter_push(prefix, self@[i as int], pred);
            }
            i = i + 1;
        }
        proof {
            assert(self@.subrange(0, n as int) =~= self@);
        }
        r
    }
}

proof fn lemma_insert_desc_at(p: ScoredView, t: Seq<ScoredView>, k: int)
    requires
        0 <= k <= t.len(),
        forall|j: int| 0 <= j < k ==> (#[trigger] t[j]).score >= p.score,
        k < t.len() ==> p.score > t[k].score,
    ensures
        insert_desc(p, t) == t.subrange(0, k) + seq![p] + t.subrange(k, t.len() as int),
    decreases k,
{
    if k == 0 {
        if t.len() == 0 {
            assert(insert_desc(p, t) =~= t.subrange(0, 0) + seq![p] + t.subrange(
                0,
                t.len() as int,
            ));
        } else {
            assert(p.score > t[0].score);
            assert(insert_desc(p, t) == seq![p] + t);
            assert(seq![p] + t =~= t.subrange(0, 0) + seq![p] + t.subrange(0, t.len() as int));
        }
    } else {
        assert(t[0].score >= p.score);
        assert(!(p.score > t[0].score));
        let rest = t.drop_first();
        assert(forall|j: int| 0 <= j < k - 1 ==> #[trigger] rest[j] == t[j + 1]);
        lemma_insert_desc_at(p, rest, k - 1);
        assert(insert_desc(p, t) == seq![t[0]] + insert_desc(p, rest));
        assert(seq![t[0]] + (rest.subrange(0, k - 1) + seq![p] + rest.subrange(
            k - 1,
            rest.len() as int,
        )) =~= t.subrange(0, k) + seq![p] + t.subrange(k, t.len() as int));
    }
}

proof fn lemma_insert_desc_sorted(p: ScoredView, s: Seq<ScoredView>)
    requires
        sorted_desc(s),
    ensures
        sorted_desc(insert_desc(p, s)),
        insert_desc(p, s).len() == s.len() + 1,
    decreases s.len(),
{
    if s.len() == 0 {
    } else if p.score > s[0].score {
        let r = seq![p] + s;
        assert forall|i: int, j: int| 0 <= i < j < r.len() implies r[i].score >= r[j].score by {
            if i == 0 {
                assert(r[j] == s[j - 1]);
                if j > 1 {
                    assert(s[0].score >= s[j - 1].score);
                }
            } else {
                assert(r[i] == s[i - 1] && r[j] == s[j - 1]);
            }
        }
    } else {
        let rest = s.drop_first();
        assert forall|i: int, j: int| 0 <= i < j < rest.len() implies rest[i].score
            >= rest[j].score by {
            assert(rest[i] == s[i + 1] && rest[j] == s[j + 1]);
        }
        lemma_insert_desc_sorted(p, rest);
        let ins = insert_desc(p, rest);
        let r = seq![s[0]] + ins;
        assert(insert_desc(p, s) == r);
        lemma_insert_desc_first(p, rest);
        assert forall|i: int, j: int| 0 <= i < j < r.len() implies r[i].score >= r[j].score by {
            if i == 0 {
                assert(r[j] == ins[j - 1]);
                lemma_insert_desc_head_bound(s[0].score, p, rest, j - 1);
            } else {
                assert(r[i] == ins[i - 1] && r[j] == ins[j - 1]);
            }
        }
    }
}

proof fn lemma_insert_desc_first(p: ScoredView, s: Seq<ScoredView>)
    ensures
        insert_desc(p, s).len() == s.len() + 1,
    decreases s.len(),
{
    if s.len() == 0 {
    } else if p.score > s[0].score {
    } else {
        lemma_insert_desc_first(p, s.drop_first());
    }
}

proof fn lemma_insert_desc_head_bound(bound: u32, p: ScoredView, s: Seq<ScoredView>, j: int)
    requires
        bound >= p.score,
        forall|i: int| 0 <= i < s.len() ==> bound >= (#[trigger] s[i]).score,
        0 <= j < insert_desc(p, s).len(),
    ensures
        bound >= insert_desc(p, s)[j].score,
    decreases s.len(),
{
    if s.len() == 0 {
    } else if p.score > s[0].score {
        let r = seq![p] + s;
        if j > 0 {
            assert(r[j] == s[j - 1]);
        }
    } else {
        let rest = s.drop_first();
        assert(forall|i: int| 0 <= i < rest.len() ==> #[trigger] rest[i] == s[i + 1]);
        if j > 0 {
            lemma_insert_desc_head_bound(bound, p, rest, j - 1);
        }
    }
}

proof fn lemma_insert_desc_all(
    p: ScoredView,
    s: Seq<ScoredView>,
    pred: spec_fn(ScoredView) -> bool,
)
    requires
        pred(p),
        forall|i: int| 0 <= i < s.len() ==> pred(#[trigger] s[i]),
    ensures
        forall|i: int|
            0 <= i < insert_desc(p, s).len() ==> pred(#[trigger] insert_desc(p, s)[i]),
    decreases s.len(),
{
    if s.len() == 0 {
    } else if p.score > s[0].score {
        let r = seq![p] + s;
        assert forall|i: int| 0 <= i < r.len() implies pred(r[i]) by {
            if i > 0 {
                assert(r[i] == s[i - 1]);
            }
        }
    } else {
        let rest = s.drop_first();
        assert(forall|i: int| 0 <= i < rest.len() ==> #[trigger] rest[i] == s[i + 1]);
        lemma_insert_desc_all(p, rest, pred);
        let r = seq![s[0]] + insert_desc(p, rest);
        assert forall|i: int| 0 <= i < r.len() implies pred(r[i]) by {
            if i > 0 {
                assert(r[i] == insert_desc(p, rest)[i - 1]);
            }
        }
    }
}

/// Sorting keeps every property each element already had, keeps the
/// length, and yields a descending sequence.
proof fn lemma_sort_desc_facts(s: Seq<ScoredView>, pred: spec_fn(ScoredView) -> bool)
    requires
        forall|i: int| 0 <= i < s.len() ==> pred(#[trigger] s[i]),
    ensures
        sort_desc(s).len() == s.len(),
        sorted_desc(sort_desc(s)),
        forall|i: int| 0 <= i < sort_desc(s).len() ==> pred(#[trigger] sort_desc(s)[i]),
    decreases s.len(),
{
    if s.len() == 0 {
    } else {
        let rest = s.drop_last();
        assert(forall|i: int| 0 <= i < rest.len() ==> #[trigger] rest[i] == s[i]);
        lemma_sort_desc_facts(rest, pred);
        lemma_insert_desc_sorted(s.last(), sort_desc(rest));
        lemma_insert_desc_all(s.last(), sort_desc(rest), pred);
    }
}

/// Rank vector candidates: attach similarity scores derived from the
/// distances, drop those below the threshold, sort best-first, truncate
/// to `limit`. Every returned entry scores at least the threshold.
pub fn rank_candidates(cands: &Vec<MemoryEntry>, distances: &Vec<u32>, limit: usize) -> (r: Vec<
    ScoredEntry,
>)
    requires
        distances@.len() == cands@.len(),
    ensures
        scored_views(r@) == spec_vector_rank(views_of(cands@), distances@, limit as int),
        forall|j: int| 0 <= j < r@.len() ==> (#[trigger] r@[j]).score >= MIN_SIMILARITY,
        sorted_desc(scored_views(r@)),
        r@.len() <= limit,
{
    let ghost all = attach_scores(views_of(cands@), distances@);
    let n = cands.len();
    let mut kept: Vec<ScoredEntry> = Vec::new();
    let mut i: usize = 0;
    while i < n
        invariant
            n == cands@.len(),
            distances@.len() == n,
            i <= n,
            all == attach_scores(views_of(cands@), distances@),
            scored_views(kept@) == all.subrange(0, i as int).filter(
                |p: ScoredView| p.score >= MIN_SIMILARITY,
            ),
        decreases n - i,
    {
        let score = similarity_from_distance(distances[i]);
        let ghost kept_old = kept@;
        if score >= MIN_SIMILARITY {
            kept.push(ScoredEntry { entry: cands[i].clone(), score: score });
            proof {
                assert(scored_views(kept@) =~= scored_views(kept_old).push(all[i as int]));
            }
        }
        proof {
            let prefix = all.subrange(0, i as int);
            assert(all.subrange(0, i + 1) =~= prefix.push(all[i as int]));
            lemma_filter_push(prefix, all[i as int], |p: ScoredView| p.score >= MIN_SIMILARITY);
        }
        i = i + 1;
    }
    proof {
        assert(all.subrange(0, n as int) =~= all);
    }
    let ghost filtered = above_threshold(all);
    // Stable insertion sort, descending by score.
    let m = kept.len();
    let mut sorted: Vec<ScoredEntry> = Vec::new();
    let mut a: usize = 0;
    while a < m
        invariant
            m == kept@.len(),
            a <= m,
            scored_views(sorted@) == sort_desc(scored_views(kept@).subrange(0, a as int)),
            sorted@.len() == a,
        decreases m - a,
    {
        let x = kept[a].clone();
        let sn = sorted.len();
        let mut k: usize = 0;
        while k < sn && sorted[k].score >= x.score
            invariant
                sn == sorted@.len(),
                k <= sn,
                x@ == kept@[a as int]@,
                forall|j: int| 0 <= j < k ==> (#[trigger] sorted@[j]@).score >= x@.score,
            decreases sn - k,
        {
            k = k + 1;
        }
        let ghost pre = scored_views(sorted@);
        let ghost xv = x@;
        sorted.insert(k, x);
        proof {
            lemma_insert_desc_at(xv, pre, k as int);
            assert(scored_views(sorted@) =~= pre.subrange(0, k as int) + seq![xv] + pre.subrange(
                k as int,
                pre.len() as int,
            ));
            let prefix = scored_views(kept@).subrange(0, a as int);
            assert(scored_views(kept@).subrange(0, a + 1) =~= prefix.push(xv));
            assert(prefix.push(xv).drop_last() =~= prefix);
            assert(scored_views(sorted@) == insert_desc(xv, sort_desc(prefix)));
            lemma_insert_desc_first(xv, sort_desc(prefix));
        }
        a = a + 1;
    }
    proof {
        assert(scored_views(kept@).subrange(0, m as int) =~= scored_views(kept@));
        assert(scored_views(kept@) == filtered);
    }
    if sorted.len() > limit {
        sorted.truncate(limit);
    }
    proof {
        let pre_sorted = sort_desc(filtered);
        assert(scored_views(sorted@) =~= truncated(pre_sorted, limit as int));
        lemma_sort_desc_facts(filtered, |p: ScoredView| p.score >= MIN_SIMILARITY);
        assert forall|j: int| 0 <= j < sorted@.len() implies (#[trigger] sorted@[j]).score
            >= MIN_SIMILARITY by {
            assert(scored_views(sorted@)[j] == sorted@[j]@);
            assert(scored_views(sorted@)[j] == pre_sorted[j]);
            assert(filtered.len() == above_threshold(all).len());
        }
        assert forall|i: int, j: int|
            0 <= i < j < scored_views(sorted@).len() implies scored_views(sorted@)[i].score
            >= scored_views(sorted@)[j].score by {
            assert(scored_views(sorted@)[i] == pre_sorted[i]);
            assert(scored_views(sorted@)[j] == pre_sorted[j]);
        }
    }
    sorted
}

/// Keyword fallback: entries whose content or key contains the query
/// (ignoring ASCII case), under the session filter, most recently
/// updated first, truncated to `limit`, each carrying the fixed nominal
/// score.
pub fn keyword_recall(
    store: &MemoryStore,
    query: &str,
    limit: usize,
    session_id: Option<&str>,
) -> (r: Vec<ScoredEntry>)
    ensures
        scored_views(r@) == spec_keyword_recall(
            store@,
            query@,
            opt_str_view(session_id),
            limit as int,
        ),
        forall|j: int| 0 <= j < r@.len() ==> (#[trigger] r@[j]).score == KEYWORD_SCORE,
        r@.len() <= limit,
{
    let ghost pred = keyword_pred(query@, opt_str_view(session_id));
    let n = store.count();
    let mut r: Vec<ScoredEntry> = Vec::new();
    let mut i: usize = 0;
    while i < n && r.len() < limit
        invariant
            n == store@.len(),
            i <= n,
            r@.len() <= limit,
            pred == keyword_pred(query@, opt_str_view(session_id)),
            scored_views(r@) == with_keyword_scores(store@.subrange(0, i as int).filter(pred)),
        decreases n - i,
    {
        let e = store.entry_at(i);
        let matched = contains_ci_exec(e.content.as_str(), query) || contains_ci_exec(
            e.key.as_str(),
            query,
        );
        let sess_ok = match session_id {
            None => true,
            Some(s) => match &e.session_id {
                Some(es) => str_eq(s, es.as_str()),
                None => false,
            },
        };
        proof {
            assert(matched == keyword_matches(store@[i as int], query@));
            assert(sess_ok == sess_match(store@[i as int], opt_str_view(session_id)));
        }
        let ghost r_old = r@;
        if matched && sess_ok {
            r.push(ScoredEntry { entry: e.clone(), score: KEYWORD_SCORE });
            proof {
                let fe = store@[i as int];
                assert(scored_views(r@) =~= scored_views(r_old).push(
                    ScoredView { entry: fe, score: KEYWORD_SCORE },
                ));
                let prefix = store@.subrange(0, i as int);
                assert(with_keyword_scores(prefix.filter(pred).push(fe)) =~= with_keyword_scores(
                    prefix.filter(pred),
                ).push(ScoredView { entry: fe, score: KEYWORD_SCORE }));
            }
        }
        proof {
            let prefix = store@.subrange(0, i as int);
            assert(store@.subrange(0, i + 1) =~= prefix.push(store@[i as int]));
            lemma_filter_push(prefix, store@[i as int], pred);
        }
        i = i + 1;
    }
    proof {
        let whole = store@.filter(pred);
        let prefix = store@.subrange(0, i as int);
        if i == n {
            assert(prefix =~= store@);
            assert(whole.len() <= limit);
            assert(truncated(whole, limit as int) == whole);
        } else {
            assert(r@.len() == limit);
            let rest = store@.subrange(i as int, n as int);
            assert(store@ =~= prefix + rest);
            Seq::filter_distributes_over_add(prefix, rest, pred);
            assert(whole.len() >= limit);
            assert(truncated(whole, limit as int) =~= prefix.filter(pred)) by {
                assert(prefix.filter(pred).len() == limit);
                assert(forall|j: int|
                    0 <= j < limit ==> whole[j] == (#[trigger] prefix.filter(pred)[j]));
            }
        }
        assert forall|j: int| 0 <= j < r@.len() implies (#[trigger] r@[j]).score
            == KEYWORD_SCORE by {
            assert(scored_views(r@)[j] == r@[j]@);
            assert(scored_views(r@)[j].score == KEYWORD_SCORE);
        }
    }
    r
}

/// The hybrid recall algorithm over the store's entries.
///
/// `distances` is the outcome of the embedding step: `None` when no
/// query embedding could be obtained (the provider failed), otherwise
/// the cosine distance (in thousandths) of the query against each
/// vector candidate of `store.vector_candidates(session_id)`, in order.
///
/// An empty query returns nothing at once. A non-empty vector ranking
/// is the final answer; otherwise the keyword fallback runs. Every
/// returned entry scores at least the similarity threshold.
pub fn recall(
    store: &MemoryStore,
    query: &str,
    limit: usize,
    session_id: Option<&str>,
    distances: Option<&Vec<u32>>,
) -> (r: Vec<ScoredEntry>)
    requires
        match distances {
            Some(d) => d@.len() == vector_candidates_spec(store@, opt_str_view(session_id)).len(),
            None => true,
        },
    ensures
        scored_views(r@) == spec_recall(
            store@,
            query@,
            limit as int,
            opt_str_view(session_id),
            match distances {
                Some(d) => Some(d@),
                None => None,
            },
        ),
        query@.len() == 0 ==> r@.len() == 0,
        limit == 0 ==> r@.len() == 0,
        r@.len() <= limit,
        forall|j: int| 0 <= j < r@.len() ==> (#[trigger] r@[j]).score >= MIN_SIMILARITY,
{
    if query.unicode_len() == 0 {
        let r: Vec<ScoredEntry> = Vec::new();
        proof {
            assert(scored_views(r@) =~= Seq::<ScoredView>::empty());
        }
        return r;
    }
    let ranked = match distances {
        Some(d) => {
            let cands = store.vector_candidates(session_id);
            rank_candidates(&cands, d, limit)
        },
        None => Vec::new(),
    };
    if ranked.len() > 0 {
        ranked
    } else {
        let kw = keyword_recall(store, query, limit, session_id);
        proof {
            assert(forall|j: int|
                0 <= j < kw@.len() ==> (#[trigger] kw@[j]).score >= MIN_SIMILARITY);
        }
        kw
    }
}

/// With no embedding outcome, a non-empty query that matches at least
/// one stored entry (under the session filter) never recalls nothing,
/// whatever the stored content: for any positive limit at least one
/// entry comes back, and every returned entry carries the nominal
/// keyword score.
pub proof fn lemma_keyword_fallback_nonempty(
    s: Seq<EntryView>,
    q: Seq<char>,
    limit: int,
    sess: Option<Seq<char>>,
    i: int,
)
    requires
        q.len() > 0,
        limit >= 1,
        0 <= i < s.len(),
        keyword_matches(s[i], q),
        sess_match(s[i], sess),
    ensures
        spec_recall(s, q, limit, sess, None).len() >= 1,
        forall|j: int|
            0 <= j < spec_recall(s, q, limit, sess, None).len() ==> (#[trigger] spec_recall(
                s,
                q,
                limit,
                sess,
                None,
            )[j]).score == KEYWORD_SCORE,
{
    let pred = keyword_pred(q, sess);
    s.lemma_filter_contains(pred, i);
    let matches = s.filter(pred);
    let w = choose|k: int| 0 <= k < matches.len() && matches[k] == s[i];
    assert(matches.len() >= 1);
    assert(truncated(matches, limit).len() >= 1);
}
/// contains the query (ignoring ASCII case) and passes the session
/// filter is returned, with the nominal keyword score, whenever the
/// total number of matches is within the limit.
pub proof fn lemma_keyword_match_is_returned(
    s: Seq<EntryView>,
    q: Seq<char>,
    limit: int,
    sess: Option<Seq<char>>,
    i: int,
)
    requires
        q.len() > 0,
        0 <= i < s.len(),
        keyword_matches(s[i], q),
        sess_match(s[i], sess),
        s.filter(keyword_pred(q, sess)).len() <= limit,
    ensures
        spec_recall(s, q, limit, sess, None).contains(
            ScoredView { entry: s[i], score: KEYWORD_SCORE },
        ),
{
    let pred = keyword_pred(q, sess);
    let matches = s.filter(pred);
    s.lemma_filter_contains(pred, i);
    let w = choose|j: int| 0 <= j < matches.len() && matches[j] == s[i];
    assert(truncated(matches, limit) == matches);
    let r = spec_recall(s, q, limit, sess, None);
    assert(r == with_keyword_scores(matches));
    assert(r[w] == ScoredView { entry: s[i], score: KEYWORD_SCORE });
    assert(r.contains(ScoredView { entry: s[i], score: KEYWORD_SCORE }));
}

/// Keyword results come back most-recently-updated first: over a
/// recency-sorted store, the fallback's entries keep that order.
pub proof fn lemma_keyword_recall_recency_ordered(
    s: Seq<EntryView>,
    q: Seq<char>,
    sess: Option<Seq<char>>,
    limit: int,
)
    requires
        crate::store::recency_sorted(s),
        limit >= 0,
    ensures
        ({
            let r = spec_keyword_recall(s, q, sess, limit);
            forall|i: int, j: int|
                0 <= i < j < r.len() ==> r[i].entry.timestamp > r[j].entry.timestamp
        }),
{
    let pred = keyword_pred(q, sess);
    crate::store::lemma_filter_preserves_recency(s, pred);
    let matches = s.filter(pred);
    let cut = truncated(matches, limit);
    assert(forall|k: int| 0 <= k < cut.len() ==> #[trigger] cut[k] == matches[k]);
    let r = spec_keyword_recall(s, q, sess, limit);
    assert(forall|k: int| 0 <= k < r.len() ==> (#[trigger] r[k]).entry == cut[k]);
}

/// With no embedding outcome the keyword fallback decides recall: for a
/// non-empty query the result is exactly the keyword matches in recency
/// order, truncated to the limit, and every one of them carries the
/// nominal keyword score.
pub proof fn lemma_keyword_fallback(
    s: Seq<EntryView>,
    q: Seq<char>,
    limit: int,
    sess: Option<Seq<char>>,
)
    requires
        q.len() > 0,
    ensures
        spec_recall(s, q, limit, sess, None) == spec_keyword_recall(s, q, sess, limit),
        forall|j: int|
            0 <= j < spec_recall(s, q, limit, sess, None).len() ==> (#[trigger] spec_recall(
                s,
                q,
                limit,
                sess,
                None,
            )[j]).score == KEYWORD_SCORE,
{
}

} // verus!
