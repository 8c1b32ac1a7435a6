//! Importing facts from workspace markdown files: line splitting,
//! structured `**key**: value` parsing, key normalisation, category
//! labels and exact-duplicate removal.

use vstd::prelude::*;
use vstd::string::StrSliceExecFns;
use crate::entry::{CategoryView, MemoryCategory};
use crate::text::{
    append_str, append_u64, contains_seq, dec_rep, eq_ci, eq_ci_exec, find_seq, find_sub,
    lemma_find_sub, matches_at, matches_at_exec, str_eq, string_of, trim_exec, trim_spec,
};

verus! {

/// A fact parsed out of a source file, ready to be written to the store.
#[derive(Debug)]
pub struct SourceEntry {
    pub key: String,
    pub content: String,
    pub category: MemoryCategory,
}

/// Mathematical view of a `SourceEntry`.
pub struct SourceEntryView {
    pub key: Seq<char>,
    pub content: Seq<char>,
    pub category: CategoryView,
}

impl View for SourceEntry {
    type V = SourceEntryView;

    open spec fn view(&self) -> SourceEntryView {
        SourceEntryView { key: self.key@, content: self.content@, category: self.category@ }
    }
}

impl Clone for SourceEntry {
    fn clone(&self) -> (r: Self)
        ensures
            r@ == self@,
    {
        SourceEntry {
            key: self.key.clone(),
            content: self.content.clone(),
            category: self.category.clone(),
        }
    }
}

/// Views of a sequence of source entries.
pub open spec fn source_views(s: Seq<SourceEntry>) -> Seq<SourceEntryView> {
    s.map_values(|e: SourceEntry| e@)
}

/// One markdown file to import: the key stem derived from its name, its
/// text, and the category its entries default to.
#[derive(Debug)]
pub struct MarkdownSource {
    pub stem: String,
    pub content: String,
    pub category: MemoryCategory,
}

/// Mathematical view of a `MarkdownSource`.
pub struct MarkdownSourceView {
    pub stem: Seq<char>,
    pub content: Seq<char>,
    pub category: CategoryView,
}

impl View for MarkdownSource {
    type V = MarkdownSourceView;

    open spec fn view(&self) -> MarkdownSourceView {
        MarkdownSourceView { stem: self.stem@, content: self.content@, category: self.category@ }
    }
}

/// A line with any single trailing carriage return removed, as the
/// standard line splitting does.
pub open spec fn strip_cr(line: Seq<char>) -> Seq<char> {
    if line.len() > 0 && line.last() == '\r' {
        line.drop_last()
    } else {
        line
    }
}

/// The lines of `s`: split at each newline, dropping the newline and any
/// carriage return just before it; text after the last newline forms a
/// final line only when it is non-empty.
pub open spec fn spec_lines(s: Seq<char>) -> Seq<Seq<char>>
    decreases s.len(),
    via spec_lines_decreases
{
    if s.len() == 0 {
        Seq::empty()
    } else {
        let i = find_sub(s, seq!['\n']);
        if i < 0 {
            seq![strip_cr(s)]
        } else {
            seq![strip_cr(s.subrange(0, i))] + spec_lines(s.subrange(i + 1, s.len() as int))
        }
    }
}

#[via_fn]
proof fn spec_lines_decreases(s: Seq<char>) {
    if s.len() > 0 {
        lemma_find_sub(s, seq!['\n']);
        let i = find_sub(s, seq!['\n']);
        if i >= 0 {
            assert(matches_at(s, seq!['\n'], i));
        }
    }
}

/// Split `content` into its lines.
pub fn split_lines(content: &str) -> (r: Vec<String>)
    ensures
        r@.map_values(|l: String| l@) == spec_lines(content@),
{
    let n = content.unicode_len();
    let mut r: Vec<String> = Vec::new();
    let mut pos: usize = 0;
    proof {
        assert(content@.subrange(0, n as int) =~= content@);
        assert(r@.map_values(|l: String| l@) =~= Seq::<Seq<char>>::empty());
    }
    while pos < n
        invariant
            n == content@.len(),
            pos <= n,
            spec_lines(content@) == r@.map_values(|l: String| l@) + spec_lines(
                content@.subrange(pos as int, n as int),
            ),
        decreases n - pos,
    {
        let ghost suf = content@.subrange(pos as int, n as int);
        let mut j: usize = pos;
        while j < n && content.get_char(j) != '\n'
            invariant
                n == content@.len(),
                pos <= j <= n,
                forall|k: int| pos <= k < j ==> content@[k] != '\n',
            decreases n - j,
        {
            j = j + 1;
        }
        let end = if j > pos && content.get_char(j - 1) == '\r' {
            j - 1
        } else {
            j
        };
        let ghost r_old = r@;
        r.push(string_of(content.substring_char(pos, end)));
        proof {
            lemma_find_sub(suf, seq!['\n']);
            let f = find_sub(suf, seq!['\n']);
            assert(forall|k: int| 0 <= k < suf.len() ==> suf[k] == content@[pos + k]);
            if j < n {
                // A newline stands at offset j - pos of the suffix, and
                // none earlier.
                assert(matches_at(suf, seq!['\n'], j - pos)) by {
                    assert(suf[(j - pos) + 0] == content@[j as int]);
                    assert(seq!['\n'][0] == '\n');
                }
                assert(contains_seq(suf, seq!['\n']));
                assert(f == j - pos) by {
                    if f < j - pos {
                        assert(suf[f] == content@[pos + f]);
                        assert(content@[pos + f] != '\n');
                        assert(matches_at(suf, seq!['\n'], f));
                        assert(suf[f + 0] == seq!['\n'][0]);
                        assert(suf[f] == '\n');
                    }
                    if f > j - pos {
                        assert(!matches_at(suf, seq!['\n'], j - pos));
                    }
                }
                assert(suf.subrange(0, f) =~= content@.subrange(pos as int, j as int));
                assert(strip_cr(content@.subrange(pos as int, j as int)) =~= content@.subrange(
                    pos as int,
                    end as int,
                ));
                assert(suf.subrange(f + 1, suf.len() as int) =~= content@.subrange(
                    j + 1,
                    n as int,
                ));
                assert(spec_lines(suf) == seq![content@.subrange(pos as int, end as int)]
                    + spec_lines(content@.subrange(j + 1, n as int)));
            } else {
                // No newline in the suffix.
                assert(!contains_seq(suf, seq!['\n'])) by {
                    if contains_seq(suf, seq!['\n']) {
                        let w = choose|k: int| matches_at(suf, seq!['\n'], k);
                        assert(suf[w + 0] == seq!['\n'][0]);
                        assert(suf[w] == '\n');
                        assert(suf[w] == content@[pos + w]);
                    }
                }
                assert(strip_cr(suf) =~= content@.subrange(pos as int, end as int));
                assert(spec_lines(suf) == seq![content@.subrange(pos as int, end as int)]);
                assert(content@.subrange(n as int, n as int) =~= Seq::<char>::empty());
            }
            assert(r@.map_values(|l: String| l@) =~= r_old.map_values(|l: String| l@).push(
                content@.subrange(pos as int, end as int),
            ));
        }
        pos = if j < n {
            j + 1
        } else {
            n
        };
    }
    proof {
        assert(content@.subrange(n as int, n as int) =~= Seq::<char>::empty());
        assert(r@.map_values(|l: String| l@) =~= spec_lines(content@));
    }
    r
}

/// A structured memory line `**key**: value`: the key between the
/// leading double asterisks and the first `**:`, the value after it,
/// both trimmed and both required non-empty.
pub open spec fn spec_structured(line: Seq<char>) -> Option<(Seq<char>, Seq<char>)> {
    if !matches_at(line, "**"@, 0) {
        None
    } else {
        let rest = line.skip(2);
        let f = find_sub(rest, "**:"@);
        if f < 0 {
            None
        } else {
            let k = trim_spec(rest.subrange(0, f));
            let v = trim_spec(rest.subrange(f + 3, rest.len() as int));
            if k.len() == 0 || v.len() == 0 {
                None
            } else {
                Some((k, v))
            }
        }
    }
}

/// Parse a structured `**key**: value` line; reject lines without the
/// marker, and empty keys or values.
pub fn parse_structured_memory_line(line: &str) -> (r: Option<(String, String)>)
    ensures
        match r {
            Some(kv) => spec_structured(line@) == Some((kv.0@, kv.1@)),
            None => spec_structured(line@) is None,
        },
{
    proof {
        reveal_strlit("**");
        reveal_strlit("**:");
    }
    let n = line.unicode_len();
    if n < 2 {
        proof {
            assert(!matches_at(line@, "**"@, 0));
        }
        return None;
    }
    if !matches_at_exec(line, "**", 0) {
        return None;
    }
    let rest = line.substring_char(2, n);
    proof {
        assert(rest@ =~= line@.skip(2));
    }
    match find_seq(rest, "**:") {
        Some(f) => {
            let rn = rest.unicode_len();
            let k = trim_exec(rest.substring_char(0, f));
            let v = trim_exec(rest.substring_char(f + 3, rn));
            if k.unicode_len() == 0 || v.unicode_len() == 0 {
                None
            } else {
                Some((string_of(k), string_of(v)))
            }
        },
        None => None,
    }
}

/// A key normalised for import: trimmed, or a generated key from the
/// fallback position when nothing remains.
pub open spec fn spec_normalize_key(key: Seq<char>, fallback_idx: nat) -> Seq<char> {
    let t = trim_spec(key);
    if t.len() == 0 {
        "openclaw_"@ + dec_rep(fallback_idx)
    } else {
        t
    }
}

/// Normalise an imported key, falling back to a positional key when the
/// trimmed key is empty.
pub fn normalize_key(key: &str, fallback_idx: usize) -> (r: String)
    ensures
        r@ == spec_normalize_key(key@, fallback_idx as nat),
{
    let t = trim_exec(key);
    if t.unicode_len() == 0 {
        let mut s = string_of("openclaw_");
        append_u64(&mut s, fallback_idx as u64);
        s
    } else {
        string_of(t)
    }
}

/// Parse a category label for import: empty (after trimming) and `core`
/// mean `Core`; `daily` and `conversation` their categories, ignoring
/// ASCII case; anything else becomes `Custom` with the trimmed label.
pub open spec fn spec_parse_category_label(raw: Seq<char>) -> CategoryView {
    let t = trim_spec(raw);
    if t.len() == 0 || eq_ci(t, "core"@) {
        CategoryView::Core
    } else if eq_ci(t, "daily"@) {
        CategoryView::Daily
    } else if eq_ci(t, "conversation"@) {
        CategoryView::Conversation
    } else {
        CategoryView::Custom(t)
    }
}

/// Parse a category label from a source file.
pub fn parse_category(raw: &str) -> (r: MemoryCategory)
    ensures
        r@ == spec_parse_category_label(raw@),
{
    let t = trim_exec(raw);
    if t.unicode_len() == 0 || eq_ci_exec(t, "core") {
        MemoryCategory::Core
    } else if eq_ci_exec(t, "daily") {
        MemoryCategory::Daily
    } else if eq_ci_exec(t, "conversation") {
        MemoryCategory::Conversation
    } else {
        MemoryCategory::Custom(string_of(t))
    }
}

/// The entry a single line contributes, if any. Blank lines and
/// headings contribute nothing; a leading `- ` bullet is dropped; a
/// structured line keeps its own key; an unstructured line gets a
/// generated key from the stem and the line's position.
pub open spec fn spec_parse_line(
    line: Seq<char>,
    idx: int,
    stem: Seq<char>,
    cat: CategoryView,
) -> Option<SourceEntryView> {
    let t = trim_spec(line);
    if t.len() == 0 || t[0] == '#' {
        None
    } else {
        let l = if matches_at(t, "- "@, 0) {
            t.skip(2)
        } else {
            t
        };
        match spec_structured(l) {
            Some(kv) => Some(
                SourceEntryView {
                    key: spec_normalize_key(kv.0, idx as nat),
                    content: kv.1,
                    category: cat,
                },
            ),
            None => {
                let text = trim_spec(l);
                if text.len() == 0 {
                    None
                } else {
                    Some(
                        SourceEntryView {
                            key: "openclaw_"@ + stem + "_"@ + dec_rep((idx + 1) as nat),
                            content: text,
                            category: cat,
                        },
                    )
                }
            },
        }
    }
}

fn parse_line(line: &str, idx: usize, stem: &str, category: &MemoryCategory) -> (r: Option<
    SourceEntry,
>)
    requires
        idx < usize::MAX,
    ensures
        match r {
            Some(e) => spec_parse_line(line@, idx as int, stem@, category@) == Some(e@),
            None => spec_parse_line(line@, idx as int, stem@, category@) is None,
        },
{
    proof {
        reveal_strlit("- ");
    }
    let t = trim_exec(line);
    let n = t.unicode_len();
    if n == 0 {
        return None;
    }
    if t.get_char(0) == '#' {
        return None;
    }
    let l = if n >= 2 && matches_at_exec(t, "- ", 0) {
        t.substring_char(2, n)
    } else {
        proof {
            if n < 2 {
                assert(!matches_at(t@, "- "@, 0));
            }
        }
        t
    };
    proof {
        if matches_at(t@, "- "@, 0) {
            assert(l@ =~= t@.skip(2));
        }
    }
    match parse_structured_memory_line(l) {
        Some((k, v)) => {
            let key = normalize_key(k.as_str(), idx);
            Some(SourceEntry { key: key, content: v, category: category.clone() })
        },
        None => {
            let text = trim_exec(l);
            if text.unicode_len() == 0 {
                None
            } else {
                let mut key = string_of("openclaw_");
                append_str(&mut key, stem);
                append_str(&mut key, "_");
                append_u64(&mut key, (idx as u64) + 1);
                proof {
                    reveal_strlit("_");
                    assert(key@ =~= "openclaw_"@ + stem@ + "_"@ + dec_rep((idx + 1) as nat));
                }
                Some(SourceEntry { key: key, content: string_of(text), category: category.clone() })
            }
        },
    }
}

/// Entries contributed by a file's lines, each line numbered from the
/// start of the file.
pub open spec fn spec_parse_lines(
    lines: Seq<Seq<char>>,
    idx: int,
    stem: Seq<char>,
    cat: CategoryView,
) -> Seq<SourceEntryView>
    decreases lines.len(),
{
    if lines.len() == 0 {
        Seq::empty()
    } else {
        let head = match spec_parse_line(lines[0], idx, stem, cat) {
            Some(e) => seq![e],
            None => Seq::empty(),
        };
        head + spec_parse_lines(lines.drop_first(), idx + 1, stem, cat)
    }
}

/// All entries a markdown file contributes, in line order.
pub open spec fn spec_parse_markdown(
    content: Seq<char>,
    cat: CategoryView,
    stem: Seq<char>,
) -> Seq<SourceEntryView> {
    spec_parse_lines(spec_lines(content), 0, stem, cat)
}

/// Parse one markdown file into importable entries: one entry per
/// non-blank, non-heading line, under `default_category`, with keys
/// taken from structured lines or generated from `stem` and the line
/// number.
pub fn parse_markdown_file(content: &str, default_category: MemoryCategory, stem: &str) -> (r:
    Vec<SourceEntry>)
    ensures
        source_views(r@) == spec_parse_markdown(content@, default_category@, stem@),
{
    let ghost cat = default_category@;
    let lines = split_lines(content);
    let ghost lv = lines@.map_values(|l: String| l@);
    let m = lines.len();
    let mut r: Vec<SourceEntry> = Vec::new();
    let mut i: usize = 0;
    proof {
        assert(lv.skip(0) =~= lv);
        assert(source_views(r@) =~= Seq::<SourceEntryView>::empty());
    }
    while i < m
        invariant
            m == lines@.len(),
            i <= m,
            lv == lines@.map_values(|l: String| l@),
            lv == spec_lines(content@),
            cat == default_category@,
            spec_parse_lines(lv, 0, stem@, cat) == source_views(r@) + spec_parse_lines(
                lv.skip(i as int),
                i as int,
                stem@,
                cat,
            ),
        decreases m - i,
    {
        let ghost r_old = r@;
        let parsed = parse_line(lines[i].as_str(), i, stem, &default_category);
        proof {
            let suf = lv.skip(i as int);
            assert(suf[0] == lv[i as int]);
            assert(suf.drop_first() =~= lv.skip(i + 1));
        }
        match parsed {
            Some(e) => {
                r.push(e);
                proof {
                    assert(source_views(r@) =~= source_views(r_old).push(r@[r@.len() - 1]@));
                }
            },
            None => (),
        }
        i = i + 1;
    }
    proof {
        assert(lv.skip(m as int) =~= Seq::<Seq<char>>::empty());
        assert(source_views(r@) =~= spec_parse_lines(lv, 0, stem@, cat));
    }
    r
}

/// `s` with every exact repeat of an earlier entry removed: an entry
/// stays only when no earlier entry has the same key, content and
/// category.
pub open spec fn spec_dedup(s: Seq<SourceEntryView>) -> Seq<SourceEntryView>
    decreases s.len(),
{
    if s.len() == 0 {
        Seq::empty()
    } else {
        let d = spec_dedup(s.drop_last());
        if s.drop_last().contains(s.last()) {
            d
        } else {
            d.push(s.last())
        }
    }
}

proof fn lemma_dedup_contains(s: Seq<SourceEntryView>, x: SourceEntryView)
    ensures
        spec_dedup(s).contains(x) <==> s.contains(x),
    decreases s.len(),
{
    if s.len() == 0 {
    } else {
        let t = s.drop_last();
        lemma_dedup_contains(t, x);
        assert(forall|i: int| 0 <= i < t.len() ==> t[i] == s[i]);
        if s.contains(x) {
            let w = choose|i: int| 0 <= i < s.len() && s[i] == x;
            if w < t.len() {
                assert(t.contains(x)) by {
                    assert(t[w] == x);
                }
            } else {
                assert(s.last() == x);
            }
        }
        if t.contains(x) {
            let w = choose|i: int| 0 <= i < t.len() && t[i] == x;
            assert(s[w] == x);
            assert(s.contains(x));
        }
        if spec_dedup(s).contains(x) {
            if !t.contains(s.last()) {
                let d = spec_dedup(t);
                let w = choose|i: int| 0 <= i < spec_dedup(s).len() && spec_dedup(s)[i] == x;
                if w < d.len() {
                    assert(d.contains(x)) by {
                        assert(d[w] == x);
                    }
                } else {
                    assert(s.last() == x);
                    assert(s[s.len() - 1] == x);
                }
            }
        }
        if s.contains(x) && !spec_dedup(s).contains(x) {
            if t.contains(x) {
                assert(spec_dedup(t).contains(x));
                let w = choose|i: int| 0 <= i < spec_dedup(t).len() && spec_dedup(t)[i] == x;
                if !t.contains(s.last()) {
                    assert(spec_dedup(s)[w] == x);
                    assert(spec_dedup(s).contains(x));
                } else {
                    assert(spec_dedup(s) == spec_dedup(t));
                }
            } else {
                assert(s.last() == x);
                assert(!t.contains(s.last()));
                let d = spec_dedup(s);
                assert(d[d.len() - 1] == x);
                assert(d.contains(x));
            }
        }
    }
}

/// Entries contributed by a list of source files, in file order.
pub open spec fn spec_all_file_entries(files: Seq<MarkdownSourceView>) -> Seq<SourceEntryView>
    decreases files.len(),
{
    if files.len() == 0 {
        Seq::empty()
    } else {
        spec_all_file_entries(files.drop_last()) + spec_parse_markdown(
            files.last().content,
            files.last().category,
            files.last().stem,
        )
    }
}

/// Views of a sequence of markdown sources.
pub open spec fn md_views(s: Seq<MarkdownSource>) -> Seq<MarkdownSourceView> {
    s.map_values(|f: MarkdownSource| f@)
}

/// Collect importable entries from the given source files: every file is
/// parsed in order and exact duplicates (same key, content and category)
/// are dropped in favour of their first occurrence, so re-runs stay
/// deterministic.
pub fn collect_source_entries(files: &Vec<MarkdownSource>) -> (r: Vec<SourceEntry>)
    ensures
        source_views(r@) == spec_dedup(spec_all_file_entries(md_views(files@))),
{
    let nf = files.len();
    let mut all: Vec<SourceEntry> = Vec::new();
    let mut i: usize = 0;
    while i < nf
        invariant
            nf == files@.len(),
            i <= nf,
            source_views(all@) == spec_all_file_entries(md_views(files@).take(i as int)),
        decreases nf - i,
    {
        let f = &files[i];
        let mut parsed = parse_markdown_file(f.content.as_str(), f.category.clone(), f.stem.as_str());
        let ghost all_old = all@;
        let ghost parsed_v = parsed@;
        all.append(&mut parsed);
        proof {
            let pfx = md_views(files@).take(i as int);
            let pfx1 = md_views(files@).take(i + 1);
            assert(pfx1.drop_last() =~= pfx);
            assert(pfx1.last() == md_views(files@)[i as int]);
            assert(source_views(all@) =~= source_views(all_old) + source_views(parsed_v));
        }
        i = i + 1;
    }
    proof {
        assert(md_views(files@).take(nf as int) =~= md_views(files@));
    }
    let ghost all_v = source_views(all@);
    let na = all.len();
    let mut out: Vec<SourceEntry> = Vec::new();
    let mut i2: usize = 0;
    while i2 < na
        invariant
            na == all@.len(),
            i2 <= na,
            all_v == source_views(all@),
            source_views(out@) == spec_dedup(all_v.take(i2 as int)),
        decreases na - i2,
    {
        let e = &all[i2];
        let no = out.len();
        let mut dup: bool = false;
        let mut j: usize = 0;
        while j < no
            invariant
                no == out@.len(),
                i2 < na,
                na == all@.len(),
                *e == all@[i2 as int],
                dup ==> source_views(out@).contains(all@[i2 as int]@),
                !dup ==> forall|k: int|
                    0 <= k < j ==> source_views(out@)[k] != all@[i2 as int]@,
            decreases no - j,
        {
            let o = &out[j];
            proof {
                assert(*o == out@[j as int]);
                assert(*e == all@[i2 as int]);
                assert(source_views(out@)[j as int] == out@[j as int]@);
            }
            if str_eq(o.key.as_str(), e.key.as_str()) && str_eq(
                o.content.as_str(),
                e.content.as_str(),
            ) && o.category == e.category {
                proof {
                    assert(o@.key == e@.key && o@.content == e@.content && o@.category
                        == e@.category);
                    assert(source_views(out@)[j as int] == all@[i2 as int]@);
                }
                dup = true;
                j = no;
            } else {
                proof {
                    if o@ == e@ {
                        assert(o@.key == e@.key && o@.content == e@.content && o@.category
                            == e@.category);
                    }
                    assert(source_views(out@)[j as int] != all@[i2 as int]@);
                }
                j = j + 1;
            }
        }
        proof {
            let pfx = all_v.take(i2 as int);
            let pfx1 = all_v.take(i2 + 1);
            assert(pfx1.drop_last() =~= pfx);
            assert(pfx1.last() == all_v[i2 as int]);
            assert(all_v[i2 as int] == all@[i2 as int]@);
            lemma_dedup_contains(pfx, all_v[i2 as int]);
            if !dup {
                assert(!source_views(out@).contains(all_v[i2 as int])) by {
                    if source_views(out@).contains(all_v[i2 as int]) {
                        let w = choose|k: int|
                            0 <= k < source_views(out@).len() && source_views(out@)[k]
                                == all_v[i2 as int];
                        assert(false);
                    }
                }
                assert(!pfx.contains(all_v[i2 as int]));
            } else {
                assert(pfx.contains(all_v[i2 as int]));
            }
        }
        let ghost out_old = out@;
        if !dup {
            out.push(e.clone());
            proof {
                assert(source_views(out@) =~= source_views(out_old).push(all@[i2 as int]@));
            }
        }
        i2 = i2 + 1;
    }
    proof {
        assert(all_v.take(na as int) =~= all_v);
    }
    out
}

} // verus!
