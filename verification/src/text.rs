//! Verified ASCII text utilities: lowercasing, trimming, substring search
//! and decimal rendering, shared by the recall engine and the markdown
//! importer.

use vstd::prelude::*;
use vstd::string::StrSliceExecFns;
use vstd::string::StringExecFns;

verus! {

/// ASCII lowercasing of a single character; everything outside `A..=Z`
/// is left unchanged.
pub open spec fn lower_char(c: char) -> char {
    if 'A' <= c && c <= 'Z' {
        ((c as u8) + 32) as char
    } else {
        c
    }
}

/// ASCII lowercasing of a character sequence.
pub open spec fn lower_seq(s: Seq<char>) -> Seq<char> {
    s.map_values(|c: char| lower_char(c))
}

/// ASCII whitespace, the set honoured by `trim_spec`.
pub open spec fn is_ws_char(c: char) -> bool {
    c == ' ' || c == '\t' || c == '\n' || c == '\r' || c == '\u{b}' || c == '\u{c}'
}

/// `s` without its leading whitespace.
pub open spec fn trim_start_spec(s: Seq<char>) -> Seq<char>
    decreases s.len(),
{
    if s.len() > 0 && is_ws_char(s[0]) {
        trim_start_spec(s.drop_first())
    } else {
        s
    }
}

/// `s` without its trailing whitespace.
pub open spec fn trim_end_spec(s: Seq<char>) -> Seq<char>
    decreases s.len(),
{
    if s.len() > 0 && is_ws_char(s.last()) {
        trim_end_spec(s.drop_last())
    } else {
        s
    }
}

/// `s` without leading and trailing whitespace.
pub open spec fn trim_spec(s: Seq<char>) -> Seq<char> {
    trim_end_spec(trim_start_spec(s))
}

/// `pat` occurs in `text` starting at position `i`, comparing characters
/// exactly.
pub open spec fn matches_at(text: Seq<char>, pat: Seq<char>, i: int) -> bool {
    &&& 0 <= i
    &&& i + pat.len() <= text.len()
    &&& forall|j: int| 0 <= j < pat.len() ==> text[i + j] == pat[j]
}

/// `pat` occurs somewhere in `text`, comparing characters exactly.
pub open spec fn contains_seq(text: Seq<char>, pat: Seq<char>) -> bool {
    exists|i: int| matches_at(text, pat, i)
}

/// `pat` occurs in `text` starting at position `i`, ignoring ASCII case.
pub open spec fn matches_ci_at(text: Seq<char>, pat: Seq<char>, i: int) -> bool {
    &&& 0 <= i
    &&& i + pat.len() <= text.len()
    &&& forall|j: int| 0 <= j < pat.len() ==> lower_char(text[i + j]) == lower_char(pat[j])
}

/// `pat` occurs somewhere in `text`, ignoring ASCII case.
pub open spec fn contains_ci(text: Seq<char>, pat: Seq<char>) -> bool {
    exists|i: int| matches_ci_at(text, pat, i)
}

/// `text` and `pat` are equal ignoring ASCII case.
pub open spec fn eq_ci(text: Seq<char>, pat: Seq<char>) -> bool {
    lower_seq(text) == lower_seq(pat)
}

/// `pat` is a prefix of `text`, ignoring ASCII case.
pub open spec fn prefix_ci(text: Seq<char>, pat: Seq<char>) -> bool {
    matches_ci_at(text, pat, 0)
}

/// Lowercase one character, ASCII-only.
pub fn to_lower_char(c: char) -> (r: char)
    ensures
        r == lower_char(c),
{
    if 'A' <= c && c <= 'Z' {
        ((c as u8) + 32) as char
    } else {
        c
    }
}

/// Whether `c` is ASCII whitespace.
pub fn is_ws(c: char) -> (r: bool)
    ensures
        r == is_ws_char(c),
{
    c == ' ' || c == '\t' || c == '\n' || c == '\r' || c == '\u{b}' || c == '\u{c}'
}

/// Whether `pat` occurs in `text` at position `i`, comparing exactly.
pub fn matches_at_exec(text: &str, pat: &str, i: usize) -> (r: bool)
    requires
        i + pat@.len() <= text@.len(),
    ensures
        r == matches_at(text@, pat@, i as int),
{
    let nt = text.unicode_len();
    let np = pat.unicode_len();
    let mut j: usize = 0;
    while j < np
        invariant
            nt == text@.len(),
            np == pat@.len(),
            i + np <= nt,
            j <= np,
            forall|k: int| 0 <= k < j ==> text@[i + k] == pat@[k],
        decreases np - j,
    {
        if text.get_char(i + j) != pat.get_char(j) {
            return false;
        }
        j = j + 1;
    }
    true
}

/// First position at which `pat` occurs in `text`, or `-1` when it does
/// not occur.
pub open spec fn find_sub(text: Seq<char>, pat: Seq<char>) -> int
    decreases text.len(),
{
    if matches_at(text, pat, 0) {
        0
    } else if text.len() == 0 {
        -1
    } else {
        let r = find_sub(text.drop_first(), pat);
        if r < 0 {
            -1
        } else {
            r + 1
        }
    }
}

pub proof fn lemma_find_sub(text: Seq<char>, pat: Seq<char>)
    ensures
        contains_seq(text, pat) ==> {
            let i = find_sub(text, pat);
            &&& 0 <= i
            &&& matches_at(text, pat, i)
            &&& forall|k: int| 0 <= k < i ==> !matches_at(text, pat, k)
        },
        !contains_seq(text, pat) ==> find_sub(text, pat) == -1,
    decreases text.len(),
{
    if matches_at(text, pat, 0) {
        assert(contains_seq(text, pat));
    } else if text.len() == 0 {
        if contains_seq(text, pat) {
            let w = choose|i: int| matches_at(text, pat, i);
            assert(false);
        }
    } else {
        let t = text.drop_first();
        lemma_find_sub(t, pat);
        assert(forall|i: int| 0 <= i < t.len() ==> t[i] == text[i + 1]);
        assert forall|k: int| #[trigger] matches_at(t, pat, k) implies matches_at(
            text,
            pat,
            k + 1,
        ) by {
            assert(forall|j: int| 0 <= j < pat.len() ==> #[trigger] t[k + j] == text[k + 1 + j]);
        }
        assert forall|k: int| k >= 1 && #[trigger] matches_at(text, pat, k) implies matches_at(
            t,
            pat,
            k - 1,
        ) by {
            assert(forall|j: int| 0 <= j < pat.len() ==> #[trigger] t[k - 1 + j] == text[k + j]);
        }
        if contains_seq(text, pat) {
            let w = choose|i: int| matches_at(text, pat, i);
            assert(w >= 1);
            assert(matches_at(t, pat, w - 1));
            assert(contains_seq(t, pat));
            let it = find_sub(t, pat);
            let i = find_sub(text, pat);
            assert(i == it + 1);
            assert(matches_at(text, pat, i));
            assert forall|k: int| 0 <= k < i implies !matches_at(text, pat, k) by {
                if k >= 1 && matches_at(text, pat, k) {
                    assert(matches_at(t, pat, k - 1));
                }
            }
        } else {
            if contains_seq(t, pat) {
                let w = choose|i: int| matches_at(t, pat, i);
                assert(w >= 0) by {
                    if w < 0 {
                        assert(!(0 <= w));
                    }
                }
                assert(matches_at(text, pat, w + 1));
            }
        }
    }
}

/// Whether `pat` occurs anywhere in `text`, comparing exactly; when it
/// does, return the first position at which it occurs.
pub fn find_seq(text: &str, pat: &str) -> (r: Option<usize>)
    ensures
        match r {
            Some(i) => i as int == find_sub(text@, pat@) && matches_at(text@, pat@, i as int),
            None => !contains_seq(text@, pat@) && find_sub(text@, pat@) == -1,
        },
{
    let nt = text.unicode_len();
    let np = pat.unicode_len();
    if np > nt {
        proof {
            assert(forall|i: int| !matches_at(text@, pat@, i));
            lemma_find_sub(text@, pat@);
        }
        return None;
    }
    let mut i: usize = 0;
    while i <= nt - np
        invariant
            nt == text@.len(),
            np == pat@.len(),
            np <= nt,
            i <= nt - np + 1,
            forall|k: int| 0 <= k < i ==> !matches_at(text@, pat@, k),
        decreases nt + 1 - np - i,
    {
        if matches_at_exec(text, pat, i) {
            proof {
                assert(contains_seq(text@, pat@));
                lemma_find_sub(text@, pat@);
                let w = find_sub(text@, pat@);
                assert(w >= i as int) by {
                    if w < i as int {
                        assert(!matches_at(text@, pat@, w));
                    }
                }
                assert(w <= i as int) by {
                    if w > i as int {
                        assert(!matches_at(text@, pat@, i as int));
                    }
                }
            }
            return Some(i);
        }
        i = i + 1;
    }
    proof {
        assert(forall|k: int| matches_at(text@, pat@, k) ==> k + np <= nt && 0 <= k < i);
        lemma_find_sub(text@, pat@);
        if contains_seq(text@, pat@) {
            let w = choose|k: int| matches_at(text@, pat@, k);
            assert(false);
        }
    }
    None
}

/// Whether `pat` occurs anywhere in `text`, ignoring ASCII case.
pub fn contains_ci_exec(text: &str, pat: &str) -> (r: bool)
    ensures
        r == contains_ci(text@, pat@),
{
    let nt = text.unicode_len();
    let np = pat.unicode_len();
    if np > nt {
        proof {
            assert(forall|i: int| !matches_ci_at(text@, pat@, i));
        }
        return false;
    }
    let mut i: usize = 0;
    while i <= nt - np
        invariant
            nt == text@.len(),
            np == pat@.len(),
            np <= nt,
            i <= nt - np + 1,
            forall|k: int| 0 <= k < i ==> !matches_ci_at(text@, pat@, k),
        decreases nt + 1 - np - i,
    {
        let mut j: usize = 0;
        let mut hit: bool = true;
        while j < np
            invariant
                nt == text@.len(),
                np == pat@.len(),
                i + np <= nt,
                j <= np,
                hit ==> forall|k: int| 0 <= k < j ==> lower_char(text@[i + k]) == lower_char(
                    pat@[k],
                ),
                !hit ==> !matches_ci_at(text@, pat@, i as int),
            decreases np - j,
        {
            if to_lower_char(text.get_char(i + j)) != to_lower_char(pat.get_char(j)) {
                hit = false;
                j = np;
            } else {
                j = j + 1;
            }
        }
        if hit {
            proof {
                assert(matches_ci_at(text@, pat@, i as int));
            }
            return true;
        }
        i = i + 1;
    }
    proof {
        assert(forall|k: int| matches_ci_at(text@, pat@, k) ==> k + np <= nt && 0 <= k < i);
    }
    false
}

/// Whether `a` and `b` hold the same characters.
pub fn str_eq(a: &str, b: &str) -> (r: bool)
    ensures
        r == (a@ == b@),
{
    let na = a.unicode_len();
    let nb = b.unicode_len();
    if na != nb {
        return false;
    }
    let mut i: usize = 0;
    while i < na
        invariant
            na == a@.len(),
            na == b@.len(),
            i <= na,
            forall|k: int| 0 <= k < i ==> a@[k] == b@[k],
        decreases na - i,
    {
        if a.get_char(i) != b.get_char(i) {
            return false;
        }
        i = i + 1;
    }
    proof {
        assert(a@ =~= b@);
    }
    true
}

/// Whether `text` equals `pat` ignoring ASCII case.
pub fn eq_ci_exec(text: &str, pat: &str) -> (r: bool)
    ensures
        r == eq_ci(text@, pat@),
{
    let nt = text.unicode_len();
    let np = pat.unicode_len();
    if nt != np {
        proof {
            assert(lower_seq(text@).len() == text@.len());
            assert(lower_seq(pat@).len() == pat@.len());
        }
        return false;
    }
    let mut i: usize = 0;
    while i < nt
        invariant
            nt == text@.len(),
            nt == pat@.len(),
            i <= nt,
            forall|k: int| 0 <= k < i ==> lower_char(text@[k]) == lower_char(pat@[k]),
        decreases nt - i,
    {
        if to_lower_char(text.get_char(i)) != to_lower_char(pat.get_char(i)) {
            proof {
                assert(lower_seq(text@)[i as int] != lower_seq(pat@)[i as int]);
            }
            return false;
        }
        i = i + 1;
    }
    proof {
        assert(lower_seq(text@) =~= lower_seq(pat@));
    }
    true
}

/// Whether `pat` is a prefix of `text`, ignoring ASCII case.
pub fn prefix_ci_exec(text: &str, pat: &str) -> (r: bool)
    ensures
        r == prefix_ci(text@, pat@),
{
    let nt = text.unicode_len();
    let np = pat.unicode_len();
    if np > nt {
        return false;
    }
    let mut j: usize = 0;
    while j < np
        invariant
            nt == text@.len(),
            np == pat@.len(),
            np <= nt,
            j <= np,
            forall|k: int| 0 <= k < j ==> lower_char(text@[k]) == lower_char(pat@[k]),
        decreases np - j,
    {
        if to_lower_char(text.get_char(j)) != to_lower_char(pat.get_char(j)) {
            return false;
        }
        j = j + 1;
    }
    true
}

proof fn lemma_trim_start_subrange(s: Seq<char>, a: int)
    requires
        0 <= a <= s.len(),
        forall|j: int| 0 <= j < a ==> is_ws_char(s[j]),
        a < s.len() ==> !is_ws_char(s[a]),
    ensures
        trim_start_spec(s) == s.subrange(a, s.len() as int),
    decreases a,
{
    if a == 0 {
        if s.len() > 0 && is_ws_char(s[0]) {
            assert(false);
        }
        assert(s.subrange(0, s.len() as int) =~= s);
    } else {
        assert(is_ws_char(s[0]));
        let t = s.drop_first();
        lemma_trim_start_subrange(t, a - 1);
        assert(t.subrange(a - 1, t.len() as int) =~= s.subrange(a, s.len() as int));
    }
}

proof fn lemma_trim_end_subrange(s: Seq<char>, b: int)
    requires
        0 <= b <= s.len(),
        forall|j: int| b <= j < s.len() ==> is_ws_char(s[j]),
        b > 0 ==> !is_ws_char(s[b - 1]),
    ensures
        trim_end_spec(s) == s.subrange(0, b),
    decreases s.len() - b,
{
    if b == s.len() {
        if s.len() > 0 && is_ws_char(s.last()) {
            assert(false);
        }
        assert(s.subrange(0, s.len() as int) =~= s);
    } else {
        assert(is_ws_char(s.last()));
        let t = s.drop_last();
        lemma_trim_end_subrange(t, b);
        assert(t.subrange(0, b) =~= s.subrange(0, b));
    }
}

/// `s` with leading and trailing ASCII whitespace removed.
pub fn trim_exec<'a>(s: &'a str) -> (r: &'a str)
    ensures
        r@ == trim_spec(s@),
{
    let n = s.unicode_len();
    let mut a: usize = 0;
    while a < n && is_ws(s.get_char(a))
        invariant
            n == s@.len(),
            a <= n,
            forall|j: int| 0 <= j < a ==> is_ws_char(s@[j]),
        decreases n - a,
    {
        a = a + 1;
    }
    proof {
        lemma_trim_start_subrange(s@, a as int);
    }
    if a == n {
        let r = s.substring_char(n, n);
        proof {
            assert(trim_start_spec(s@) =~= Seq::<char>::empty());
            assert(trim_spec(s@) =~= Seq::<char>::empty());
            assert(r@ =~= Seq::<char>::empty());
        }
        return r;
    }
    let mut b: usize = n;
    while b > a && is_ws(s.get_char(b - 1))
        invariant
            n == s@.len(),
            a <= b <= n,
            a < n,
            !is_ws_char(s@[a as int]),
            forall|j: int| b <= j < n ==> is_ws_char(s@[j]),
        decreases b,
    {
        b = b - 1;
    }
    let r = s.substring_char(a, b);
    proof {
        let t = s@.subrange(a as int, n as int);
        assert(b > a) by {
            assert(!is_ws_char(s@[a as int]));
        }
        assert(forall|j: int| (b - a) <= j < t.len() ==> is_ws_char(#[trigger] t[j]));
        assert(!is_ws_char(t[b - a - 1]));
        lemma_trim_end_subrange(t, b - a);
        assert(t.subrange(0, b - a) =~= s@.subrange(a as int, b as int));
    }
    r
}

/// The decimal digit character for `d` in `0..=9`.
pub open spec fn dec_digit(d: int) -> char {
    if d == 0 {
        '0'
    } else if d == 1 {
        '1'
    } else if d == 2 {
        '2'
    } else if d == 3 {
        '3'
    } else if d == 4 {
        '4'
    } else if d == 5 {
        '5'
    } else if d == 6 {
        '6'
    } else if d == 7 {
        '7'
    } else if d == 8 {
        '8'
    } else {
        '9'
    }
}

/// The decimal rendering of `n`, most significant digit first.
pub open spec fn dec_rep(n: nat) -> Seq<char>
    decreases n,
{
    if n < 10 {
        seq![dec_digit(n as int)]
    } else {
        dec_rep(n / 10).push(dec_digit((n % 10) as int))
    }
}

fn digit_str(d: u64) -> (r: &'static str)
    requires
        d < 10,
    ensures
        r@ =~= seq![dec_digit(d as int)],
{
    proof {
        reveal_strlit("0");
        reveal_strlit("1");
        reveal_strlit("2");
        reveal_strlit("3");
        reveal_strlit("4");
        reveal_strlit("5");
        reveal_strlit("6");
        reveal_strlit("7");
        reveal_strlit("8");
        reveal_strlit("9");
    }
    if d == 0 {
        "0"
    } else if d == 1 {
        "1"
    } else if d == 2 {
        "2"
    } else if d == 3 {
        "3"
    } else if d == 4 {
        "4"
    } else if d == 5 {
        "5"
    } else if d == 6 {
        "6"
    } else if d == 7 {
        "7"
    } else if d == 8 {
        "8"
    } else {
        "9"
    }
}

/// Append the decimal rendering of `n` to `out`.
pub fn append_u64(out: &mut String, n: u64)
    ensures
        final(out)@ == old(out)@ + dec_rep(n as nat),
{
    let mut digits: Vec<u64> = Vec::new();
    let mut m: u64 = n;
    while m >= 10
        invariant
            forall|k: int| 0 <= k < digits@.len() ==> #[trigger] digits@[k] < 10,
            dec_rep(n as nat) == dec_rep(m as nat) + rev_digits(digits@),
        decreases m,
    {
        let ghost pre = digits@;
        let ghost m0 = m as nat;
        let d: u64 = m % 10;
        digits.push(d);
        m = m / 10;
        proof {
            assert(digits@.drop_last() =~= pre);
            assert(digits@.last() == d);
            assert(m0 == (m as nat) * 10 + d);
            lemma_rev_digits_push(digits@, dec_rep(n as nat), m as nat);
        }
    }
    append_str(out, digit_str(m));
    let mut k: usize = digits.len();
    while k > 0
        invariant
            forall|j: int| 0 <= j < digits@.len() ==> #[trigger] digits@[j] < 10,
            k <= digits@.len(),
            dec_rep(n as nat) == dec_rep(m as nat) + rev_digits(digits@),
            m < 10,
            out@ == old(out)@ + dec_rep(m as nat) + rev_digits(digits@.subrange(
                k as int,
                digits@.len() as int,
            )),
        decreases k,
    {
        k = k - 1;
        let d = digits[k];
        append_str(out, digit_str(d));
        proof {
            let tail = digits@.subrange(k as int, digits@.len() as int);
            let tail2 = digits@.subrange(k + 1, digits@.len() as int);
            assert(tail =~= seq![digits@[k as int]] + tail2);
            lemma_rev_digits_cons(digits@[k as int], tail2);
            assert(out@ =~= old(out)@ + dec_rep(m as nat) + rev_digits(tail));
        }
    }
    proof {
        assert(digits@.subrange(0, digits@.len() as int) =~= digits@);
        assert(out@ =~= old(out)@ + dec_rep(n as nat));
    }
}

/// The digit characters for `ds` read back-to-front.
spec fn rev_digits(ds: Seq<u64>) -> Seq<char>
    decreases ds.len(),
{
    if ds.len() == 0 {
        Seq::empty()
    } else {
        rev_digits(ds.drop_first()).push(dec_digit(ds[0] as int))
    }
}

proof fn lemma_rev_digits_cons(d: u64, ds: Seq<u64>)
    ensures
        rev_digits(seq![d] + ds) == rev_digits(ds).push(dec_digit(d as int)),
{
    let s = seq![d] + ds;
    assert(s[0] == d);
    assert(s.drop_first() =~= ds);
}

proof fn lemma_rev_digits_push(ds: Seq<u64>, whole: Seq<char>, m: nat)
    requires
        ds.len() > 0,
        whole == dec_rep((m * 10 + ds.last()) as nat) + rev_digits(ds.drop_last()),
        ds.last() < 10,
        m * 10 + ds.last() >= 10,
    ensures
        whole == dec_rep(m) + rev_digits(ds),
    decreases ds.len(),
{
    let v = (m * 10 + ds.last()) as nat;
    assert(v / 10 == m && v % 10 == ds.last()) by (nonlinear_arith)
        requires
            v == m * 10 + ds.last(),
            ds.last() < 10,
    ;
    assert(dec_rep(v) == dec_rep(m).push(dec_digit(ds.last() as int)));
    lemma_rev_digits_snoc(ds);
    assert(whole =~= dec_rep(m) + rev_digits(ds));
}

proof fn lemma_rev_digits_snoc(ds: Seq<u64>)
    requires
        ds.len() > 0,
    ensures
        rev_digits(ds) == seq![dec_digit(ds.last() as int)] + rev_digits(ds.drop_last()),
    decreases ds.len(),
{
    if ds.len() == 1 {
        assert(rev_digits(ds.drop_first()) =~= Seq::<char>::empty());
        assert(rev_digits(ds) =~= seq![dec_digit(ds[0] as int)]);
        assert(rev_digits(ds.drop_last()) =~= Seq::<char>::empty());
        assert(seq![dec_digit(ds.last() as int)] + rev_digits(ds.drop_last()) =~= seq![
            dec_digit(ds[0] as int),
        ]);
    } else {
        let t = ds.drop_first();
        lemma_rev_digits_snoc(t);
        assert(t.last() == ds.last());
        assert(t.drop_last() =~= ds.drop_last().drop_first());
        assert(rev_digits(ds) == rev_digits(t).push(dec_digit(ds[0] as int)));
        assert(rev_digits(ds.drop_last()) == rev_digits(ds.drop_last().drop_first()).push(
            dec_digit(ds[0] as int),
        ));
        assert(rev_digits(ds) =~= seq![dec_digit(ds.last() as int)] + rev_digits(ds.drop_last()));
    }
}

/// Append `piece` to `out`.
pub fn append_str(out: &mut String, piece: &str)
    ensures
        final(out)@ == old(out)@ + piece@,
{
    out.append(piece);
}

/// Copy a `&str` into an owned `String`.
pub fn string_of(s: &str) -> (r: String)
    ensures
        r@ == s@,
{
    String::from_str(s)
}

} // verus!
