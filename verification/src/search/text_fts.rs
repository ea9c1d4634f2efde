//! Pure helpers for FTS5 query construction and trigram sets.

use regex::Regex;
use vstd::prelude::*;

use crate::search::constants::TRIGRAM_LEN;
use crate::text::processing::{replace_char, replace_chars};
use crate::text::unicode::{
    char_views, chars_eq, chars_of, contains_chars, copy_range, is_whitespace, is_ws, join,
    join_chars, lemma_char_views_push, lemma_lead_count, lemma_take_push, lemma_views_push,
    lead_count, lowercase, nfd, push_all, split_words, string_of, strings_of, to_lowercase,
    to_nfd, trim, trim_chars, trim_start, views, words,
};

verus! {

/// FTS5 boolean operator joining query terms.
#[derive(Debug, Clone, Copy, PartialEq, Eq)]
pub enum FtsOperator {
    /// All terms must match (AND).
    And,
    /// Any term may match (OR). Used for BM25 retrieval so documents are
    /// ranked by *how many* query terms they hit.
    Or,
}

impl Default for FtsOperator {
    fn default() -> (r: Self)
        ensures
            r == FtsOperator::And,
    {
        FtsOperator::And
    }
}

pub open spec fn keyword_of(op: FtsOperator) -> Seq<char> {
    match op {
        FtsOperator::And => seq!['A', 'N', 'D'],
        FtsOperator::Or => seq!['O', 'R'],
    }
}

impl FtsOperator {
    fn keyword(self) -> (r: Vec<char>)
        ensures
            r@ == keyword_of(self),
    {
        match self {
            FtsOperator::And => {
                let r = vec!['A', 'N', 'D'];
                assert(r@ =~= keyword_of(self));
                r
            },
            FtsOperator::Or => {
                let r = vec!['O', 'R'];
                assert(r@ =~= keyword_of(self));
                r
            },
        }
    }
}

// ── Trigram sets ─────────────────────────────────────────────────────────────

/// A set of trigrams, each held once, in order of first occurrence.
#[derive(Debug, Clone)]
pub struct TrigramSet {
    items: Vec<String>,
}

impl TrigramSet {
    /// The trigrams held.
    pub closed spec fn members(&self) -> Seq<Seq<char>> {
        views(self.items@)
    }

    /// No trigram is held twice.
    pub open spec fn wf(&self) -> bool {
        self.members().no_duplicates()
    }

    /// Number of distinct trigrams.
    pub fn len(&self) -> (n: usize)
        ensures
            n == self.members().len(),
    {
        self.items.len()
    }

    /// Whether `trigram` is in the set.
    pub fn contains(&self, trigram: &str) -> (b: bool)
        ensures
            b == self.members().contains(trigram@),
    {
        let t = chars_of(trigram);
        let mut i: usize = 0;
        while i < self.items.len()
            invariant
                i <= self.items@.len(),
                t@ == trigram@,
                forall|j: int| 0 <= j < i ==> self.items@[j]@ != trigram@,
            decreases self.items.len() - i,
        {
            let c = chars_of(self.items[i].as_str());
            assert(c@ == self.items@[i as int]@);
            if chars_eq(c.as_slice(), t.as_slice()) {
                assert(self.members()[i as int] == trigram@);
                return true;
            }
            i += 1;
        }
        assert forall|j: int| 0 <= j < self.members().len() implies self.members()[j] != trigram@ by {
            assert(self.members()[j] == self.items@[j]@);
        }
        false
    }

    /// The trigrams, in order of first occurrence.
    pub fn items(&self) -> (r: &Vec<String>)
        ensures
            views(r@) == self.members(),
    {
        &self.items
    }
}

/// The three-character windows of `s`.
pub open spec fn windows3(s: Seq<char>) -> Set<Seq<char>> {
    Set::new(|w: Seq<char>| exists|i: int| 0 <= i && i + 3 <= s.len() && w == #[trigger] s.subrange(i, i + 3))
}

/// The trigram set of a lowercased, decomposed text: the text itself when
/// shorter than three characters, else its three-character windows.
pub open spec fn trigrams_of(lower: Seq<char>) -> Set<Seq<char>> {
    if lower.len() < 3 {
        set![lower]
    } else {
        windows3(lower)
    }
}

/// Returns the lowercase-trigram set for `text`, using NFD normalization.
///
/// Shorter text becomes a single trigram; longer text yields a sliding window.
pub fn get_trigrams(text: &str) -> (t: TrigramSet)
    ensures
        t.wf(),
        t.members().to_set() == trigrams_of(lowercase(nfd(text@))),
{
    let cs = chars_of(text);
    let d = to_nfd(cs.as_slice());
    let lower = to_lowercase(d.as_slice());
    let ghost l = lower@;
    let mut kept: Vec<Vec<char>> = Vec::new();
    if lower.len() < TRIGRAM_LEN {
        let whole = copy_range(lower.as_slice(), 0, lower.len());
        kept.push(whole);
        proof {
            assert(whole@ =~= l);
            assert(char_views(kept@) =~= seq![l]);
            assert forall|x: Seq<char>| seq![l].to_set().contains(x) <==> set![l].contains(x) by {
                if x == l {
                    assert(seq![l][0] == x);
                }
            }
            assert(seq![l].to_set() =~= set![l]);
            assert(seq![l].no_duplicates());
        }
    } else {
        let mut i: usize = 0;
        while i < lower.len() - 2
            invariant
                l == lower@,
                l.len() >= 3,
                i + 2 <= l.len(),
                char_views(kept@).no_duplicates(),
                forall|w: Seq<char>| char_views(kept@).contains(w) <==> exists|j: int|
                    0 <= j < i && w == #[trigger] l.subrange(j, j + 3),
            decreases lower.len() - i,
        {
            let w = copy_range(lower.as_slice(), i, i + TRIGRAM_LEN);
            let ghost before = kept@;
            if !contains_chars(&kept, w.as_slice()) {
                kept.push(w);
                proof {
                    lemma_char_views_push(before, w);
                }
            }
            proof {
                assert forall|x: Seq<char>| char_views(kept@).contains(x) <==> exists|j: int|
                    0 <= j < i + 1 && x == #[trigger] l.subrange(j, j + 3) by {
                    if char_views(kept@).contains(x) {
                        if char_views(before).contains(x) {
                        } else {
                            assert(x == w@);
                            assert(x == l.subrange(i as int, i + 3));
                        }
                    }
                    if exists|j: int| 0 <= j < i + 1 && x == #[trigger] l.subrange(j, j + 3) {
                        let j = choose|j: int| 0 <= j < i + 1 && x == #[trigger] l.subrange(j, j + 3);
                        if j < i {
                            assert(char_views(before).contains(x));
                            let k = choose|k: int| 0 <= k < char_views(before).len() && char_views(before)[k] == x;
                            assert(char_views(kept@)[k] == x);
                        } else {
                            assert(x == w@);
                            if char_views(before).contains(x) {
                                let k = choose|k: int| 0 <= k < char_views(before).len() && char_views(before)[k] == x;
                                assert(char_views(kept@)[k] == x);
                            } else {
                                assert(char_views(kept@)[char_views(kept@).len() - 1] == x);
                            }
                        }
                    }
                }
            }
            i += 1;
        }
        proof {
            assert(char_views(kept@).to_set() =~= windows3(l));
        }
    }
    let items = strings_of(&kept);
    TrigramSet { items }
}

/// Number of trigrams of `query` that `title` holds too (the numerator of
/// the trigram overlap ratio; its denominator is `query.len()`).
pub fn count_shared_trigrams(query: &TrigramSet, title: &TrigramSet) -> (n: usize)
    ensures
        n == query.members().filter(|t: Seq<char>| title.members().contains(t)).len(),
        n <= query.members().len(),
{
    let mut n: usize = 0;
    let mut i: usize = 0;
    let ghost p = |t: Seq<char>| title.members().contains(t);
    while i < query.items.len()
        invariant
            i <= query.items@.len(),
            p == |t: Seq<char>| title.members().contains(t),
            n == query.members().take(i as int).filter(p).len(),
            n <= i,
        decreases query.items.len() - i,
    {
        proof {
            lemma_take_push(query.members(), i as int);
            let q = query.members().take(i + 1);
            assert(q.drop_last() =~= query.members().take(i as int));
            reveal(Seq::filter);
            assert(q.filter(p) == if p(q.last()) { q.drop_last().filter(p).push(q.last()) } else { q.drop_last().filter(p) });
            assert(q.last() == query.items@[i as int]@);
        }
        if title.contains(query.items[i].as_str()) {
            n += 1;
        }
        i += 1;
    }
    proof {
        assert(query.members().take(query.items@.len() as int) =~= query.members());
        query.members().lemma_filter_len(p);
    }
    n
}

// ── Query sanitizing ─────────────────────────────────────────────────────────

/// Characters with special meaning to FTS5 that sanitizing turns into spaces.
pub open spec fn fts_special(c: char) -> bool {
    c == '"' || c == '*' || c == '^' || c == '(' || c == ')'
}

/// The output of the sanitizing pass over `s` before the final trim, and
/// whether it last emitted a space (it starts as if it had).
pub open spec fn sanitize_pass(s: Seq<char>) -> (Seq<char>, bool)
    decreases s.len(),
{
    if s.len() == 0 {
        (seq![], true)
    } else {
        let (out, last_space) = sanitize_pass(s.drop_last());
        let ch = s.last();
        let mapped = if fts_special(ch) || is_ws(ch) { ' ' } else { ch };
        if mapped == ' ' {
            if !last_space {
                (out.push(' '), true)
            } else {
                (out, true)
            }
        } else {
            (out.push(mapped), false)
        }
    }
}

/// `query` with FTS5 special characters and whitespace runs each turned into
/// one space, then trimmed.
pub open spec fn sanitized(query: Seq<char>) -> Seq<char> {
    trim(sanitize_pass(query).0)
}

/// A text in sanitized shape: no FTS5 special character, no whitespace but
/// spaces, never two spaces in a row.
pub open spec fn sanitized_shape(r: Seq<char>) -> bool {
    &&& forall|i: int| 0 <= i < r.len() ==> !fts_special(#[trigger] r[i]) && (is_ws(r[i]) ==> r[i] == ' ')
    &&& forall|i: int| 0 <= i < r.len() - 1 ==> !(#[trigger] r[i] == ' ' && r[i + 1] == ' ')
}

proof fn lemma_sanitize_pass_shape(s: Seq<char>)
    ensures
        sanitized_shape(sanitize_pass(s).0),
        sanitize_pass(s).1 == (sanitize_pass(s).0.len() == 0 || sanitize_pass(s).0.last() == ' '),
        sanitize_pass(s).0.len() > 0 ==> sanitize_pass(s).0[0] != ' ',
    decreases s.len(),
{
    if s.len() > 0 {
        lemma_sanitize_pass_shape(s.drop_last());
        let (out, last) = sanitize_pass(s.drop_last());
        let (out2, last2) = sanitize_pass(s);
        assert forall|i: int| 0 <= i < out.len() implies out2[i] == out[i] by {}
    }
}

/// A subrange of a text in sanitized shape keeps the shape.
proof fn lemma_shape_subrange(r: Seq<char>, a: int, b: int)
    requires
        sanitized_shape(r),
        0 <= a <= b <= r.len(),
    ensures
        sanitized_shape(r.subrange(a, b)),
{
    let t = r.subrange(a, b);
    assert forall|i: int| 0 <= i < t.len() - 1 implies !(#[trigger] t[i] == ' ' && t[i + 1] == ' ') by {
        assert(t[i] == r[a + i]);
        assert(t[i + 1] == r[a + i + 1]);
    }
    assert forall|i: int| 0 <= i < t.len() implies !fts_special(#[trigger] t[i]) && (is_ws(t[i]) ==> t[i] == ' ') by {
        assert(t[i] == r[a + i]);
    }
}

/// The sanitized query holds no FTS5 special character and no whitespace but
/// single spaces between words: none at either end, never two in a row.
pub proof fn lemma_sanitized_shape(query: Seq<char>)
    ensures
        sanitized_shape(sanitized(query)),
        sanitized(query).len() > 0 ==> !is_ws(sanitized(query)[0]) && !is_ws(sanitized(query).last()),
{
    let out = sanitize_pass(query).0;
    lemma_sanitize_pass_shape(query);
    crate::text::unicode::lemma_lead_ws_bounds(out);
    let u = trim_start(out);
    crate::text::unicode::lemma_trail_ws_bounds(u);
    let lw = crate::text::unicode::lead_ws(out);
    let tw = crate::text::unicode::trail_ws(u);
    assert(u =~= out.subrange(lw as int, out.len() as int));
    let r = sanitized(query);
    assert(r =~= out.subrange(lw as int, out.len() - tw));
    lemma_shape_subrange(out, lw as int, out.len() - tw);
    if r.len() > 0 {
        assert(r[0] == u[0]);
        assert(r.last() == u[u.len() - tw - 1]);
    }
}

/// Sanitizing twice is sanitizing once.
pub proof fn lemma_sanitized_idempotent(query: Seq<char>)
    ensures
        sanitized(sanitized(query)) == sanitized(query),
{
    let r = sanitized(query);
    lemma_sanitized_shape(query);
    lemma_pass_keeps_shaped(r, r.len() as int);
    assert(r.take(r.len() as int) =~= r);
    crate::text::unicode::lemma_trim_idempotent(sanitize_pass(query).0);
    if r.len() > 0 {
        crate::text::unicode::lemma_lead_ws(r, 0);
        crate::text::unicode::lemma_trail_ws(r, 0);
    } else {
        crate::text::unicode::lemma_lead_ws(r, 0);
        crate::text::unicode::lemma_trail_ws(r.skip(0), 0);
    }
    assert(trim(r) =~= r);
}

/// The pass leaves a shaped text without a leading space as it is.
proof fn lemma_pass_keeps_shaped(r: Seq<char>, k: int)
    requires
        sanitized_shape(r),
        r.len() > 0 ==> r[0] != ' ',
        0 <= k <= r.len(),
    ensures
        sanitize_pass(r.take(k)).0 == r.take(k),
        sanitize_pass(r.take(k)).1 == (k == 0 || r[k - 1] == ' '),
    decreases k,
{
    if k > 0 {
        lemma_pass_keeps_shaped(r, k - 1);
        assert(r.take(k).drop_last() =~= r.take(k - 1));
        assert(r.take(k).last() == r[k - 1]);
        if k >= 2 {
            assert(!(r[k - 2] == ' ' && r[k - 1] == ' '));
        }
        assert(r.take(k - 1).push(r[k - 1]) =~= r.take(k));
    }
}

fn sanitize_chars(q: &[char]) -> (r: Vec<char>)
    ensures
        r@ == sanitized(q@),
{
    let mut out: Vec<char> = Vec::new();
    let mut last_space = true;
    let mut i: usize = 0;
    while i < q.len()
        invariant
            i <= q@.len(),
            sanitize_pass(q@.take(i as int)) == (out@, last_space),
        decreases q.len() - i,
    {
        let ch = q[i];
        proof {
            assert(q@.take(i + 1).drop_last() =~= q@.take(i as int));
            assert(q@.take(i + 1).last() == ch);
        }
        let mapped = if ch == '"' || ch == '*' || ch == '^' || ch == '(' || ch == ')' || is_whitespace(ch) {
            ' '
        } else {
            ch
        };
        if mapped == ' ' {
            if !last_space {
                out.push(' ');
                last_space = true;
            }
        } else {
            out.push(mapped);
            last_space = false;
        }
        i += 1;
    }
    assert(q@.take(q@.len() as int) =~= q@);
    trim_chars(out.as_slice())
}

/// Strips characters that have special meaning to FTS5 and collapses runs of
/// whitespace into single spaces.
pub fn sanitize_fts_query(query: &str) -> (r: String)
    ensures
        r@ == sanitized(query@),
{
    let cs = chars_of(query);
    let r = sanitize_chars(cs.as_slice());
    string_of(r.as_slice())
}

// ── FTS query construction ───────────────────────────────────────────────────

/// Whether `regex::Regex::is_match` finds a match of the pattern
/// `\b[a-zA-Z][a-zA-Z0-9]*(-[a-zA-Z0-9]+)+\b` (a hyphenated token such as
/// `gpt-4`) anywhere in `text`.
pub uninterp spec fn hyphenated_token(text: Seq<char>) -> bool;

/// Calls `Regex::is_match` with the hyphenated-token pattern. The pattern is
/// a fixed, valid expression, so compiling it succeeds; the result is named
/// by [`hyphenated_token`].
#[verifier::external_body]
fn is_hyphenated_token(text: &[char]) -> (b: bool)
    ensures
        b == hyphenated_token(text@),
{
    let haystack: String = text.iter().collect();
    Regex::new(r"\b[a-zA-Z][a-zA-Z0-9]*(-[a-zA-Z0-9]+)+\b").map_or(false, |re| re.is_match(&haystack))
}

/// A query term: a double-quoted phrase or a bare run of characters.
pub ghost enum FtsTerm {
    Quoted(Seq<char>),
    Bare(Seq<char>),
}

/// Characters that end a bare term: whitespace and the double quote.
pub open spec fn bare_char() -> spec_fn(char) -> bool {
    |c: char| !is_ws(c) && c != '"'
}

/// The terms of a query: after leading whitespace, a `"` opens a phrase that
/// runs to the next `"` (or the end); anything else opens a bare term that
/// runs to the next whitespace or `"`.
pub open spec fn fts_terms(s: Seq<char>) -> Seq<FtsTerm>
    decreases s.len(),
{
    let t = trim_start(s);
    if t.len() == 0 || t.len() > s.len() {
        seq![]
    } else if t[0] == '"' {
        let body = t.drop_first();
        let k = crate::text::unicode::index_of(body, '"');
        if k < body.len() {
            seq![FtsTerm::Quoted(body.take(k as int))] + fts_terms(body.skip(k as int + 1))
        } else {
            seq![FtsTerm::Quoted(body)]
        }
    } else {
        let k = lead_count(t, bare_char());
        if k == 0 || k > t.len() {
            seq![]
        } else {
            seq![FtsTerm::Bare(t.take(k as int))] + fts_terms(t.skip(k as int))
        }
    }
}

/// `"` + `s` + `"`.
pub open spec fn quoted(s: Seq<char>) -> Seq<char> {
    seq!['"'] + s + seq!['"']
}

/// The FTS pieces of a bare term, given whether it is a hyphenated token:
/// one phrase with hyphens turned into spaces for a hyphenated token, else
/// each sanitized word as a quoted prefix term.
pub open spec fn term_pieces(c: Seq<char>, hyphenated: bool) -> Seq<Seq<char>> {
    if hyphenated {
        seq![quoted(replace_char(c, '-', ' '))]
    } else {
        words(sanitized(c)).map_values(|w: Seq<char>| quoted(w) + seq!['*'])
    }
}

/// The FTS pieces of a bare term (see [`term_pieces`]).
pub open spec fn bare_pieces(c: Seq<char>) -> Seq<Seq<char>> {
    term_pieces(c, hyphenated_token(c))
}

/// The positive and the negated pieces of a term sequence. A bare term that
/// starts with `-` is negated; quoted phrases are never negated.
pub open spec fn fts_pieces(terms: Seq<FtsTerm>) -> (Seq<Seq<char>>, Seq<Seq<char>>)
    decreases terms.len(),
{
    if terms.len() == 0 {
        (seq![], seq![])
    } else {
        let (pos, neg) = fts_pieces(terms.drop_last());
        match terms.last() {
            FtsTerm::Quoted(c) => if sanitized(c).len() == 0 {
                (pos, neg)
            } else {
                (pos.push(quoted(sanitized(c))), neg)
            },
            FtsTerm::Bare(c) => if c.len() > 0 && c[0] == '-' {
                (pos, neg + bare_pieces(c.drop_first()))
            } else {
                (pos + bare_pieces(c), neg)
            },
        }
    }
}

/// `" NOT " + n` for each negated piece, concatenated.
pub open spec fn not_clauses(neg: Seq<Seq<char>>) -> Seq<char>
    decreases neg.len(),
{
    if neg.len() == 0 {
        seq![]
    } else {
        not_clauses(neg.drop_last()) + seq![' ', 'N', 'O', 'T', ' '] + neg.last()
    }
}

/// The empty-phrase query `""`, used when a query reduces to nothing.
pub open spec fn literal_empty_fts() -> Seq<char> {
    seq!['"', '"']
}

/// The FTS5 query for `query`: positive pieces joined by ` AND `/` OR `,
/// followed by ` NOT piece` for each negated piece; `""` when there are no
/// pieces, and the empty string when every piece is negated.
pub open spec fn fts_query(query: Seq<char>, op: FtsOperator) -> Seq<char> {
    let (pos, neg) = fts_pieces(fts_terms(query));
    if pos.len() == 0 && neg.len() == 0 {
        literal_empty_fts()
    } else if pos.len() == 0 {
        seq![]
    } else {
        join(pos, seq![' '] + keyword_of(op) + seq![' ']) + not_clauses(neg)
    }
}

fn quote_chars(s: &[char]) -> (r: Vec<char>)
    ensures
        r@ == quoted(s@),
{
    let mut r = vec!['"'];
    push_all(&mut r, s);
    r.push('"');
    assert(r@ =~= quoted(s@));
    r
}

fn bare_term_pieces(c: &[char]) -> (r: Vec<Vec<char>>)
    ensures
        char_views(r@) == bare_pieces(c@),
{
    let h = is_hyphenated_token(c);
    term_pieces_chars(c, h)
}

/// The FTS pieces of the bare query term `term`, given whether the
/// hyphenated-token expression matches it (see [`term_pieces`]).
pub fn bare_term_fts_pieces(term: &str, hyphenated: bool) -> (r: Vec<String>)
    ensures
        views(r@) == term_pieces(term@, hyphenated),
{
    let cs = chars_of(term);
    let ps = term_pieces_chars(cs.as_slice(), hyphenated);
    strings_of(&ps)
}

fn term_pieces_chars(c: &[char], hyphenated: bool) -> (r: Vec<Vec<char>>)
    ensures
        char_views(r@) == term_pieces(c@, hyphenated),
{
    if hyphenated {
        let spaced = replace_chars(c, '-', ' ');
        let q = quote_chars(spaced.as_slice());
        let r = vec![q];
        assert(char_views(r@) =~= term_pieces(c@, hyphenated));
        r
    } else {
        let s = sanitize_chars(c);
        let ws = split_words(s.as_slice());
        let mut r: Vec<Vec<char>> = Vec::new();
        let mut i: usize = 0;
        while i < ws.len()
            invariant
                i <= ws@.len(),
                char_views(ws@) == words(sanitized(c@)),
                char_views(r@) == char_views(ws@).take(i as int).map_values(|w: Seq<char>| quoted(w) + seq!['*']),
            decreases ws.len() - i,
        {
            let mut q = quote_chars(ws[i].as_slice());
            q.push('*');
            let ghost before = r@;
            r.push(q);
            proof {
                lemma_char_views_push(before, q);
                lemma_take_push(char_views(ws@), i as int);
                let f = |w: Seq<char>| quoted(w) + seq!['*'];
                let cv = char_views(ws@);
                assert(cv[i as int] == ws@[i as int]@);
                assert(q@ == f(cv[i as int]));
                assert(cv.take(i + 1).map_values(f) =~= cv.take(i as int).map_values(f).push(f(cv[i as int])));
                assert(char_views(r@) =~= cv.take(i + 1).map_values(f));
            }
            i += 1;
        }
        proof {
            assert(char_views(ws@).take(ws@.len() as int) =~= char_views(ws@));
        }
        r
    }
}

fn append_all(v: &mut Vec<Vec<char>>, w: Vec<Vec<char>>)
    ensures
        char_views(final(v)@) == char_views(old(v)@) + char_views(w@),
{
    let mut i: usize = 0;
    while i < w.len()
        invariant
            i <= w@.len(),
            char_views(v@) == char_views(old(v)@) + char_views(w@.take(i as int)),
        decreases w.len() - i,
    {
        let ghost before = v@;
        let x = copy_range(w[i].as_slice(), 0, w[i].len());
        assert(x@ =~= w@[i as int]@);
        v.push(x);
        proof {
            lemma_char_views_push(before, x);
            lemma_take_push(w@, i as int);
            lemma_char_views_push(w@.take(i as int), w@[i as int]);
        }
        i += 1;
    }
    assert(w@.take(w@.len() as int) =~= w@);
}

/// The term a tokenizer entry stands for.
pub open spec fn term_view(t: (bool, Vec<char>)) -> FtsTerm {
    if t.0 {
        FtsTerm::Quoted(t.1@)
    } else {
        FtsTerm::Bare(t.1@)
    }
}

pub open spec fn term_views(v: Seq<(bool, Vec<char>)>) -> Seq<FtsTerm> {
    v.map_values(|t: (bool, Vec<char>)| term_view(t))
}

fn tokenize(cs: &[char]) -> (terms: Vec<(bool, Vec<char>)>)
    ensures
        term_views(terms@) == fts_terms(cs@),
{
    let n = cs.len();
    let mut terms: Vec<(bool, Vec<char>)> = Vec::new();
    let mut i: usize = 0;
    proof {
        assert(cs@.skip(0) =~= cs@);
    }
    while i < n
        invariant
            n == cs@.len(),
            i <= n,
            term_views(terms@) + fts_terms(cs@.skip(i as int)) == fts_terms(cs@),
        decreases n - i,
    {
        let ghost s = cs@.skip(i as int);
        let mut a = i;
        while a < n && is_whitespace(cs[a])
            invariant
                i <= a <= n == cs@.len(),
                s == cs@.skip(i as int),
                forall|j: int| i <= j < a ==> is_ws(#[trigger] cs@[j]),
            decreases n - a,
        {
            a += 1;
        }
        proof {
            assert forall|j: int| 0 <= j < a - i implies is_ws(#[trigger] s[j]) by {
                assert(s[j] == cs@[j + i]);
            }
            if a < n {
                assert(s[a - i] == cs@[a as int]);
            }
            crate::text::unicode::lemma_lead_ws(s, a - i);
            assert(trim_start(s) =~= cs@.skip(a as int));
        }
        let ghost before = terms@;
        if a == n {
            proof {
                assert(fts_terms(s) =~= Seq::<FtsTerm>::empty());
                assert(cs@.skip(n as int) =~= Seq::<char>::empty());
                assert(fts_terms(cs@.skip(n as int)) =~= Seq::<FtsTerm>::empty());
                assert(term_views(terms@) + fts_terms(cs@.skip(n as int)) =~= term_views(terms@) + fts_terms(s));
            }
            i = n;
        } else if cs[a] == '"' {
            let ghost t = cs@.skip(a as int);
            let ghost body = t.drop_first();
            let mut b = a + 1;
            while b < n && cs[b] != '"'
                invariant
                    a < b <= n == cs@.len(),
                    body == cs@.skip(a + 1),
                    forall|j: int| a + 1 <= j < b ==> #[trigger] cs@[j] != '"',
                decreases n - b,
            {
                b += 1;
            }
            let k = b - (a + 1);
            proof {
                assert(body =~= cs@.skip(a + 1));
                assert forall|j: int| 0 <= j < k implies #[trigger] body[j] != '"' by {
                    assert(body[j] == cs@[j + a + 1]);
                }
                if b < n {
                    assert(body[k as int] == cs@[b as int]);
                }
                crate::text::unicode::lemma_index_of(body, '"', k as int);
            }
            let content = copy_range(cs, a + 1, b);
            terms.push((true, content));
            proof {
                assert(content@ =~= body.take(k as int));
                assert(term_views(terms@) =~= term_views(before).push(FtsTerm::Quoted(body.take(k as int))));
            }
            if b < n {
                proof {
                    assert(body.skip(k as int + 1) =~= cs@.skip(b + 1));
                    assert(fts_terms(s) == seq![FtsTerm::Quoted(body.take(k as int))] + fts_terms(body.skip(k as int + 1)));
                    assert(term_views(terms@) + fts_terms(cs@.skip(b + 1)) =~= term_views(before) + fts_terms(s));
                }
                i = b + 1;
            } else {
                proof {
                    assert(body.take(k as int) =~= body);
                    assert(cs@.skip(n as int) =~= Seq::<char>::empty());
                    assert(fts_terms(cs@.skip(n as int)) =~= Seq::<FtsTerm>::empty());
                    assert(fts_terms(s) == seq![FtsTerm::Quoted(body)]);
                    assert(term_views(terms@) + fts_terms(cs@.skip(n as int)) =~= term_views(before) + fts_terms(s));
                }
                i = n;
            }
        } else {
            let ghost t = cs@.skip(a as int);
            let mut b = a;
            while b < n && !is_whitespace(cs[b]) && cs[b] != '"'
                invariant
                    a <= b <= n == cs@.len(),
                    t == cs@.skip(a as int),
                    forall|j: int| a <= j < b ==> bare_char()(#[trigger] cs@[j]),
                decreases n - b,
            {
                b += 1;
            }
            proof {
                assert forall|j: int| 0 <= j < b - a implies bare_char()(#[trigger] t[j]) by {
                    assert(t[j] == cs@[j + a]);
                }
                if b < n {
                    assert(t[b - a] == cs@[b as int]);
                }
                lemma_lead_count(t, bare_char(), b - a);
                assert(t[0] == cs@[a as int]);
            }
            let content = copy_range(cs, a, b);
            terms.push((false, content));
            proof {
                assert(content@ =~= t.take(b - a));
                assert(t.skip(b - a) =~= cs@.skip(b as int));
                assert(fts_terms(s) == seq![FtsTerm::Bare(t.take(b - a))] + fts_terms(t.skip(b - a)));
                assert(term_views(terms@) =~= term_views(before).push(FtsTerm::Bare(t.take(b - a))));
                assert(term_views(terms@) + fts_terms(cs@.skip(b as int)) =~= term_views(before) + fts_terms(s));
            }
            i = b;
        }
    }
    proof {
        assert(cs@.skip(n as int) =~= Seq::<char>::empty());
        assert(fts_terms(cs@.skip(n as int)) =~= Seq::<FtsTerm>::empty());
        assert(term_views(terms@) =~= term_views(terms@) + fts_terms(cs@.skip(n as int)));
    }
    terms
}

/// Wraps each word in `query` as a quoted FTS5 prefix term, joined by
/// `operator`. Returns the empty phrase `""` for empty queries.
///
/// Hyphenated tokens (e.g. `gpt-4`) are rewritten as FTS5 phrases, and a
/// bare term with a leading `-` becomes a `NOT` clause.
pub fn to_fts_query(query: &str, operator: FtsOperator) -> (r: String)
    ensures
        r@ == fts_query(query@, operator),
{
    let cs = chars_of(query);
    let terms = tokenize(cs.as_slice());
    let ghost tv = term_views(terms@);
    let mut pos: Vec<Vec<char>> = Vec::new();
    let mut neg: Vec<Vec<char>> = Vec::new();
    let mut i: usize = 0;
    while i < terms.len()
        invariant
            i <= terms@.len(),
            tv == term_views(terms@),
            fts_pieces(tv.take(i as int)) == (char_views(pos@), char_views(neg@)),
        decreases terms.len() - i,
    {
        proof {
            assert(tv.take(i + 1).drop_last() =~= tv.take(i as int));
            assert(tv.take(i + 1).last() == term_view(terms@[i as int]));
        }
        let quoted_term = terms[i].0;
        let content = terms[i].1.as_slice();
        if quoted_term {
            let s = sanitize_chars(content);
            if s.len() > 0 {
                let q = quote_chars(s.as_slice());
                let ghost before = pos@;
                pos.push(q);
                proof {
                    lemma_char_views_push(before, q);
                }
            }
        } else if content.len() > 0 && content[0] == '-' {
            let rest = crate::text::unicode::copy_from(content, 1);
            proof {
                assert(rest@ =~= content@.drop_first());
            }
            let ps = bare_term_pieces(rest.as_slice());
            append_all(&mut neg, ps);
        } else {
            let ps = bare_term_pieces(content);
            append_all(&mut pos, ps);
        }
        i += 1;
    }
    proof {
        assert(tv.take(terms@.len() as int) =~= tv);
    }
    if pos.len() == 0 && neg.len() == 0 {
        let r = vec!['"', '"'];
        assert(r@ =~= literal_empty_fts());
        return string_of(r.as_slice());
    }
    if pos.len() == 0 {
        return String::new();
    }
    let mut joiner = vec![' '];
    push_all(&mut joiner, operator.keyword().as_slice());
    joiner.push(' ');
    let mut out = join_chars(pos.as_slice(), joiner.as_slice());
    proof {
        assert(joiner@ =~= seq![' '] + keyword_of(operator) + seq![' ']);
    }
    let mut j: usize = 0;
    let ghost start = out@;
    while j < neg.len()
        invariant
            j <= neg@.len(),
            out@ == start + not_clauses(char_views(neg@).take(j as int)),
        decreases neg.len() - j,
    {
        let ghost before = out@;
        let label = vec![' ', 'N', 'O', 'T', ' '];
        push_all(&mut out, label.as_slice());
        push_all(&mut out, neg[j].as_slice());
        proof {
            let nv = char_views(neg@).take(j + 1);
            assert(nv.drop_last() =~= char_views(neg@).take(j as int));
            assert(nv.last() == neg@[j as int]@);
            assert(label@ =~= seq![' ', 'N', 'O', 'T', ' ']);
            assert(out@ =~= start + not_clauses(nv));
        }
        j += 1;
    }
    proof {
        assert(char_views(neg@).take(neg@.len() as int) =~= char_views(neg@));
    }
    string_of(out.as_slice())
}

/// `s` with every `"` removed.
pub open spec fn unquote_all(s: Seq<char>) -> Seq<char> {
    s.filter(|c: char| c != '"')
}

fn remove_quotes(s: &[char]) -> (r: Vec<char>)
    ensures
        r@ == unquote_all(s@),
{
    let mut r: Vec<char> = Vec::new();
    let mut i: usize = 0;
    let ghost p = |c: char| c != '"';
    while i < s.len()
        invariant
            i <= s@.len(),
            p == |c: char| c != '"',
            r@ == s@.take(i as int).filter(p),
        decreases s.len() - i,
    {
        proof {
            let q = s@.take(i + 1);
            assert(q.drop_last() =~= s@.take(i as int));
            reveal(Seq::filter);
            assert(q.filter(p) == if p(q.last()) { q.drop_last().filter(p).push(q.last()) } else { q.drop_last().filter(p) });
            assert(q.last() == s@[i as int]);
        }
        if s[i] != '"' {
            r.push(s[i]);
        }
        i += 1;
    }
    assert(s@.take(s@.len() as int) =~= s@);
    r
}

/// The trigram OR query for `text`: `"text"` (quotes removed inside) when it
/// has fewer than three characters, else each three-character window,
/// quotes removed and then quoted, joined by ` OR `.
pub open spec fn trigram_or_query(text: Seq<char>) -> Seq<char> {
    if text.len() < 3 {
        quoted(unquote_all(text))
    } else {
        join(
            Seq::new((text.len() - 2) as nat, |i: int| quoted(unquote_all(text.subrange(i, i + 3)))),
            seq![' ', 'O', 'R', ' '],
        )
    }
}

/// Builds an FTS5 OR query of all trigrams in `text`, used against the
/// trigram-tokenized fuzzy index.
pub fn build_trigram_or_query(text: &str) -> (r: String)
    ensures
        r@ == trigram_or_query(text@),
{
    let cs = chars_of(text);
    if cs.len() < TRIGRAM_LEN {
        let u = remove_quotes(cs.as_slice());
        let q = quote_chars(u.as_slice());
        return string_of(q.as_slice());
    }
    let ghost t = cs@;
    let mut parts: Vec<Vec<char>> = Vec::new();
    let mut i: usize = 0;
    while i < cs.len() - 2
        invariant
            t == cs@,
            t.len() >= 3,
            i <= t.len() - 2,
            char_views(parts@) == Seq::new(i as nat, |j: int| quoted(unquote_all(t.subrange(j, j + 3)))),
        decreases cs.len() - i,
    {
        let w = copy_range(cs.as_slice(), i, i + 3);
        let u = remove_quotes(w.as_slice());
        let q = quote_chars(u.as_slice());
        let ghost before = parts@;
        parts.push(q);
        proof {
            lemma_char_views_push(before, q);
            assert(char_views(parts@) =~= Seq::new((i + 1) as nat, |j: int| quoted(unquote_all(t.subrange(j, j + 3)))));
        }
        i += 1;
    }
    let sep = vec![' ', 'O', 'R', ' '];
    assert(sep@ =~= seq![' ', 'O', 'R', ' ']);
    let r = join_chars(parts.as_slice(), sep.as_slice());
    string_of(r.as_slice())
}

} // verus!
