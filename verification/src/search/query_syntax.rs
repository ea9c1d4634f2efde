//! Inline query syntax: `tag:x`, `#x`, `heading:x` and `h:x` tokens.

use vstd::prelude::*;

use crate::text::processing::normalize_keyword;
use crate::text::unicode::{
    char_views, chars_of, copy_from, copy_range, join, join_chars, lead_count, lemma_char_views_push,
    lemma_lead_count, lemma_take_push, lemma_trail_count, lemma_views_push, strings_of, lowercase, nfd, split_words, starts_with, string_of, strip_prefix,
    trail_count, trim, trim_chars, views, words,
};

verus! {

/// A query with its inline filters separated out.
#[derive(Debug, Clone, PartialEq, Eq)]
pub struct QuerySyntax {
    pub query: String,
    pub tags: Vec<String>,
    pub headings: Vec<String>,
}

impl Default for QuerySyntax {
    fn default() -> (r: Self)
        ensures
            r.query@.len() == 0,
            r.tags@.len() == 0,
            r.headings@.len() == 0,
    {
        QuerySyntax { query: String::new(), tags: Vec::new(), headings: Vec::new() }
    }
}

/// The characters `trim_matches` removes from filter values.
pub open spec fn is_value_quote(c: char) -> bool {
    c == '"' || c == '\'' || c == '[' || c == ']'
}

pub open spec fn value_quote() -> spec_fn(char) -> bool {
    |c: char| is_value_quote(c)
}

/// `v` with quote and bracket characters removed at both ends.
pub open spec fn trim_quotes(v: Seq<char>) -> Seq<char> {
    let u = v.skip(lead_count(v, value_quote()) as int);
    u.take(u.len() - trail_count(u, value_quote()))
}

/// A filter value with quotes, brackets and whitespace removed; `None` when
/// nothing is left.
pub open spec fn clean_value(v: Seq<char>) -> Option<Seq<char>> {
    let c = trim(trim_quotes(v));
    if c.len() == 0 {
        None
    } else {
        Some(c)
    }
}

pub open spec fn tag_prefix() -> Seq<char> {
    seq!['t', 'a', 'g', ':']
}

pub open spec fn hash_prefix() -> Seq<char> {
    seq!['#']
}

pub open spec fn heading_prefix() -> Seq<char> {
    seq!['h', 'e', 'a', 'd', 'i', 'n', 'g', ':']
}

pub open spec fn short_heading_prefix() -> Seq<char> {
    seq!['h', ':']
}

/// The tag a token names (`tag:x` or `#x`), if any.
pub open spec fn tag_of(token: Seq<char>) -> Option<Seq<char>> {
    match strip_prefix(token, tag_prefix()) {
        Some(r) => clean_value(trim(r)),
        None => match strip_prefix(token, hash_prefix()) {
            Some(r) => clean_value(trim(r)),
            None => None,
        },
    }
}

/// The heading a token names (`heading:x` or `h:x`), if any.
pub open spec fn heading_of_token(token: Seq<char>) -> Option<Seq<char>> {
    match strip_prefix(token, heading_prefix()) {
        Some(r) => clean_value(trim(r)),
        None => match strip_prefix(token, short_heading_prefix()) {
            Some(r) => clean_value(trim(r)),
            None => None,
        },
    }
}

/// The tags, headings and free words of a token sequence, in order.
pub open spec fn classify(tokens: Seq<Seq<char>>) -> (Seq<Seq<char>>, Seq<Seq<char>>, Seq<Seq<char>>)
    decreases tokens.len(),
{
    if tokens.len() == 0 {
        (seq![], seq![], seq![])
    } else {
        let (tags, heads, rest) = classify(tokens.drop_last());
        let t = tokens.last();
        match tag_of(t) {
            Some(tag) => (tags.push(tag), heads, rest),
            None => match heading_of_token(t) {
                Some(h) => (tags, heads.push(h), rest),
                None => (tags, heads, rest.push(t)),
            },
        }
    }
}

/// The free-text query: the remaining words joined by spaces, or when none
/// remain, the headings then the tags joined by spaces.
pub open spec fn syntax_query(query: Seq<char>) -> Seq<char> {
    let (tags, heads, rest) = classify(words(query));
    if join(rest, seq![' ']).len() == 0 {
        join(heads + tags, seq![' '])
    } else {
        join(rest, seq![' '])
    }
}

fn is_value_quote_char(c: char) -> (b: bool)
    ensures
        b == is_value_quote(c),
{
    c == '"' || c == '\'' || c == '[' || c == ']'
}

/// Quote/bracket trimming, then whitespace trimming; `None` when empty.
fn clean_query_value(v: &[char]) -> (r: Option<Vec<char>>)
    ensures
        match r {
            Some(x) => clean_value(v@) == Some(x@),
            None => clean_value(v@).is_none(),
        },
{
    let n = v.len();
    let mut a: usize = 0;
    while a < n && is_value_quote_char(v[a])
        invariant
            a <= n == v@.len(),
            forall|j: int| 0 <= j < a ==> value_quote()(#[trigger] v@[j]),
        decreases n - a,
    {
        a += 1;
    }
    proof {
        lemma_lead_count(v@, value_quote(), a as int);
    }
    let u = copy_from(v, a);
    let m = u.len();
    let mut b: usize = m;
    while b > 0 && is_value_quote_char(u[b - 1])
        invariant
            b <= m == u@.len(),
            forall|j: int| b <= j < m ==> value_quote()(#[trigger] u@[j]),
        decreases b,
    {
        b -= 1;
    }
    proof {
        if m - b < m {
            assert(u@[m - (m - b) - 1] == u@[b - 1]);
        }
        lemma_trail_count(u@, value_quote(), (m - b) as int);
    }
    let w = copy_range(u.as_slice(), 0, b);
    proof {
        assert(w@ =~= trim_quotes(v@));
    }
    let c = trim_chars(w.as_slice());
    if c.len() == 0 {
        None
    } else {
        Some(c)
    }
}

fn tag_token(token: &[char]) -> (r: Option<Vec<char>>)
    ensures
        match r {
            Some(x) => tag_of(token@) == Some(x@),
            None => tag_of(token@).is_none(),
        },
{
    let p1 = vec!['t', 'a', 'g', ':'];
    let p2 = vec!['#'];
    proof {
        assert(p1@ =~= tag_prefix());
        assert(p2@ =~= hash_prefix());
    }
    if starts_with(token, p1.as_slice()) {
        let rest = copy_from(token, 4);
        let t = trim_chars(rest.as_slice());
        clean_query_value(t.as_slice())
    } else if starts_with(token, p2.as_slice()) {
        let rest = copy_from(token, 1);
        let t = trim_chars(rest.as_slice());
        clean_query_value(t.as_slice())
    } else {
        None
    }
}

fn heading_token(token: &[char]) -> (r: Option<Vec<char>>)
    ensures
        match r {
            Some(x) => heading_of_token(token@) == Some(x@),
            None => heading_of_token(token@).is_none(),
        },
{
    let p1 = vec!['h', 'e', 'a', 'd', 'i', 'n', 'g', ':'];
    let p2 = vec!['h', ':'];
    proof {
        assert(p1@ =~= heading_prefix());
        assert(p2@ =~= short_heading_prefix());
    }
    if starts_with(token, p1.as_slice()) {
        let rest = copy_from(token, 8);
        let t = trim_chars(rest.as_slice());
        clean_query_value(t.as_slice())
    } else if starts_with(token, p2.as_slice()) {
        let rest = copy_from(token, 2);
        let t = trim_chars(rest.as_slice());
        clean_query_value(t.as_slice())
    } else {
        None
    }
}

/// Splits a query into free text, `tag:`/`#` tag filters and
/// `heading:`/`h:` heading filters.
pub fn parse_query_syntax(query: &str) -> (parsed: QuerySyntax)
    ensures
        views(parsed.tags@) == classify(words(query@)).0,
        views(parsed.headings@) == classify(words(query@)).1,
        parsed.query@ == syntax_query(query@),
{
    let cs = chars_of(query);
    let tokens = split_words(cs.as_slice());
    let ghost ws = words(query@);
    let mut tags: Vec<Vec<char>> = Vec::new();
    let mut heads: Vec<Vec<char>> = Vec::new();
    let mut rest: Vec<Vec<char>> = Vec::new();
    let mut i: usize = 0;
    while i < tokens.len()
        invariant
            i <= tokens@.len(),
            char_views(tokens@) == ws,
            classify(ws.take(i as int)) == (char_views(tags@), char_views(heads@), char_views(rest@)),
        decreases tokens.len() - i,
    {
        let tok = tokens[i].as_slice();
        proof {
            assert(ws.take(i + 1).drop_last() =~= ws.take(i as int));
            assert(ws.take(i + 1).last() == tok@);
        }
        let ghost (t0, h0, r0) = (tags@, heads@, rest@);
        match tag_token(tok) {
            Some(tag) => {
                tags.push(tag);
                assert(char_views(tags@) =~= char_views(t0).push(tags@.last()@));
            },
            None => match heading_token(tok) {
                Some(h) => {
                    heads.push(h);
                    assert(char_views(heads@) =~= char_views(h0).push(heads@.last()@));
                },
                None => {
                    rest.push(copy_from(tok, 0));
                    assert(tok@.skip(0) =~= tok@);
                    assert(char_views(rest@) =~= char_views(r0).push(rest@.last()@));
                },
            },
        }
        i += 1;
    }
    proof {
        assert(ws.take(tokens@.len() as int) =~= ws);
    }
    let space = vec![' '];
    assert(space@ =~= seq![' ']);
    let joined = join_chars(rest.as_slice(), space.as_slice());
    let q = if joined.len() == 0 {
        let mut both: Vec<Vec<char>> = Vec::new();
        let mut j: usize = 0;
        while j < heads.len()
            invariant
                j <= heads@.len(),
                char_views(both@) == char_views(heads@.take(j as int)),
            decreases heads.len() - j,
        {
            let ghost before = both@;
            let x = copy_from(heads[j].as_slice(), 0);
            both.push(x);
            proof {
                assert(heads@[j as int]@.skip(0) =~= heads@[j as int]@);
                lemma_char_views_push(before, x);
                lemma_take_push(heads@, j as int);
                lemma_char_views_push(heads@.take(j as int), heads@[j as int]);
            }
            j += 1;
        }
        let mut k: usize = 0;
        while k < tags.len()
            invariant
                k <= tags@.len(),
                heads@.take(heads@.len() as int) == heads@,
                char_views(both@) == char_views(heads@) + char_views(tags@.take(k as int)),
            decreases tags.len() - k,
        {
            let ghost before = both@;
            let x = copy_from(tags[k].as_slice(), 0);
            both.push(x);
            proof {
                assert(tags@[k as int]@.skip(0) =~= tags@[k as int]@);
                lemma_char_views_push(before, x);
                lemma_take_push(tags@, k as int);
                lemma_char_views_push(tags@.take(k as int), tags@[k as int]);
                assert(char_views(both@) =~= char_views(heads@) + char_views(tags@.take(k + 1)));
            }
            k += 1;
        }
        proof {
            assert(heads@.take(heads@.len() as int) =~= heads@);
            assert(tags@.take(tags@.len() as int) =~= tags@);
        }
        join_chars(both.as_slice(), space.as_slice())
    } else {
        joined
    };
    proof {
        let (ct, ch, cr) = classify(ws);
        assert(ct == char_views(tags@));
        assert(ch == char_views(heads@));
        assert(cr == char_views(rest@));
        assert(joined@ == join(cr, seq![' ']));
    }
    QuerySyntax { query: string_of(q.as_slice()), tags: strings_of(&tags), headings: strings_of(&heads) }
}

/// A tag filter trimmed, with one leading `#` removed, then normalized as a
/// keyword.
pub open spec fn normalized_tag_filter(tag: Seq<char>) -> Seq<char> {
    lowercase(nfd(trim(match strip_prefix(trim(tag), seq!['#']) {
        Some(x) => x,
        None => trim(tag),
    })))
}

/// Normalizes a tag filter: trimmed, one leading `#` removed, then
/// normalized as a keyword.
pub fn normalize_tag_filter(tag: &str) -> (r: String)
    ensures
        r@ == normalized_tag_filter(tag@),
{
    let cs = chars_of(tag);
    let t = trim_chars(cs.as_slice());
    let h = vec!['#'];
    let without = if starts_with(t.as_slice(), h.as_slice()) {
        copy_from(t.as_slice(), 1)
    } else {
        copy_from(t.as_slice(), 0)
    };
    proof {
        assert(t@.skip(0) =~= t@);
        assert(h@ =~= seq!['#']);
    }
    let s = string_of(without.as_slice());
    normalize_keyword(s.as_str())
}

proof fn lemma_words_nonempty(s: Seq<char>)
    ensures
        forall|i: int| 0 <= i < words(s).len() ==> (#[trigger] words(s)[i]).len() > 0,
    decreases s.len(),
{
    let t = crate::text::unicode::trim_start(s);
    let k = lead_count(t, crate::text::unicode::non_ws());
    if t.len() == 0 || k == 0 || crate::text::unicode::lead_ws(s) + k > s.len() {
    } else {
        crate::text::unicode::lemma_lead_count_bounds(t, crate::text::unicode::non_ws());
        lemma_words_nonempty(t.skip(k as int));
        let w = words(s);
        let rest = words(t.skip(k as int));
        assert(w == seq![t.take(k as int)] + rest);
        assert forall|i: int| 0 <= i < w.len() implies (#[trigger] w[i]).len() > 0 by {
            if i > 0 {
                assert(w[i] == rest[i - 1]);
            }
        }
    }
}

proof fn lemma_classify_plain(tokens: Seq<Seq<char>>)
    requires
        forall|i: int|
            0 <= i < tokens.len() ==> tag_of(#[trigger] tokens[i]) is None && heading_of_token(tokens[i]) is None,
    ensures
        classify(tokens) == (Seq::<Seq<char>>::empty(), Seq::<Seq<char>>::empty(), tokens),
    decreases tokens.len(),
{
    if tokens.len() > 0 {
        let prev = tokens.drop_last();
        assert forall|i: int| 0 <= i < prev.len() implies tag_of(#[trigger] prev[i]) is None && heading_of_token(
            prev[i],
        ) is None by {
            assert(prev[i] == tokens[i]);
        }
        lemma_classify_plain(prev);
        assert(tokens.last() == tokens[tokens.len() - 1]);
        assert(prev.push(tokens.last()) =~= tokens);
    }
}

proof fn lemma_join_nonempty(parts: Seq<Seq<char>>, sep: Seq<char>)
    requires
        parts.len() > 0,
        parts.last().len() > 0,
    ensures
        join(parts, sep).len() > 0,
{
}

/// A query of plain words (no `tag:`, `#`, `heading:` or `h:` token) keeps
/// every word, in order, separated by single spaces, and names no tag and
/// no heading.
pub proof fn lemma_plain_words_query(query: Seq<char>)
    requires
        forall|i: int|
            0 <= i < words(query).len() ==> tag_of(#[trigger] words(query)[i]) is None && heading_of_token(
                words(query)[i],
            ) is None,
    ensures
        syntax_query(query) == join(words(query), seq![' ']),
        classify(words(query)).0.len() == 0,
        classify(words(query)).1.len() == 0,
{
    let ws = words(query);
    lemma_classify_plain(ws);
    lemma_words_nonempty(query);
    if ws.len() > 0 {
        assert(ws.last() == ws[ws.len() - 1]);
        lemma_join_nonempty(ws, seq![' ']);
    } else {
        assert(classify(ws).1 + classify(ws).0 =~= Seq::<Seq<char>>::empty());
    }
}

/// A token that is neither a tag nor a heading filter.
pub open spec fn is_free_word(t: Seq<char>) -> bool {
    tag_of(t) is None && heading_of_token(t) is None
}

proof fn lemma_classify_rest(tokens: Seq<Seq<char>>)
    ensures
        classify(tokens).2 == tokens.filter(|t: Seq<char>| is_free_word(t)),
    decreases tokens.len(),
{
    reveal_with_fuel(Seq::filter, 1);
    if tokens.len() > 0 {
        lemma_classify_rest(tokens.drop_last());
    }
}

/// The free text of a query is its free words (those that name no tag and
/// no heading), in order, separated by single spaces, whenever any remain.
pub proof fn lemma_free_words_query(query: Seq<char>)
    ensures
        words(query).filter(|t: Seq<char>| is_free_word(t)).len() > 0 ==> syntax_query(query) == join(
            words(query).filter(|t: Seq<char>| is_free_word(t)),
            seq![' '],
        ),
{
    let ws = words(query);
    let free = ws.filter(|t: Seq<char>| is_free_word(t));
    lemma_classify_rest(ws);
    lemma_words_nonempty(query);
    if free.len() > 0 {
        let last = free.last();
        assert(free[free.len() - 1] == last);
        assert(free.contains(last));
        ws.lemma_filter_contains_rev(|t: Seq<char>| is_free_word(t), last);
        let j = choose|j: int| 0 <= j < ws.len() && ws[j] == last;
        assert(ws[j].len() > 0);
        lemma_join_nonempty(free, seq![' ']);
    }
}

} // verus!
