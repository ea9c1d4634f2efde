//! Match anchors for search results: heading breadcrumbs and the decisions
//! around the database lookups that find them.
//!
//! A BM25 anchor's heading comes from the chunk whose text holds the snippet
//! (a database lookup) or, failing that, from the heading lines before the
//! snippet in the note's content. A semantic anchor's heading comes with the
//! chunk. The lookups run beside this library; what is decided here is what
//! to look up and what to make of the answers.

use vstd::prelude::*;

use crate::search::chunk_excerpt::{find_sub, first_occurrence, lemma_first_occurrence_bounds};
use crate::search::constants::{BM25_MIN_TOKENS, BM25_TOKENS_PER_CHAR_DIV, DEFAULT_SNIPPET_LENGTH};
use crate::search::match_text::{build_match_text, match_text};
use crate::search::output::{AnchorKind, MatchAnchor};
use crate::search::text_fts::{fts_query, to_fts_query, FtsOperator};
use crate::text::processing_wikilink::opt_view;
use crate::text::unicode::{
    byte_len, byte_prefix, char_views, chars_of, copy_from, copy_range, count_lead_char, is_byte_prefix,
    join, join_chars, lead_char, line_chars, lines_of, str_byte_len, string_of, trim, trim_bounds,
    trim_chars, trim_start,
};

verus! {

// ── Heading lines and breadcrumbs ───────────────────────────────────────────

/// An ASCII whitespace character (`u8::is_ascii_whitespace`).
pub open spec fn ascii_ws(c: char) -> bool {
    c == ' ' || c == '\t' || c == '\n' || c == '\x0C' || c == '\r'
}

/// The heading of a line: after leading whitespace, one or more `#` then an
/// ASCII whitespace character; its level capped at four, and its text
/// trimmed and not empty.
pub open spec fn heading_line(line: Seq<char>) -> Option<(nat, Seq<char>)> {
    let t = trim_start(line);
    let level = lead_char(t, '#');
    if level >= 1 && level < t.len() && ascii_ws(t[level as int]) && trim(t.skip(level as int)).len() > 0 {
        Some((if level < 4 { level } else { 4 }, trim(t.skip(level as int))))
    } else {
        None
    }
}

fn parse_heading_line(line: &[char]) -> (r: Option<(usize, Vec<char>)>)
    ensures
        r matches Some(p) ==> heading_line(line@) == Some((p.0 as nat, p.1@)),
        r is None ==> heading_line(line@) is None,
{
    let (a, _) = trim_bounds(line);
    let t = copy_from(line, a);
    let level = count_lead_char(t.as_slice(), 0, '#');
    proof {
        assert(t@.skip(0) =~= t@);
    }
    if level >= 1 && level < t.len() {
        let c = t[level];
        if c == ' ' || c == '\t' || c == '\n' || c == '\x0C' || c == '\r' {
            let rest = copy_from(t.as_slice(), level);
            let text = trim_chars(rest.as_slice());
            if text.len() > 0 {
                let folded = if level < 4 { level } else { 4 };
                return Some((folded, text));
            }
        }
    }
    None
}

/// Scans `lines` from the last one back, filling the four heading slots: a
/// heading no deeper than the shallowest found so far fills its empty slot;
/// a top-level heading ends the scan.
pub open spec fn crumb_scan(lines: Seq<Seq<char>>, slots: Seq<Option<Seq<char>>>, max: nat) -> Seq<Option<Seq<char>>>
    decreases lines.len(),
{
    if lines.len() == 0 {
        slots
    } else {
        match heading_line(lines.last()) {
            None => crumb_scan(lines.drop_last(), slots, max),
            Some((level, text)) => if level > max || level == 0 {
                crumb_scan(lines.drop_last(), slots, max)
            } else {
                let idx = (level - 1) as nat;
                let fill = slots[idx as int] is None;
                let slots2 = if fill { slots.update(idx as int, Some(text)) } else { slots };
                let max2 = if fill { idx } else { max };
                if idx == 0 {
                    slots2
                } else {
                    crumb_scan(lines.drop_last(), slots2, max2)
                }
            },
        }
    }
}

/// The filled slots, in order.
pub open spec fn present(slots: Seq<Option<Seq<char>>>) -> Seq<Seq<char>>
    decreases slots.len(),
{
    if slots.len() == 0 {
        seq![]
    } else {
        present(slots.drop_last()) + match slots.last() {
            Some(t) => seq![t],
            None => seq![],
        }
    }
}

/// The heading breadcrumb of the text before character `i` of `content`:
/// the headings that lead to that point, joined with ` > `.
pub open spec fn breadcrumb_at(content: Seq<char>, i: int) -> Option<Seq<char>> {
    let slots = crumb_scan(lines_of(content.take(i)), seq![None, None, None, None], 4);
    if present(slots).len() == 0 {
        None
    } else {
        Some(join(present(slots), " > "@))
    }
}

/// The breadcrumb before byte `byte_pos` of `content`: `None` when that is
/// not a character boundary within the content.
pub open spec fn breadcrumb_before(content: Seq<char>, byte_pos: nat) -> Option<Seq<char>> {
    if exists|i: int| 0 <= i <= content.len() && byte_len(content.take(i)) == byte_pos {
        breadcrumb_at(content, choose|i: int| 0 <= i <= content.len() && byte_len(content.take(i)) == byte_pos)
    } else {
        None
    }
}

fn breadcrumb_of_chars(cs: &[char], i: usize) -> (r: Option<String>)
    requires
        i <= cs@.len(),
    ensures
        opt_view(r) == breadcrumb_at(cs@, i as int),
{
    let before = copy_range(cs, 0, i);
    assert(before@ =~= cs@.take(i as int));
    let lines = line_chars(before.as_slice());
    let ghost ls = char_views(lines@);
    let mut slots: Vec<Option<Vec<char>>> = vec![None, None, None, None];
    let mut max: usize = 4;
    let mut k: usize = lines.len();
    let ghost init: Seq<Option<Seq<char>>> = seq![None, None, None, None];
    proof {
        assert(slot_views(slots@) =~= init);
    }
    let mut stopped = false;
    proof {
        assert(ls.take(k as int) =~= ls);
    }
    while k > 0 && !stopped
        invariant
            k <= lines@.len(),
            ls == char_views(lines@),
            ls == lines_of(cs@.take(i as int)),
            slots@.len() == 4,
            max <= 4,
            stopped ==> crumb_scan(ls, init, 4) == slot_views(slots@),
            !stopped ==> crumb_scan(ls, init, 4) == crumb_scan(ls.take(k as int), slot_views(slots@), max as nat),
        decreases k,
    {
        let ghost sv = slot_views(slots@);
        let ghost pre = ls.take(k as int);
        proof {
            assert(pre.drop_last() =~= ls.take(k - 1));
            assert(pre.last() == lines@[k - 1]@);
        }
        match parse_heading_line(lines[k - 1].as_slice()) {
            None => {},
            Some((level, text)) => {
                if level <= max && level > 0 {
                    let idx = level - 1;
                    let fill = slots[idx].is_none();
                    if fill {
                        let ghost tv = text@;
                        slots.set(idx, Some(text));
                        max = idx;
                        proof {
                            assert(slot_views(slots@) =~= sv.update(idx as int, Some(tv)));
                        }
                    }
                    if idx == 0 {
                        stopped = true;
                    }
                }
            },
        }
        k -= 1;
    }
    let ghost fin = slot_views(slots@);
    proof {
        if !stopped {
            assert(ls.take(0) =~= Seq::<Seq<char>>::empty());
        }
        assert(crumb_scan(ls, init, 4) == fin);
    }
    let mut parts: Vec<Vec<char>> = Vec::new();
    let mut j: usize = 0;
    while j < 4
        invariant
            j <= 4,
            slots@.len() == 4,
            fin == slot_views(slots@),
            char_views(parts@) == present(fin.take(j as int)),
        decreases 4 - j,
    {
        proof {
            let t = fin.take(j + 1);
            assert(t.drop_last() =~= fin.take(j as int));
            assert(t.last() == fin[j as int]);
        }
        match &slots[j] {
            Some(t) => {
                let ghost before_parts = parts@;
                let c = copy_range(t.as_slice(), 0, t.len());
                assert(c@ =~= t@);
                parts.push(c);
                proof {
                    crate::text::unicode::lemma_char_views_push(before_parts, c);
                }
            },
            None => {},
        }
        j += 1;
    }
    proof {
        assert(fin.take(4) =~= fin);
    }
    if parts.len() == 0 {
        None
    } else {
        let sep = chars_of(" > ");
        let joined = join_chars(parts.as_slice(), sep.as_slice());
        Some(string_of(joined.as_slice()))
    }
}

/// The views of the slots.
pub open spec fn slot_views(v: Seq<Option<Vec<char>>>) -> Seq<Option<Seq<char>>> {
    v.map_values(|o: Option<Vec<char>>| match o {
        Some(t) => Some(t@),
        None => None,
    })
}

/// The heading breadcrumb before byte `byte_pos` of `content`: the closest
/// preceding heading of each level up to the top one, joined with ` > `.
/// `None` when no heading precedes it, or when `byte_pos` is not a character
/// boundary within the content.
pub fn heading_breadcrumb_before(content: &str, byte_pos: usize) -> (r: Option<String>)
    ensures
        opt_view(r) == breadcrumb_before(content@, byte_pos as nat),
{
    let cs = chars_of(content);
    let total = str_byte_len(content);
    let pre = byte_prefix(cs.as_slice(), total);
    let mut i: usize = 0;
    while i < pre.len()
        invariant
            cs@ == content@,
            is_byte_prefix(cs@, pre@),
            i <= pre@.len(),
            forall|j: int| 0 <= j < i ==> byte_len(cs@.take(j)) != byte_pos,
        decreases pre.len() - i,
    {
        if pre[i] == byte_pos {
            proof {
                let c = choose|j: int| 0 <= j <= cs@.len() && byte_len(cs@.take(j)) == byte_pos;
                crate::text::unicode::lemma_byte_len_prefix_unique(cs@, c, i as int);
            }
            return breadcrumb_of_chars(cs.as_slice(), i);
        }
        i += 1;
    }
    None
}

// ── Snippet probes ──────────────────────────────────────────────────────────

/// `s` without all of its leading `...` runs (`str::trim_start_matches`).
pub open spec fn without_leading_dots(s: Seq<char>) -> Seq<char>
    decreases s.len(),
{
    if s.len() >= 3 && s[0] == '.' && s[1] == '.' && s[2] == '.' {
        without_leading_dots(s.skip(3))
    } else {
        s
    }
}

/// The snippet text used to find its block: leading `...` markers removed,
/// then trimmed.
pub open spec fn clean_snippet(s: Seq<char>) -> Seq<char> {
    trim(without_leading_dots(s))
}

/// The probe of a snippet: the first 40 characters of its clean text, when
/// that text has at least `min_bytes` bytes and is not empty.
pub open spec fn snippet_probe_spec(snippet: Seq<char>, min_bytes: nat) -> Option<Seq<char>> {
    let c = clean_snippet(snippet);
    if c.len() == 0 || byte_len(c) < min_bytes {
        None
    } else if c.len() <= 40 {
        Some(c)
    } else {
        Some(c.take(40))
    }
}

/// The probe to look a snippet's block up with: the first 40 characters of
/// the snippet without its leading `...` markers, trimmed; `None` when that
/// text is empty or shorter than `min_bytes` bytes.
pub fn snippet_probe(snippet: &str, min_bytes: usize) -> (r: Option<String>)
    ensures
        opt_view(r) == snippet_probe_spec(snippet@, min_bytes as nat),
{
    let cs = chars_of(snippet);
    let mut start: usize = 0;
    proof {
        assert(cs@.skip(0) =~= cs@);
    }
    while cs.len() - start >= 3 && cs[start] == '.' && cs[start + 1] == '.' && cs[start + 2] == '.'
        invariant
            start <= cs@.len(),
            without_leading_dots(cs@) == without_leading_dots(cs@.skip(start as int)),
        decreases cs.len() - start,
    {
        proof {
            let s = cs@.skip(start as int);
            assert(s[0] == cs@[start as int]);
            assert(s[1] == cs@[start + 1]);
            assert(s[2] == cs@[start + 2]);
            assert(s.skip(3) =~= cs@.skip(start + 3));
        }
        start += 3;
    }
    let rest = copy_from(cs.as_slice(), start);
    proof {
        let s = cs@.skip(start as int);
        if s.len() >= 3 {
            assert(s[0] == cs@[start as int]);
            assert(s[1] == cs@[start + 1]);
            assert(s[2] == cs@[start + 2]);
        }
    }
    let clean = trim_chars(rest.as_slice());
    let clean_str = string_of(clean.as_slice());
    let bytes = str_byte_len(clean_str.as_str());
    if clean.len() == 0 || bytes < min_bytes {
        return None;
    }
    if clean.len() <= 40 {
        Some(clean_str)
    } else {
        let head = copy_range(clean.as_slice(), 0, 40);
        assert(head@ =~= clean@.take(40));
        Some(string_of(head.as_slice()))
    }
}

/// The breadcrumb before the first occurrence of `probe` in `content`.
pub open spec fn scanned_heading(content: Seq<char>, probe: Seq<char>) -> Option<Seq<char>> {
    match first_occurrence(content, probe) {
        None => None,
        Some(i) => breadcrumb_at(content, i as int),
    }
}

/// Reconstructs a heading breadcrumb by finding `probe` in the note content
/// and walking back through the heading lines before it; `None` when the
/// probe is not in the content or no heading precedes it.
pub fn scan_content_for_heading(content: &str, probe: &str) -> (r: Option<String>)
    ensures
        opt_view(r) == scanned_heading(content@, probe@),
{
    let cs = chars_of(content);
    let pc = chars_of(probe);
    match find_sub(cs.as_slice(), pc.as_slice()) {
        None => None,
        Some(i) => {
            proof {
                lemma_first_occurrence_bounds(cs@, pc@, i as int);
            }
            breadcrumb_of_chars(cs.as_slice(), i)
        },
    }
}

/// The heading of the chunk row found for a snippet: its own heading path
/// when it has a non-empty one, else the breadcrumb before its start offset
/// in the note content.
pub open spec fn chunk_row_heading(heading: Option<Seq<char>>, char_start: Option<i64>, content: Seq<char>) -> Option<Seq<char>> {
    match heading {
        Some(h) if h.len() > 0 => Some(h),
        _ => match char_start {
            None => None,
            Some(s) => if s < 0 {
                None
            } else {
                breadcrumb_before(content, s as nat)
            },
        },
    }
}

/// The heading of the chunk row found for a snippet (see
/// [`chunk_row_heading`]).
pub fn heading_from_chunk_row(heading: Option<String>, char_start: Option<i64>, content: &str) -> (r: Option<String>)
    ensures
        opt_view(r) == chunk_row_heading(opt_view(heading), char_start, content@),
{
    match heading {
        Some(h) => {
            if h.as_str().unicode_len() > 0 {
                return Some(h);
            }
        },
        None => {},
    }
    match char_start {
        None => None,
        Some(s) => {
            if s < 0 {
                None
            } else {
                let total = str_byte_len(content);
                if s as u64 > total as u64 {
                    proof {
                        assert forall|i: int| 0 <= i <= content@.len() implies byte_len(content@.take(i)) != s as nat by {
                            crate::text::unicode::lemma_byte_len_prefix(content@, i);
                        }
                    }
                    None
                } else {
                    heading_breadcrumb_before(content, s as usize)
                }
            }
        },
    }
}

// ── Anchors ──────────────────────────────────────────────────────────────────

/// The mathematical content of a [`MatchAnchor`].
pub ghost struct AnchorModel {
    pub kind: AnchorKind,
    pub heading_path: Option<Seq<char>>,
    pub match_text: Seq<char>,
    pub char_start: Option<u32>,
    pub char_end: Option<u32>,
}

pub open spec fn anchor_view(a: MatchAnchor) -> AnchorModel {
    AnchorModel {
        kind: a.kind,
        heading_path: opt_view(a.heading_path),
        match_text: a.match_text@,
        char_start: a.char_start,
        char_end: a.char_end,
    }
}

/// The semantic side of a search result.
pub struct SemanticMatch {
    /// Heading path of the matching chunk.
    pub heading: Option<String>,
    /// Char offset of the chunk start.
    pub char_start: Option<u32>,
    /// Char offset of the chunk end.
    pub char_end: Option<u32>,
    /// Whether the result carries a semantic score.
    pub scored: bool,
}

/// The anchors of a result whose snippet is `snippet`: a BM25 anchor when
/// `bm25_heading` is given (the result has a BM25 score and a snippet; the
/// heading is what the lookups found), and a semantic anchor when the result
/// has semantic data and its match text differs from the BM25 one; each only
/// when the snippet's match text is not empty.
pub open spec fn anchors_spec(
    snippet: Seq<char>,
    bm25_heading: Option<Option<Seq<char>>>,
    sem_heading: Option<Seq<char>>,
    sem_start: Option<u32>,
    sem_end: Option<u32>,
    sem_scored: bool,
) -> Seq<AnchorModel> {
    let mt = match_text(snippet);
    let bm25: Seq<AnchorModel> = match bm25_heading {
        Some(h) => if mt.len() > 0 {
            seq![AnchorModel { kind: AnchorKind::Bm25, heading_path: h, match_text: mt, char_start: None, char_end: None }]
        } else {
            seq![]
        },
        None => seq![],
    };
    let has_semantic = sem_heading is Some || sem_start is Some || sem_scored;
    let heading = match sem_heading {
        Some(h) => if h.len() > 0 { Some(h) } else { None },
        None => None,
    };
    if has_semantic && mt.len() > 0 && !(bm25.len() > 0 && bm25[0].match_text == mt) {
        bm25.push(AnchorModel { kind: AnchorKind::Semantic, heading_path: heading, match_text: mt, char_start: sem_start, char_end: sem_end })
    } else {
        bm25
    }
}

/// Builds up to two anchors for a result: `[BM25 anchor, semantic anchor]`,
/// the semantic one dropped when both would show the same match text (the
/// BM25 anchor is positionally more precise).
pub fn assemble_anchors(snippet: &str, bm25_heading: Option<Option<String>>, semantic: SemanticMatch) -> (r: Vec<MatchAnchor>)
    ensures
        r@.map_values(|a: MatchAnchor| anchor_view(a)) == anchors_spec(
            snippet@,
            match bm25_heading {
                Some(h) => Some(opt_view(h)),
                None => None,
            },
            opt_view(semantic.heading),
            semantic.char_start,
            semantic.char_end,
            semantic.scored,
        ),
{
    let mut anchors: Vec<MatchAnchor> = Vec::new();
    let mt = build_match_text(snippet);
    let empty = mt.as_str().unicode_len() == 0;
    let ghost mtv = mt@;
    match bm25_heading {
        Some(h) => {
            if !empty {
                anchors.push(MatchAnchor { kind: AnchorKind::Bm25, heading_path: h, match_text: mt.clone(), char_start: None, char_end: None });
            }
        },
        None => {},
    }
    let has_semantic = semantic.heading.is_some() || semantic.char_start.is_some() || semantic.scored;
    let heading = match semantic.heading {
        Some(h) => if h.as_str().unicode_len() > 0 { Some(h) } else { None },
        None => None,
    };
    if has_semantic && !empty {
        let duplicate = anchors.len() > 0;
        if !duplicate {
            anchors.push(MatchAnchor {
                kind: AnchorKind::Semantic,
                heading_path: heading,
                match_text: mt,
                char_start: semantic.char_start,
                char_end: semantic.char_end,
            });
        }
    }
    proof {
        let f = |a: MatchAnchor| anchor_view(a);
        assert(anchors@.map_values(f) =~= anchors_spec(
            snippet@,
            match bm25_heading {
                Some(h) => Some(opt_view(h)),
                None => None,
            },
            opt_view(semantic.heading),
            semantic.char_start,
            semantic.char_end,
            semantic.scored,
        ));
    }
    anchors
}

// ── Snippet expansion ───────────────────────────────────────────────────────

/// The token budget of an expanded snippet: a quarter of the default snippet
/// length, rounded up, and at least the minimum.
pub open spec fn expansion_tokens() -> nat {
    let q = ((DEFAULT_SNIPPET_LENGTH + BM25_TOKENS_PER_CHAR_DIV - 1) as int / BM25_TOKENS_PER_CHAR_DIV as int) as nat;
    if q < BM25_MIN_TOKENS { BM25_MIN_TOKENS as nat } else { q }
}

/// Whether and how to look a longer BM25 snippet up: only for a snippet
/// shorter than half the default snippet length and a non-blank query whose
/// OR-joined FTS form is not empty; then that query and the token budget.
pub open spec fn expansion_plan(snippet: Seq<char>, query: Seq<char>) -> Option<(Seq<char>, nat)> {
    if snippet.len() * 2 >= DEFAULT_SNIPPET_LENGTH || trim(query).len() == 0 || fts_query(query, FtsOperator::Or).len() == 0 {
        None
    } else {
        Some((fts_query(query, FtsOperator::Or), expansion_tokens()))
    }
}

/// Decides whether a short BM25 snippet should be expanded, and with which
/// FTS query and token budget (see [`expansion_plan`]).
pub fn bm25_expansion_query(snippet: &str, query: &str) -> (r: Option<(String, u32)>)
    ensures
        match r {
            Some((q, n)) => expansion_plan(snippet@, query@) == Some((q@, n as nat)),
            None => expansion_plan(snippet@, query@) is None,
        },
{
    let n = snippet.unicode_len();
    if n >= 150 {
        return None;
    }
    let qc = chars_of(query);
    let t = trim_chars(qc.as_slice());
    if t.len() == 0 {
        return None;
    }
    let fts = to_fts_query(query, FtsOperator::Or);
    if fts.as_str().unicode_len() == 0 {
        return None;
    }
    let q = (DEFAULT_SNIPPET_LENGTH + BM25_TOKENS_PER_CHAR_DIV - 1) / BM25_TOKENS_PER_CHAR_DIV;
    let tokens = if q < BM25_MIN_TOKENS { BM25_MIN_TOKENS } else { q };
    Some((fts, tokens))
}

/// The expanded snippet to use: the looked-up text, trimmed, when it is
/// longer (in characters) than the current snippet.
pub open spec fn expanded_snippet(snippet: Seq<char>, fallback: Option<Seq<char>>) -> Option<Seq<char>> {
    match fallback {
        Some(f) => if trim(f).len() > snippet.len() { Some(trim(f)) } else { None },
        None => None,
    }
}

/// Picks the expanded snippet (see [`expanded_snippet`]).
pub fn pick_expanded_snippet(snippet: &str, fallback: Option<String>) -> (r: Option<String>)
    ensures
        opt_view(r) == expanded_snippet(snippet@, opt_view(fallback)),
{
    match fallback {
        None => None,
        Some(f) => {
            let fc = chars_of(f.as_str());
            let t = trim_chars(fc.as_slice());
            if t.len() > snippet.unicode_len() {
                Some(string_of(t.as_slice()))
            } else {
                None
            }
        },
    }
}

/// The heading shown beside a result's snippet: the semantic chunk's heading
/// when it has a non-empty one; otherwise none for an empty snippet; else
/// what `lookup` (the chunk-row lookup) found.
pub open spec fn snippet_heading(sem_heading: Option<Seq<char>>, snippet: Seq<char>, lookup: Option<Seq<char>>) -> Option<Seq<char>> {
    match sem_heading {
        Some(h) if h.len() > 0 => Some(h),
        _ => if snippet.len() == 0 { None } else { lookup },
    }
}

/// Whether `h` is a non-empty text.
pub open spec fn nonempty(h: Option<Seq<char>>) -> bool {
    match h {
        Some(t) => t.len() > 0,
        None => false,
    }
}

/// Whether the chunk-row lookup is needed for a snippet's heading.
pub fn needs_heading_lookup(sem_heading: &Option<String>, snippet: &str) -> (b: bool)
    ensures
        b == (!nonempty(opt_view(*sem_heading)) && snippet@.len() > 0),
{
    let has_heading = match sem_heading {
        Some(h) => {
            let n = h.as_str().unicode_len();
            n > 0
        },
        None => false,
    };
    !has_heading && snippet.unicode_len() > 0
}

/// The heading shown beside a result's snippet (see [`snippet_heading`]):
/// `lookup` is what the chunk-row lookup found, which is only consulted when
/// [`needs_heading_lookup`] says so.
pub fn resolve_snippet_heading(semantic_heading: Option<String>, snippet: &str, lookup: Option<String>) -> (r: Option<String>)
    ensures
        opt_view(r) == snippet_heading(opt_view(semantic_heading), snippet@, opt_view(lookup)),
{
    match semantic_heading {
        Some(h) => {
            if h.as_str().unicode_len() > 0 {
                return Some(h);
            }
        },
        None => {},
    }
    if snippet.unicode_len() == 0 {
        None
    } else {
        lookup
    }
}

} // verus!
