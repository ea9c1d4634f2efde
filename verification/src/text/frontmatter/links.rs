//! Wikilink and inline-tag extraction from markdown bodies.
//!
//! Lines inside fenced code blocks are skipped, and so are wikilinks that
//! start inside an inline code span.

use regex::Regex;
use vstd::prelude::*;

use super::WikiLink;
use crate::search::chunk_excerpt::{find_sub, first_occurrence};
use crate::search::match_text::find_from;
use crate::text::processing::{fence_match, heading_match};
use crate::text::processing_wikilink::{alias_part, heading_of, opt_view, target_part};
use crate::text::unicode::{
    char_views, chars_of, copy_from, copy_range, count_lead_char, index_of, lead_char,
    lemma_char_views_push, lemma_index_of_bounds,
    line_chars, lines_of, string_of, string_range, trail_count, trim,
    trim_bounds, trim_chars, trim_start, views,
};

verus! {

// ── Wikilinks ────────────────────────────────────────────────────────────────

/// The mathematical content of a [`WikiLink`].
pub ghost struct LinkModel {
    pub alias: Option<Seq<char>>,
    pub char_end: nat,
    pub char_start: nat,
    pub heading: Option<Seq<char>>,
    pub line_end: nat,
    pub line_start: nat,
    pub raw_target: Seq<char>,
    pub text: Seq<char>,
    pub target: Seq<char>,
}

pub open spec fn link_view(w: WikiLink) -> LinkModel {
    LinkModel {
        alias: opt_view(w.alias),
        char_end: w.char_end as nat,
        char_start: w.char_start as nat,
        heading: opt_view(w.heading),
        line_end: w.line_end as nat,
        line_start: w.line_start as nat,
        raw_target: w.raw_target@,
        text: w.text@,
        target: w.target@,
    }
}

pub open spec fn link_views(v: Seq<WikiLink>) -> Seq<LinkModel> {
    v.map_values(|w: WikiLink| link_view(w))
}

/// Where the match of `\[\[([^\]]+)\]\]` that starts at `p` ends, or -1:
/// `[[`, at least one character other than `]`, then `]]`.
pub open spec fn link_end(s: Seq<char>, p: int) -> int {
    if 0 <= p && p + 1 < s.len() && s[p] == '[' && s[p + 1] == '[' {
        let body = s.skip(p + 2);
        let q = index_of(body, ']');
        if 1 <= q && q + 1 < body.len() && body[q as int + 1] == ']' {
            p + q + 4
        } else {
            -1
        }
    } else {
        -1
    }
}

/// The successive non-overlapping wikilink matches in `s` from `p` on, as
/// `(start, end)` character positions.
pub open spec fn link_spans_from(s: Seq<char>, p: int) -> Seq<(int, int)>
    decreases s.len() - p,
{
    if p < 0 || p >= s.len() {
        seq![]
    } else {
        let e = link_end(s, p);
        if p < e <= s.len() {
            seq![(p, e)] + link_spans_from(s, e)
        } else {
            link_spans_from(s, p + 1)
        }
    }
}

/// `n` backticks.
pub open spec fn ticks(n: nat) -> Seq<char> {
    Seq::new(n, |i: int| '`')
}

/// The inline code spans of `s` from `cursor` on, as `(start, end)`
/// positions: a run of backticks, up to the next run of as many backticks
/// (an unclosed run ends the scan).
///
/// Code spans are usually measured in bytes; every position involved sits
/// on a character boundary, so counting characters decides the same
/// containments.
pub open spec fn code_ranges_from(s: Seq<char>, cursor: int) -> Seq<(int, int)>
    decreases s.len() - cursor,
{
    if cursor < 0 || cursor > s.len() {
        seq![]
    } else {
        let start = cursor + index_of(s.skip(cursor), '`');
        if start >= s.len() {
            seq![]
        } else {
            let n = lead_char(s.skip(start), '`');
            let code_start = start + n;
            match first_occurrence(s.skip(code_start), ticks(n)) {
                None => seq![],
                Some(r) => {
                    let end = code_start + r + n;
                    if cursor < end <= s.len() {
                        seq![(start, end)] + code_ranges_from(s, end)
                    } else {
                        seq![]
                    }
                },
            }
        }
    }
}

/// Position `p` lies in one of the ranges.
pub open spec fn in_ranges(ranges: Seq<(int, int)>, p: int) -> bool {
    exists|i: int| 0 <= i < ranges.len() && (#[trigger] ranges[i]).0 <= p < ranges[i].1
}

/// 1-based line number of the line at `index`, saturating at `u32::MAX`.
pub open spec fn line_number_of(index: nat) -> nat {
    if index >= u32::MAX {
        u32::MAX as nat
    } else {
        index + 1
    }
}

/// The link found at `line[p..e]`, where `line` starts at character `pos` of
/// the content; offsets are character offsets into the content.
pub open spec fn link_model(
    line: Seq<char>,
    p: int,
    e: int,
    pos: int,
    ln: nat,
) -> LinkModel {
    let raw = line.subrange(p + 2, e - 2);
    let tp = target_part(raw);
    let ap = trim(alias_part(raw));
    LinkModel {
        alias: if ap.len() == 0 {
            None
        } else {
            Some(ap)
        },
        char_end: (pos + e) as nat,
        char_start: (pos + p) as nat,
        heading: heading_of(tp),
        line_end: ln,
        line_start: ln,
        raw_target: trim(tp),
        text: line.subrange(p, e),
        target: trim(tp.take(index_of(tp, '#') as int)),
    }
}

/// The links of the matches `spans` of `line`, skipping those that start in
/// an inline code range.
pub open spec fn links_of_spans(
    line: Seq<char>,
    spans: Seq<(int, int)>,
    codes: Seq<(int, int)>,
    pos: int,
    ln: nat,
) -> Seq<LinkModel>
    decreases spans.len(),
{
    if spans.len() == 0 {
        seq![]
    } else {
        let rest = links_of_spans(line, spans.drop_last(), codes, pos, ln);
        let (p, e) = spans.last();
        if in_ranges(codes, p) {
            rest
        } else {
            rest.push(link_model(line, p, e, pos, ln))
        }
    }
}

/// Length of the `split_inclusive('\n')` piece of `s` that starts at `pos`.
pub open spec fn piece_len(s: Seq<char>, pos: int) -> int {
    let rest = s.skip(pos);
    let k = index_of(rest, '\n');
    if k < rest.len() {
        k as int + 1
    } else {
        rest.len() as int
    }
}

/// A piece without one trailing `'\n'` and then one trailing `'\r'`.
pub open spec fn line_text(piece: Seq<char>) -> Seq<char> {
    let l = if piece.len() > 0 && piece.last() == '\n' {
        piece.drop_last()
    } else {
        piece
    };
    if l.len() > 0 && l.last() == '\r' {
        l.drop_last()
    } else {
        l
    }
}

/// The links of `content` from character `pos` on, the line there having
/// index `idx`, with a fence open when `fence` holds.
pub open spec fn links_from(content: Seq<char>, pos: int, idx: nat, fence: bool) -> Seq<LinkModel>
    decreases content.len() - pos,
{
    if pos < 0 || pos >= content.len() {
        seq![]
    } else {
        let n = piece_len(content, pos);
        let line = line_text(content.subrange(pos, pos + n));
        let t = trim_start(line);
        if n <= 0 || pos + n > content.len() {
            seq![]
        } else if fence_match(t) {
            links_from(content, pos + n, idx + 1, !fence)
        } else if fence {
            links_from(content, pos + n, idx + 1, fence)
        } else {
            links_of_spans(
                line,
                link_spans_from(line, 0),
                code_ranges_from(line, 0),
                pos,
                line_number_of(idx),
            ) + links_from(content, pos + n, idx + 1, fence)
        }
    }
}

/// The wikilinks of `content`, in order.
pub open spec fn wikilinks(content: Seq<char>) -> Seq<LinkModel> {
    links_from(content, 0, 0, false)
}

/// The wikilink spans of `line`.
fn link_spans(line: &[char]) -> (r: Vec<(usize, usize)>)
    ensures
        r@.map_values(|x: (usize, usize)| (x.0 as int, x.1 as int)) == link_spans_from(line@, 0),
        forall|i: int| 0 <= i < r@.len() ==> #[trigger] r@[i].0 + 4 <= r@[i].1 <= line@.len(),
{
    let n = line.len();
    let mut r: Vec<(usize, usize)> = Vec::new();
    let mut p: usize = 0;
    while p < n
        invariant
            n == line@.len(),
            p <= n,
            r@.map_values(|x: (usize, usize)| (x.0 as int, x.1 as int)) + link_spans_from(line@, p as int)
                == link_spans_from(line@, 0),
            forall|i: int| 0 <= i < r@.len() ==> #[trigger] r@[i].0 + 4 <= r@[i].1 <= line@.len(),
        decreases n - p,
    {
        let ghost before = r@;
        let mut next = p + 1;
        if p + 1 < n && line[p] == '[' && line[p + 1] == '[' {
            let q = find_from(line, p + 2, ']');
            let ghost body = line@.skip(p + 2);
            proof {
                lemma_index_of_bounds(body, ']');
                let k = index_of(body, ']');
                if k < body.len() {
                    assert(body[k as int] == line@[p + 2 + k]);
                    assert(body.skip(k as int + 1) =~= line@.skip(p + 2 + k + 1));
                    assert(q == p + 2 + k);
                } else {
                    assert(q == n);
                }
                if q + 1 < n {
                    assert(body[q - p - 1] == line@[q + 1]);
                }
            }
            if q - p >= 3 && q < n && n - q > 1 && line[q + 1] == ']' {
                next = q + 2;
                r.push((p, q + 2));
                proof {
                    assert(link_end(line@, p as int) == q + 2);
                }
            } else {
                proof {
                    assert(link_end(line@, p as int) == -1);
                }
            }
        } else {
            proof {
                assert(link_end(line@, p as int) == -1);
            }
        }
        proof {
            let f = |x: (usize, usize)| (x.0 as int, x.1 as int);
            if next == p + 1 {
                assert(r@ == before);
            } else {
                assert(r@.map_values(f) =~= before.map_values(f).push((p as int, next as int)));
            }
        }
        p = next;
    }
    proof {
        assert(link_spans_from(line@, n as int) =~= Seq::<(int, int)>::empty());
        assert(r@.map_values(|x: (usize, usize)| (x.0 as int, x.1 as int)) + link_spans_from(line@, n as int)
            =~= r@.map_values(|x: (usize, usize)| (x.0 as int, x.1 as int)));
    }
    r
}

/// The inline code ranges of `line`.
fn code_ranges(line: &[char]) -> (r: Vec<(usize, usize)>)
    ensures
        r@.map_values(|x: (usize, usize)| (x.0 as int, x.1 as int)) == code_ranges_from(line@, 0),
{
    let n = line.len();
    let mut r: Vec<(usize, usize)> = Vec::new();
    let mut cursor: usize = 0;
    let ghost f = |x: (usize, usize)| (x.0 as int, x.1 as int);
    loop
        invariant
            n == line@.len(),
            cursor <= n,
            f == |x: (usize, usize)| (x.0 as int, x.1 as int),
            r@.map_values(f) + code_ranges_from(line@, cursor as int) == code_ranges_from(line@, 0),
        decreases n - cursor,
    {
        let ghost before = r@;
        let start = find_from(line, cursor, '`');
        proof {
            lemma_index_of_bounds(line@.skip(cursor as int), '`');
            let k = index_of(line@.skip(cursor as int), '`');
            if k < line@.skip(cursor as int).len() {
                assert(line@.skip(cursor as int)[k as int] == line@[cursor + k]);
                assert(line@.skip(cursor as int).skip(k as int + 1) =~= line@.skip(cursor + k + 1));
                assert(start == cursor + k);
            } else {
                assert(start == n);
            }
        }
        if start >= n {
            proof {
                assert(code_ranges_from(line@, cursor as int) =~= Seq::<(int, int)>::empty());
                assert(r@.map_values(f) + code_ranges_from(line@, cursor as int) =~= r@.map_values(f));
            }
            return r;
        }
        let count = count_lead_char(line, start, '`');
        let code_start = start + count;
        let rest = copy_from(line, code_start);
        let mut pat: Vec<char> = Vec::new();
        let mut t: usize = 0;
        while t < count
            invariant
                t <= count,
                pat@ == ticks(t as nat),
            decreases count - t,
        {
            pat.push('`');
            assert(pat@ =~= ticks((t + 1) as nat));
            t += 1;
        }
        match find_sub(rest.as_slice(), pat.as_slice()) {
            None => {
                proof {
                    assert(code_ranges_from(line@, cursor as int) =~= Seq::<(int, int)>::empty());
                    assert(r@.map_values(f) + code_ranges_from(line@, cursor as int) =~= r@.map_values(f));
                }
                return r;
            },
            Some(rel) => {
                proof {
                    crate::search::chunk_excerpt::lemma_first_occurrence_bounds(rest@, pat@, rel as int);
                }
                let end = code_start + rel + count;
                if !(cursor < end && end <= n) {
                    proof {
                        assert(code_ranges_from(line@, cursor as int) =~= Seq::<(int, int)>::empty());
                        assert(r@.map_values(f) + code_ranges_from(line@, cursor as int) =~= r@.map_values(f));
                    }
                    return r;
                }
                r.push((start, end));
                proof {
                    assert(r@.map_values(f) =~= before.map_values(f).push((start as int, end as int)));
                }
                cursor = end;
            },
        }
    }
}

/// Whether `p` lies in one of `ranges`.
fn in_code(ranges: &Vec<(usize, usize)>, p: usize) -> (b: bool)
    ensures
        b == in_ranges(ranges@.map_values(|x: (usize, usize)| (x.0 as int, x.1 as int)), p as int),
{
    let ghost m = ranges@.map_values(|x: (usize, usize)| (x.0 as int, x.1 as int));
    let mut i: usize = 0;
    while i < ranges.len()
        invariant
            i <= ranges@.len(),
            m == ranges@.map_values(|x: (usize, usize)| (x.0 as int, x.1 as int)),
            forall|j: int| 0 <= j < i ==> !((#[trigger] m[j]).0 <= p < m[j].1),
        decreases ranges.len() - i,
    {
        let (a, z) = ranges[i];
        if a <= p && p < z {
            assert(m[i as int].0 <= p < m[i as int].1);
            return true;
        }
        i += 1;
    }
    false
}

/// The link at `line[p..e]`, `line` starting at character `pos` of the
/// content.
fn make_link(
    content: Ghost<Seq<char>>,
    line: &[char],
    p: usize,
    e: usize,
    pos: usize,
    ln: u32,
) -> (w: WikiLink)
    requires
        content@.len() <= usize::MAX,
        p + 4 <= e <= line@.len(),
        pos + line@.len() <= content@.len(),
    ensures
        link_view(w) == link_model(line@, p as int, e as int, pos as int, ln as nat),
{
    let raw = copy_range(line, p + 2, e - 2);
    let bar = crate::text::processing_wikilink::find_char(raw.as_slice(), '|');
    let tp = copy_range(raw.as_slice(), 0, bar);
    let ap = if bar < raw.len() { copy_range(raw.as_slice(), bar + 1, raw.len()) } else { Vec::new() };
    proof {
        assert(tp@ =~= target_part(raw@));
        assert(ap@ =~= alias_part(raw@));
    }
    let hash = crate::text::processing_wikilink::find_char(tp.as_slice(), '#');
    let tt = copy_range(tp.as_slice(), 0, hash);
    proof {
        assert(tt@ =~= tp@.take(hash as int));
    }
    let target = trim_chars(tt.as_slice());
    let heading = if hash < tp.len() {
        let after = copy_range(tp.as_slice(), hash + 1, tp.len());
        proof {
            assert(after@ =~= tp@.skip(hash + 1));
        }
        let ht = trim_chars(after.as_slice());
        if ht.len() == 0 {
            None
        } else {
            Some(string_of(ht.as_slice()))
        }
    } else {
        None
    };
    let at = trim_chars(ap.as_slice());
    let alias = if at.len() == 0 {
        None
    } else {
        Some(string_of(at.as_slice()))
    };
    let rt = trim_chars(tp.as_slice());
    WikiLink {
        alias,
        char_end: pos + e,
        char_start: pos + p,
        heading,
        line_end: ln,
        line_start: ln,
        raw_target: string_of(rt.as_slice()),
        text: string_range(line, p, e),
        target: string_of(target.as_slice()),
    }
}

/// Appends the links of `line` (starting at character `pos`) to `out`.
fn push_line_links(
    content: Ghost<Seq<char>>,
    line: &[char],
    pos: usize,
    ln: u32,
    out: &mut Vec<WikiLink>,
)
    requires
        content@.len() <= usize::MAX,
        pos + line@.len() <= content@.len(),
    ensures
        link_views(final(out)@) == link_views(old(out)@) + links_of_spans(
            line@,
            link_spans_from(line@, 0),
            code_ranges_from(line@, 0),
            pos as int,
            ln as nat,
        ),
{
    let ranges = code_ranges(line);
    let spans = link_spans(line);
    let ghost f = |x: (usize, usize)| (x.0 as int, x.1 as int);
    let ghost sp = spans@.map_values(f);
    let ghost codes = ranges@.map_values(f);
    let ghost start = link_views(out@);
    let mut i: usize = 0;
    while i < spans.len()
        invariant
            content@.len() <= usize::MAX,
            pos + line@.len() <= content@.len(),
            i <= spans@.len(),
            f == |x: (usize, usize)| (x.0 as int, x.1 as int),
            sp == spans@.map_values(f),
            sp == link_spans_from(line@, 0),
            codes == ranges@.map_values(f),
            codes == code_ranges_from(line@, 0),
            forall|j: int| 0 <= j < spans@.len() ==> #[trigger] spans@[j].0 + 4 <= spans@[j].1 <= line@.len(),
            link_views(out@) == start + links_of_spans(line@, sp.take(i as int), codes, pos as int, ln as nat),
        decreases spans.len() - i,
    {
        let (p, e) = spans[i];
        proof {
            let s2 = sp.take(i + 1);
            assert(s2.drop_last() =~= sp.take(i as int));
            assert(s2.last() == (p as int, e as int));
        }
        let skip = in_code(&ranges, p);
        if !skip {
            let w = make_link(content, line, p, e, pos, ln);
            let ghost before = out@;
            out.push(w);
            proof {
                assert(link_views(out@) =~= link_views(before).push(link_view(w)));
            }
        }
        i += 1;
    }
    proof {
        assert(sp.take(spans@.len() as int) =~= sp);
    }
}

/// The `split_inclusive('\n')` piece of `cs` that starts at `pos`: where it
/// ends, and its text without the line ending.
fn piece_at(cs: &[char], pos: usize) -> (r: (usize, Vec<char>))
    requires
        pos < cs@.len(),
    ensures
        r.0 == pos + piece_len(cs@, pos as int),
        pos < r.0 <= cs@.len(),
        r.1@ == line_text(cs@.subrange(pos as int, r.0 as int)),
        pos + r.1@.len() <= cs@.len(),
{
    let n = cs.len();
    let j = find_from(cs, pos, '\n');
    let ghost rest = cs@.skip(pos as int);
    proof {
        lemma_index_of_bounds(rest, '\n');
    }
    let end = if j < n { j + 1 } else { n };
    let mut le = if j < n { j } else { n };
    if le > pos && cs[le - 1] == '\r' {
        le = le - 1;
    }
    let line = copy_range(cs, pos, le);
    proof {
        let piece = cs@.subrange(pos as int, end as int);
        if j < n {
            assert(piece.last() == '\n');
            assert(piece.drop_last() =~= cs@.subrange(pos as int, j as int));
        }
        assert(line@ =~= line_text(piece));
    }
    (end, line)
}

/// Extracts wikilinks from markdown content, with character offsets into
/// `content` and 1-based line numbers. Links inside fenced code blocks, and
/// links that start inside an inline code span, are skipped.
pub fn extract_wikilinks(content: &str) -> (links: Vec<WikiLink>)
    ensures
        link_views(links@) == wikilinks(content@),
{
    let cs = chars_of(content);
    let n = cs.len();
    let ghost whole = cs@;
    let mut links: Vec<WikiLink> = Vec::new();
    let mut pos: usize = 0;
    let mut idx: usize = 0;
    let mut fence = false;
    while pos < n
        invariant
            whole == cs@,
            whole == content@,
            n == whole.len(),
            pos <= n,
            idx <= pos,
            link_views(links@) + links_from(whole, pos as int, idx as nat, fence) == wikilinks(whole),
        decreases n - pos,
    {
        let (end, line) = piece_at(cs.as_slice(), pos);
        let (a, _) = trim_bounds(line.as_slice());
        let t = copy_from(line.as_slice(), a);
        let is_fence = crate::text::processing::fence_line_chars(t.as_slice());
        let ghost before = links@;
        let ln: u32 = if idx >= 4294967295 { 4294967295 } else { (idx + 1) as u32 };
        if is_fence {
            fence = !fence;
            proof {
                assert(link_views(links@) + links_from(whole, end as int, (idx + 1) as nat, fence)
                    =~= link_views(before) + links_from(whole, pos as int, idx as nat, !fence));
            }
        } else if !fence {
            push_line_links(Ghost(whole), line.as_slice(), pos, ln, &mut links);
            proof {
                assert(link_views(links@) + links_from(whole, end as int, (idx + 1) as nat, fence)
                    =~= link_views(before) + links_from(whole, pos as int, idx as nat, fence));
            }
        }
        pos = end;
        idx = idx + 1;
    }
    proof {
        assert(links_from(whole, n as int, idx as nat, fence) =~= Seq::<LinkModel>::empty());
        assert(link_views(links@) + links_from(whole, n as int, idx as nat, fence) =~= link_views(links@));
    }
    links
}

proof fn lemma_link_spans_bounds(s: Seq<char>, p: int)
    ensures
        forall|i: int|
            0 <= i < link_spans_from(s, p).len() ==> {
                let sp = #[trigger] link_spans_from(s, p)[i];
                &&& p <= sp.0
                &&& sp.0 + 4 <= sp.1 <= s.len()
            },
        forall|i: int, j: int|
            0 <= i < j < link_spans_from(s, p).len() ==> (#[trigger] link_spans_from(s, p)[i]).1 <= (
            #[trigger] link_spans_from(s, p)[j]).0,
    decreases s.len() - p,
{
    if p < 0 || p >= s.len() {
    } else {
        let e = link_end(s, p);
        if p < e <= s.len() {
            lemma_link_spans_bounds(s, e);
            let rest = link_spans_from(s, e);
            let all = link_spans_from(s, p);
            assert(all == seq![(p, e)] + rest);
            lemma_index_of_bounds(s.skip(p + 2), ']');
            assert(e >= p + 4);
            assert forall|i: int| 0 <= i < all.len() implies {
                let sp = #[trigger] all[i];
                &&& p <= sp.0
                &&& sp.0 + 4 <= sp.1 <= s.len()
            } by {
                if i > 0 {
                    assert(all[i] == rest[i - 1]);
                }
            }
            assert forall|i: int, j: int| 0 <= i < j < all.len() implies (#[trigger] all[i]).1 <= (
            #[trigger] all[j]).0 by {
                assert(all[j] == rest[j - 1]);
                if i > 0 {
                    assert(all[i] == rest[i - 1]);
                }
            }
        } else {
            lemma_link_spans_bounds(s, p + 1);
            assert(link_spans_from(s, p) == link_spans_from(s, p + 1));
        }
    }
}

proof fn lemma_links_of_spans_text(
    line: Seq<char>,
    spans: Seq<(int, int)>,
    codes: Seq<(int, int)>,
    pos: int,
    ln: nat,
)
    requires
        0 <= pos,
        forall|i: int| 0 <= i < spans.len() ==> 0 <= (#[trigger] spans[i]).0 && spans[i].0 + 4 <= spans[i].1 <= line.len(),
        forall|i: int, j: int| 0 <= i < j < spans.len() ==> (#[trigger] spans[i]).1 <= (#[trigger] spans[j]).0,
    ensures
        forall|k: int|
            0 <= k < links_of_spans(line, spans, codes, pos, ln).len() ==> {
                let l = #[trigger] links_of_spans(line, spans, codes, pos, ln)[k];
                &&& pos <= l.char_start
                &&& l.char_start < l.char_end <= pos + line.len()
                &&& l.text == line.subrange(l.char_start - pos, l.char_end - pos)
                &&& l.line_start == ln && l.line_end == ln
            },
        forall|k1: int, k2: int|
            0 <= k1 < k2 < links_of_spans(line, spans, codes, pos, ln).len() ==> (#[trigger] links_of_spans(
                line,
                spans,
                codes,
                pos,
                ln,
            )[k1]).char_end <= (#[trigger] links_of_spans(line, spans, codes, pos, ln)[k2]).char_start,
        spans.len() > 0 ==> forall|k: int|
            0 <= k < links_of_spans(line, spans, codes, pos, ln).len() ==> (#[trigger] links_of_spans(
                line,
                spans,
                codes,
                pos,
                ln,
            )[k]).char_end <= pos + spans.last().1,
    decreases spans.len(),
{
    if spans.len() > 0 {
        let prev = spans.drop_last();
        assert forall|i: int| 0 <= i < prev.len() implies 0 <= (#[trigger] prev[i]).0 && prev[i].0 + 4 <= prev[i].1
            <= line.len() by {
            assert(prev[i] == spans[i]);
        }
        assert forall|i: int, j: int| 0 <= i < j < prev.len() implies (#[trigger] prev[i]).1 <= (
        #[trigger] prev[j]).0 by {
            assert(prev[i] == spans[i] && prev[j] == spans[j]);
        }
        lemma_links_of_spans_text(line, prev, codes, pos, ln);
        let rest = links_of_spans(line, prev, codes, pos, ln);
        let all = links_of_spans(line, spans, codes, pos, ln);
        let (p, e) = spans.last();
        if prev.len() > 0 {
            assert(prev.last() == spans[spans.len() - 2]);
            assert(spans[spans.len() - 2].1 <= spans[spans.len() - 1].0);
        }
        if !in_ranges(codes, p) {
            let m = link_model(line, p, e, pos, ln);
            assert(all == rest.push(m));
            assert forall|k1: int, k2: int| 0 <= k1 < k2 < all.len() implies (#[trigger] all[k1]).char_end <= (
            #[trigger] all[k2]).char_start by {
                if k2 < rest.len() {
                    assert(all[k1] == rest[k1] && all[k2] == rest[k2]);
                } else {
                    assert(all[k1] == rest[k1]);
                }
            }
            assert forall|k: int| 0 <= k < all.len() implies {
                let l = #[trigger] all[k];
                &&& pos <= l.char_start
                &&& l.char_start < l.char_end <= pos + line.len()
                &&& l.text == line.subrange(l.char_start - pos, l.char_end - pos)
                &&& l.line_start == ln && l.line_end == ln
            } by {
                if k < rest.len() {
                    assert(all[k] == rest[k]);
                }
            }
        } else {
            assert(all == rest);
        }
    }
}

proof fn lemma_line_text_prefix(piece: Seq<char>)
    ensures
        line_text(piece).len() <= piece.len(),
        line_text(piece) == piece.take(line_text(piece).len() as int),
{
    let l = if piece.len() > 0 && piece.last() == '\n' {
        piece.drop_last()
    } else {
        piece
    };
    assert(l =~= piece.take(l.len() as int));
    if l.len() > 0 && l.last() == '\r' {
        assert(l.drop_last() =~= piece.take(l.len() - 1));
    }
}

proof fn lemma_links_from_text(content: Seq<char>, pos: int, idx: nat, fence: bool)
    requires
        0 <= pos,
    ensures
        forall|k: int|
            0 <= k < links_from(content, pos, idx, fence).len() ==> {
                let l = #[trigger] links_from(content, pos, idx, fence)[k];
                &&& pos <= l.char_start
                &&& l.char_start < l.char_end <= content.len()
                &&& l.text == content.subrange(l.char_start as int, l.char_end as int)
            },
        forall|k1: int, k2: int|
            0 <= k1 < k2 < links_from(content, pos, idx, fence).len() ==> (#[trigger] links_from(
                content,
                pos,
                idx,
                fence,
            )[k1]).char_end <= (#[trigger] links_from(content, pos, idx, fence)[k2]).char_start,
    decreases content.len() - pos,
{
    if pos < content.len() {
        let n = piece_len(content, pos);
        let piece = content.subrange(pos, pos + n);
        let line = line_text(piece);
        let t = trim_start(line);
        if n <= 0 || pos + n > content.len() {
        } else if fence_match(t) {
            lemma_links_from_text(content, pos + n, idx + 1, !fence);
        } else if fence {
            lemma_links_from_text(content, pos + n, idx + 1, fence);
        } else {
            lemma_links_from_text(content, pos + n, idx + 1, fence);
            lemma_line_text_prefix(piece);
            lemma_link_spans_bounds(line, 0);
            let spans = link_spans_from(line, 0);
            let codes = code_ranges_from(line, 0);
            let ln = line_number_of(idx);
            lemma_links_of_spans_text(line, spans, codes, pos, ln);
            let here = links_of_spans(line, spans, codes, pos, ln);
            let later = links_from(content, pos + n, idx + 1, fence);
            let all = links_from(content, pos, idx, fence);
            assert(all == here + later);
            assert forall|k: int| 0 <= k < all.len() implies {
                let l = #[trigger] all[k];
                &&& pos <= l.char_start
                &&& l.char_start < l.char_end <= content.len()
                &&& l.text == content.subrange(l.char_start as int, l.char_end as int)
            } by {
                if k < here.len() {
                    let l = here[k];
                    assert(all[k] == l);
                    assert(line == piece.take(line.len() as int));
                    assert(content.subrange(l.char_start as int, l.char_end as int) =~= line.subrange(
                        l.char_start - pos,
                        l.char_end - pos,
                    ));
                } else {
                    assert(all[k] == later[k - here.len()]);
                }
            }
            assert forall|k1: int, k2: int| 0 <= k1 < k2 < all.len() implies (#[trigger] all[k1]).char_end <= (
            #[trigger] all[k2]).char_start by {
                if k2 < here.len() {
                    assert(all[k1] == here[k1] && all[k2] == here[k2]);
                } else if k1 < here.len() {
                    assert(all[k1] == here[k1]);
                    assert(all[k2] == later[k2 - here.len()]);
                } else {
                    assert(all[k1] == later[k1 - here.len()]);
                    assert(all[k2] == later[k2 - here.len()]);
                }
            }
        }
    }
}

/// Each wikilink's offsets are character positions in the content: the
/// characters between them are the link's text, and the links come in
/// order, each ending before the next begins.
pub proof fn lemma_wikilink_offsets(content: Seq<char>)
    ensures
        forall|k: int|
            0 <= k < wikilinks(content).len() ==> {
                let l = #[trigger] wikilinks(content)[k];
                &&& l.char_start < l.char_end <= content.len()
                &&& l.text == content.subrange(l.char_start as int, l.char_end as int)
            },
        forall|k1: int, k2: int|
            0 <= k1 < k2 < wikilinks(content).len() ==> (#[trigger] wikilinks(content)[k1]).char_end <= (
            #[trigger] wikilinks(content)[k2]).char_start,
{
    lemma_links_from_text(content, 0, 0, false);
}

// ── Inline tags ──────────────────────────────────────────────────────────────

/// The texts of capture group 2 of the successive matches that
/// `regex::Regex::captures_iter` finds for `(?u)(^|\s)#([\p{L}\p{N}_/.-]+)`
/// in `line`.
pub uninterp spec fn inline_tag_captures(line: Seq<char>) -> Seq<Seq<char>>;

/// Compiles the inline-tag expression once and runs `captures_iter` over each
/// line, keeping the text of capture group 2 of every match (the group takes
/// part in every match of the expression). The results are named by
/// [`inline_tag_captures`].
#[verifier::external_body]
fn tag_captures(lines: &[Vec<char>]) -> (r: Vec<Vec<String>>)
    ensures
        r@.len() == lines@.len(),
        forall|i: int| 0 <= i < lines@.len() ==> views(#[trigger] r@[i]@) == inline_tag_captures(lines@[i]@),
{
    let Ok(re) = Regex::new(r"(?u)(^|\s)#([\p{L}\p{N}_/.-]+)") else {
        return lines.iter().map(|_| Vec::new()).collect();
    };
    lines
        .iter()
        .map(|line| {
            let text: String = line.iter().collect();
            re.captures_iter(&text).map(|c| c[2].to_string()).collect()
        })
        .collect()
}

/// Punctuation trimmed from the end of an inline tag.
pub open spec fn tag_punct() -> spec_fn(char) -> bool {
    |c: char| c == ')' || c == ']' || c == '}' || c == '.' || c == ',' || c == ';' || c == ':'
        || c == '!' || c == '?'
}

/// The captured tags with trailing punctuation removed, empty ones dropped.
pub open spec fn cleaned_tags(caps: Seq<Seq<char>>) -> Seq<Seq<char>>
    decreases caps.len(),
{
    if caps.len() == 0 {
        seq![]
    } else {
        let rest = cleaned_tags(caps.drop_last());
        let c = caps.last();
        let t = c.take(c.len() - trail_count(c, tag_punct()));
        if t.len() == 0 {
            rest
        } else {
            rest.push(t)
        }
    }
}

/// Runs over the lines: whether a fence is open after them, and the tags
/// found so far.
pub open spec fn tags_fold(lines: Seq<Seq<char>>) -> (bool, Seq<Seq<char>>)
    decreases lines.len(),
{
    if lines.len() == 0 {
        (false, seq![])
    } else {
        let (fence, tags) = tags_fold(lines.drop_last());
        let t = trim_start(lines.last());
        if fence_match(t) {
            (!fence, tags)
        } else if fence || heading_match(t) {
            (fence, tags)
        } else {
            (fence, tags + cleaned_tags(inline_tag_captures(t)))
        }
    }
}

/// The inline `#tags` of `content`, outside fenced code blocks and heading
/// lines, in order.
pub open spec fn inline_tags(content: Seq<char>) -> Seq<Seq<char>> {
    tags_fold(lines_of(content)).1
}

/// The tags of the texts `caps` captured by the inline-tag expression on
/// one line: trailing `)]}.,;:!?` removed from each, empty ones dropped.
pub fn clean_captured_tags(caps: &[String]) -> (r: Vec<String>)
    ensures
        views(r@) == cleaned_tags(views(caps@)),
{
    let ghost cv = views(caps@);
    let mut tags: Vec<String> = Vec::new();
    let mut c: usize = 0;
    while c < caps.len()
        invariant
            c <= caps@.len(),
            cv == views(caps@),
            views(tags@) == cleaned_tags(cv.take(c as int)),
        decreases caps.len() - c,
    {
        let raw = chars_of(caps[c].as_str());
        let mut e = raw.len();
        while e > 0 && (raw[e - 1] == ')' || raw[e - 1] == ']' || raw[e - 1] == '}'
            || raw[e - 1] == '.' || raw[e - 1] == ',' || raw[e - 1] == ';' || raw[e - 1]
            == ':' || raw[e - 1] == '!' || raw[e - 1] == '?')
            invariant
                e <= raw@.len(),
                forall|j: int| e <= j < raw@.len() ==> (tag_punct())(#[trigger] raw@[j]),
            decreases e,
        {
            e -= 1;
        }
        proof {
            let rv = raw@;
            assert forall|j: int| rv.len() - (rv.len() - e) <= j < rv.len() implies (tag_punct())(#[trigger] rv[j]) by {}
            crate::text::unicode::lemma_trail_count(rv, tag_punct(), (rv.len() - e) as int);
            let c2 = cv.take(c + 1);
            assert(c2.drop_last() =~= cv.take(c as int));
            assert(c2.last() == rv);
        }
        let ghost before = tags@;
        if e > 0 {
            let tag = string_range(raw.as_slice(), 0, e);
            tags.push(tag);
            proof {
                assert(raw@.subrange(0, e as int) =~= raw@.take(e as int));
                assert(views(tags@) =~= views(before).push(tag@));
            }
        }
        c += 1;
    }
    proof {
        assert(cv.take(caps@.len() as int) =~= cv);
    }
    tags
}

/// Extracts inline `#tag` syntax from a markdown body (outside code fences
/// and heading lines).
pub fn extract_inline_tags(content: &str) -> (tags: Vec<String>)
    ensures
        views(tags@) == inline_tags(content@),
{
    let cs = chars_of(content);
    let lines = line_chars(cs.as_slice());
    let ghost ls = char_views(lines@);
    let mut trimmed: Vec<Vec<char>> = Vec::new();
    let mut i: usize = 0;
    while i < lines.len()
        invariant
            i <= lines@.len(),
            ls == char_views(lines@),
            trimmed@.len() == i,
            forall|j: int| 0 <= j < i ==> (#[trigger] trimmed@[j])@ == trim_start(ls[j]),
        decreases lines.len() - i,
    {
        let (a, _) = trim_bounds(lines[i].as_slice());
        let t = copy_from(lines[i].as_slice(), a);
        trimmed.push(t);
        i += 1;
    }
    let caps = tag_captures(trimmed.as_slice());
    let mut tags: Vec<String> = Vec::new();
    let mut fence = false;
    let mut k: usize = 0;
    while k < lines.len()
        invariant
            k <= lines@.len(),
            ls == char_views(lines@),
            ls == lines_of(content@),
            trimmed@.len() == lines@.len(),
            forall|j: int| 0 <= j < lines@.len() ==> (#[trigger] trimmed@[j])@ == trim_start(ls[j]),
            caps@.len() == lines@.len(),
            forall|j: int| 0 <= j < lines@.len() ==> views(#[trigger] caps@[j]@) == inline_tag_captures(trimmed@[j]@),
            tags_fold(ls.take(k as int)) == (fence, views(tags@)),
        decreases lines.len() - k,
    {
        proof {
            let pre = ls.take(k + 1);
            assert(pre.drop_last() =~= ls.take(k as int));
            assert(pre.last() == ls[k as int]);
        }
        let t = trimmed[k].as_slice();
        if crate::text::processing::fence_line_chars(t) {
            fence = !fence;
        } else if !fence && !crate::text::processing::heading_line_chars(t) {
            let cleaned = clean_captured_tags(caps[k].as_slice());
            let ghost start = views(tags@);
            let mut c: usize = 0;
            while c < cleaned.len()
                invariant
                    c <= cleaned@.len(),
                    views(tags@) == start + views(cleaned@).take(c as int),
                decreases cleaned.len() - c,
            {
                let ghost before = tags@;
                let tag = cleaned[c].clone();
                tags.push(tag);
                proof {
                    assert(views(tags@) =~= views(before).push(tag@));
                    assert(views(cleaned@).take(c + 1) =~= views(cleaned@).take(c as int).push(cleaned@[c as int]@));
                }
                c += 1;
            }
            proof {
                assert(views(cleaned@).take(cleaned@.len() as int) =~= views(cleaned@));
            }
        }
        k += 1;
    }
    proof {
        assert(ls.take(lines@.len() as int) =~= ls);
    }
    tags
}

/// A fence line: after its leading whitespace, a run of three or more
/// backticks or tildes.
pub open spec fn is_fence_line(l: Seq<char>) -> bool {
    fence_match(trim_start(l))
}

proof fn lemma_tags_fold_congruent(x: Seq<Seq<char>>, y: Seq<Seq<char>>, z: Seq<Seq<char>>)
    requires
        tags_fold(x) == tags_fold(y),
    ensures
        tags_fold(x + z) == tags_fold(y + z),
    decreases z.len(),
{
    if z.len() == 0 {
        assert(x + z =~= x);
        assert(y + z =~= y);
    } else {
        let zp = z.drop_last();
        lemma_tags_fold_congruent(x, y, zp);
        assert((x + z).drop_last() =~= x + zp);
        assert((y + z).drop_last() =~= y + zp);
        assert((x + z).last() == z.last());
        assert((y + z).last() == z.last());
    }
}

proof fn lemma_tags_fold_inside_fence(a: Seq<Seq<char>>, m: Seq<Seq<char>>)
    requires
        tags_fold(a).0,
        forall|i: int| 0 <= i < m.len() ==> !is_fence_line(#[trigger] m[i]),
    ensures
        tags_fold(a + m) == tags_fold(a),
    decreases m.len(),
{
    if m.len() == 0 {
        assert(a + m =~= a);
    } else {
        let mp = m.drop_last();
        assert forall|i: int| 0 <= i < mp.len() implies !is_fence_line(#[trigger] mp[i]) by {
            assert(mp[i] == m[i]);
        }
        lemma_tags_fold_inside_fence(a, mp);
        assert((a + m).drop_last() =~= a + mp);
        assert((a + m).last() == m[m.len() - 1]);
    }
}

/// Fenced code holds no tags: the lines of a body, with a fenced block
/// (an opening fence line, lines that are not fence lines, a closing fence
/// line) standing where no fence is open, give the same tags, and leave the
/// same fence state, as the same lines with that block removed.
pub proof fn lemma_fenced_block_has_no_tags(
    before: Seq<Seq<char>>,
    opening: Seq<char>,
    inside: Seq<Seq<char>>,
    closing: Seq<char>,
    after: Seq<Seq<char>>,
)
    requires
        !tags_fold(before).0,
        is_fence_line(opening),
        is_fence_line(closing),
        forall|i: int| 0 <= i < inside.len() ==> !is_fence_line(#[trigger] inside[i]),
    ensures
        tags_fold(before + seq![opening] + inside + seq![closing] + after) == tags_fold(before + after),
{
    let a = before.push(opening);
    assert(a.drop_last() =~= before);
    assert(tags_fold(a) == (true, tags_fold(before).1));
    lemma_tags_fold_inside_fence(a, inside);
    let b = (a + inside).push(closing);
    assert(b.drop_last() =~= a + inside);
    assert(tags_fold(b) == tags_fold(before));
    assert(before + seq![opening] + inside + seq![closing] =~= b);
    lemma_tags_fold_congruent(b, before, after);
    assert(before + seq![opening] + inside + seq![closing] + after =~= b + after);
}

} // verus!
