//! DOM-matchable text builder for match anchors.
//!
//! Strips Markdown syntax to produce the text that `textContent` would return
//! from a rendered Obsidian block, so that the string can be matched against
//! the rendered DOM.

use vstd::prelude::*;

use crate::text::unicode::{
    char_views, chars_of, copy_from, copy_range, index_of, join, join_chars, lead_count,
    lemma_char_views_push, lemma_index_of, lemma_index_of_bounds, lemma_lead_count, line_chars,
    lines_of, split_words, string_of, trim, trim_chars, words,
};

verus! {

/// Maximum number of characters in a match text.
pub const MATCH_TEXT_MAX_CHARS: usize = 80;

// ── Specification ────────────────────────────────────────────────────────────

/// What follows the first `e` in `s`; empty when there is no `e`.
pub open spec fn after(s: Seq<char>, e: char) -> Seq<char> {
    let k = index_of(s, e);
    if k < s.len() {
        s.skip(k as int + 1)
    } else {
        seq![]
    }
}

/// What precedes the first `e` in `s`; all of `s` when there is no `e`.
pub open spec fn before(s: Seq<char>, e: char) -> Seq<char> {
    s.take(index_of(s, e) as int)
}

/// Index of the first `ee` pair in `s`, or `s.len()` when there is none.
pub open spec fn index_of_pair(s: Seq<char>, e: char) -> nat
    decreases s.len(),
{
    if s.len() < 2 {
        s.len()
    } else if s[0] == e && s[1] == e {
        0
    } else {
        1 + index_of_pair(s.drop_first(), e)
    }
}

/// What follows the first `ee` pair in `s`; empty when there is none.
pub open spec fn after_pair(s: Seq<char>, e: char) -> Seq<char> {
    let k = index_of_pair(s, e);
    if k + 2 <= s.len() {
        s.skip(k as int + 2)
    } else {
        seq![]
    }
}

/// The text a wikilink body shows: the alias after the first `|`, trimmed,
/// or the whole body when there is no alias.
pub open spec fn link_display(inner: Seq<char>) -> Seq<char> {
    let p = index_of(inner, '|');
    if p < inner.len() {
        trim(inner.skip(p as int + 1))
    } else {
        inner
    }
}

/// How many further backticks open an inline code span after the first one.
pub open spec fn open_ticks(r: Seq<char>) -> nat {
    if r.len() > 0 && r[0] == '`' {
        if r.len() > 1 && r[1] == '`' {
            2
        } else {
            1
        }
    } else {
        0
    }
}

/// `t` with up to `m` leading backticks removed.
pub open spec fn drop_ticks(t: Seq<char>, m: nat) -> Seq<char> {
    if m >= 1 && t.len() >= 1 && t[0] == '`' {
        if m >= 2 && t.len() >= 2 && t[1] == '`' {
            t.skip(2)
        } else {
            t.skip(1)
        }
    } else {
        t
    }
}

/// One step of the inline scanner on a non-empty `s`: the text it emits and
/// what remains to be scanned.
///
/// - `<…>` (an HTML tag) emits nothing;
/// - `![[…]]` (an embed) and `![alt](url)` (an image) emit nothing;
/// - `[[body]]` emits the link's display text, `[^…]` (a footnote) nothing,
///   and `[text](url)` its text;
/// - `*`, `**`, `_`, `__` emit nothing;
/// - `` `code` `` (with one to three backticks) emits the code;
/// - any other character is emitted as is.
pub open spec fn step(s: Seq<char>) -> (Seq<char>, Seq<char>) {
    let c = s[0];
    let r = s.drop_first();
    if c == '<' {
        (seq![], after(r, '>'))
    } else if c == '!' {
        if r.len() > 0 && r[0] == '[' {
            let r2 = r.drop_first();
            if r2.len() > 0 && r2[0] == '[' {
                (seq![], after_pair(r2.drop_first(), ']'))
            } else {
                let r3 = after(r2, ']');
                if r3.len() > 0 && r3[0] == '(' {
                    (seq![], after(r3.drop_first(), ')'))
                } else {
                    (seq![], r3)
                }
            }
        } else {
            (seq!['!'], r)
        }
    } else if c == '[' {
        if r.len() > 0 && r[0] == '[' {
            let b = r.drop_first();
            (link_display(b.take(index_of_pair(b, ']') as int)), after_pair(b, ']'))
        } else if r.len() > 0 && r[0] == '^' {
            (seq![], after(r, ']'))
        } else {
            let r3 = after(r, ']');
            if r3.len() > 0 && r3[0] == '(' {
                (before(r, ']'), after(r3.drop_first(), ')'))
            } else {
                (before(r, ']'), r3)
            }
        }
    } else if c == '*' || c == '_' {
        if r.len() > 0 && r[0] == c {
            (seq![], r.drop_first())
        } else {
            (seq![], r)
        }
    } else if c == '`' {
        let m = open_ticks(r);
        let b = r.skip(m as int);
        (before(b, '`'), drop_ticks(after(b, '`'), m))
    } else {
        (seq![c], r)
    }
}

/// The text emitted by scanning all of `s`, step by step.
pub open spec fn scan(s: Seq<char>) -> Seq<char>
    decreases s.len(),
{
    if s.len() == 0 {
        seq![]
    } else {
        let (p, rest) = step(s);
        if rest.len() < s.len() {
            p + scan(rest)
        } else {
            p
        }
    }
}

/// `s` without a leading blockquote marker `>` (and the whitespace after it).
pub open spec fn unquote_block(s: Seq<char>) -> Seq<char> {
    if s.len() > 0 && s[0] == '>' {
        trim(s.drop_first())
    } else {
        s
    }
}

/// An ASCII digit.
pub open spec fn ascii_digit() -> spec_fn(char) -> bool {
    |c: char| '0' <= c && c <= '9'
}

/// `s` without a list marker: `- `, `* `, `+ `, or digits followed by `. `.
pub open spec fn list_stripped(s: Seq<char>) -> Seq<char> {
    if s.len() >= 2 && (s[0] == '-' || s[0] == '*' || s[0] == '+') && s[1] == ' ' {
        s.skip(2)
    } else {
        let d = lead_count(s, ascii_digit());
        if d > 0 && d + 2 <= s.len() && s[d as int] == '.' && s[d as int + 1] == ' ' {
            s.skip(d as int + 2)
        } else {
            s
        }
    }
}

/// `s` without a task checkbox: `[`, one ASCII character other than `]`,
/// then `] `.
pub open spec fn task_stripped(s: Seq<char>) -> Seq<char> {
    if s.len() >= 4 && s[0] == '[' && (s[1] as u32) < 128 && s[1] != ']' && s[2] == ']' && s[3] == ' ' {
        s.skip(4)
    } else {
        s
    }
}

/// The text of one line once its inline Markdown is stripped, with runs of
/// whitespace collapsed to single spaces.
pub open spec fn inline_text(line: Seq<char>) -> Seq<char> {
    join(words(scan(task_stripped(list_stripped(unquote_block(trim(line)))))), seq![' '])
}

/// A line (already trimmed) that opens or closes a fenced code block.
pub open spec fn fence_marker(t: Seq<char>) -> bool {
    t.len() >= 3 && ((t[0] == '`' && t[1] == '`' && t[2] == '`') || (t[0] == '~' && t[1] == '~'
        && t[2] == '~'))
}

/// A line (already trimmed) that holds only a callout header `> [!type]`.
pub open spec fn callout_line(t: Seq<char>) -> bool {
    t.len() > 0 && t[0] == '>' && {
        let u = trim(t.drop_first());
        u.len() >= 2 && u[0] == '[' && u[1] == '!'
    }
}

/// Whether a line is dropped: a heading line or a callout header.
pub open spec fn skipped_line(t: Seq<char>) -> bool {
    (t.len() > 0 && t[0] == '#') || callout_line(t)
}

/// Runs over the lines: whether a fence is open after them, and the texts of
/// the kept lines.
pub open spec fn match_fold(lines: Seq<Seq<char>>) -> (bool, Seq<Seq<char>>)
    decreases lines.len(),
{
    if lines.len() == 0 {
        (false, seq![])
    } else {
        let (fence, parts) = match_fold(lines.drop_last());
        let line = lines.last();
        let t = trim(line);
        if fence_marker(t) {
            (!fence, parts)
        } else if fence || skipped_line(t) || inline_text(line).len() == 0 {
            (fence, parts)
        } else {
            (fence, parts.push(inline_text(line)))
        }
    }
}

/// The match text of `text`: the kept line texts joined by single spaces,
/// cut to its first [`MATCH_TEXT_MAX_CHARS`] characters.
pub open spec fn match_text(text: Seq<char>) -> Seq<char> {
    let all = join(match_fold(lines_of(text)).1, seq![' ']);
    if all.len() <= MATCH_TEXT_MAX_CHARS {
        all
    } else {
        all.take(MATCH_TEXT_MAX_CHARS as int)
    }
}

// ── Scanning helpers ─────────────────────────────────────────────────────────

/// The index of the first `c` at or after `from`, or `v.len()`.
pub(crate) fn find_from(v: &[char], from: usize, c: char) -> (k: usize)
    requires
        from <= v@.len(),
    ensures
        from <= k <= v@.len(),
        k == from + index_of(v@.skip(from as int), c),
        k < v@.len() ==> v@[k as int] == c,
        before(v@.skip(from as int), c) == v@.subrange(from as int, k as int),
        after(v@.skip(from as int), c) == v@.skip(if k < v@.len() { k + 1 } else { k as int }),
{
    let ghost s = v@.skip(from as int);
    let mut k = from;
    while k < v.len() && v[k] != c
        invariant
            from <= k <= v@.len(),
            forall|j: int| from <= j < k ==> #[trigger] v@[j] != c,
        decreases v.len() - k,
    {
        k += 1;
    }
    proof {
        assert forall|j: int| 0 <= j < k - from implies #[trigger] s[j] != c by {
            assert(s[j] == v@[j + from]);
        }
        if k < v.len() {
            assert(s[k - from] == v@[k as int]);
            assert(s.skip(k - from + 1) =~= v@.skip(k + 1));
        } else {
            assert(v@.skip(k as int) =~= Seq::<char>::empty());
        }
        lemma_index_of(s, c, k - from);
        assert(s.take(k - from) =~= v@.subrange(from as int, k as int));
    }
    k
}

proof fn lemma_index_of_pair(s: Seq<char>, e: char, k: int)
    requires
        0 <= k <= s.len(),
        forall|j: int| 0 <= j < k && j + 1 < s.len() ==> !(#[trigger] s[j] == e && s[j + 1] == e),
        k == s.len() || (k + 1 < s.len() && s[k] == e && s[k + 1] == e),
    ensures
        index_of_pair(s, e) == k,
    decreases k,
{
    if k > 0 && s.len() >= 2 {
        assert(!(s[0] == e && s[1] == e));
        let t = s.drop_first();
        assert forall|j: int| 0 <= j < k - 1 && j + 1 < t.len() implies !(#[trigger] t[j] == e && t[j
            + 1] == e) by {
            assert(t[j] == s[j + 1]);
            assert(t[j + 1] == s[j + 2]);
        }
        if k < s.len() {
            assert(t[k - 1] == s[k]);
            assert(t[k] == s[k + 1]);
        }
        lemma_index_of_pair(t, e, k - 1);
    }
}

/// The index of the first `ee` pair at or after `from`, or `v.len()`.
fn find_pair_from(v: &[char], from: usize, e: char) -> (k: usize)
    requires
        from <= v@.len(),
    ensures
        from <= k <= v@.len(),
        v@.skip(from as int).take(index_of_pair(v@.skip(from as int), e) as int) == v@.subrange(
            from as int,
            k as int,
        ),
        after_pair(v@.skip(from as int), e) == v@.skip(if k < v@.len() { k + 2 } else { k as int }),
        k < v@.len() ==> k + 2 <= v@.len(),
{
    let ghost s = v@.skip(from as int);
    let n = v.len();
    let mut k = from;
    while k < n && !(v[k] == e && k + 1 < n && v[k + 1] == e)
        invariant
            from <= k <= n == v@.len(),
            forall|j: int| from <= j < k && j + 1 < n ==> !(#[trigger] v@[j] == e && v@[j + 1] == e),
        decreases n - k,
    {
        k += 1;
    }
    proof {
        assert forall|j: int| 0 <= j < k - from && j + 1 < s.len() implies !(#[trigger] s[j] == e
            && s[j + 1] == e) by {
            assert(s[j] == v@[j + from]);
            assert(s[j + 1] == v@[j + 1 + from]);
        }
        if k < n {
            assert(s[k - from] == v@[k as int]);
            assert(s[k - from + 1] == v@[k + 1]);
        }
        lemma_index_of_pair(s, e, k - from);
        assert(index_of_pair(s, e) == k - from);
        if k < n {
            assert(s.skip(k - from + 2) =~= v@.skip(k + 2));
        } else {
            assert(v@.skip(k as int) =~= Seq::<char>::empty());
        }
        assert(s.take(k - from) =~= v@.subrange(from as int, k as int));
    }
    k
}

/// The display text of a wikilink body.
fn display_of(inner: &[char]) -> (r: Vec<char>)
    ensures
        r@ == link_display(inner@),
{
    let p = find_from(inner, 0, '|');
    proof {
        assert(inner@.skip(0) =~= inner@);
        lemma_index_of_bounds(inner@, '|');
    }
    if p < inner.len() {
        let alias = copy_from(inner, p + 1);
        trim_chars(alias.as_slice())
    } else {
        copy_range(inner, 0, inner.len())
    }
}

/// A scanner step at a `!`: an embed, an image, or the `!` itself.
fn step_bang(cs: &[char], i: usize, out: &mut Vec<char>) -> (j: usize)
    requires
        i < cs@.len(),
        cs@[i as int] == '!',
    ensures
        i < j <= cs@.len(),
        final(out)@ == old(out)@ + step(cs@.skip(i as int)).0,
        step(cs@.skip(i as int)).1 == cs@.skip(j as int),
{
    let n = cs.len();
    let c = cs[i];
    let ghost s = cs@.skip(i as int);
    let ghost r = s.drop_first();
    proof {
        assert(r =~= cs@.skip(i + 1));
        assert(s[0] == c);
    }
    if i + 1 < n && cs[i + 1] == '[' {
        let ghost r2 = r.drop_first();
        proof {
            assert(r[0] == cs@[i + 1]);
            assert(r2 =~= cs@.skip(i + 2));
        }
        if i + 2 < n && cs[i + 2] == '[' {
            proof {
                assert(r2[0] == cs@[i + 2]);
                assert(r2.drop_first() =~= cs@.skip(i + 3));
            }
            let k = find_pair_from(cs, i + 3, ']');
            return if k < n { k + 2 } else { k };
        }
        proof {
            if i + 2 < n {
                assert(r2[0] == cs@[i + 2]);
            }
        }
        let k = find_from(cs, i + 2, ']');
        let m = if k < n { k + 1 } else { k };
        if m < n && cs[m] == '(' {
            proof {
                assert(cs@.skip(m as int)[0] == cs@[m as int]);
                assert(cs@.skip(m as int).drop_first() =~= cs@.skip(m + 1));
            }
            let k2 = find_from(cs, m + 1, ')');
            return if k2 < n { k2 + 1 } else { k2 };
        }
        proof {
            if m < n {
                assert(cs@.skip(m as int)[0] == cs@[m as int]);
            }
        }
        return m;
    }
    proof {
        if i + 1 < n {
            assert(r[0] == cs@[i + 1]);
        }
    }
    out.push('!');
    return i + 1;
}

/// A scanner step at a `[`: a wikilink, a footnote reference or an inline link.
fn step_bracket(cs: &[char], i: usize, out: &mut Vec<char>) -> (j: usize)
    requires
        i < cs@.len(),
        cs@[i as int] == '[',
    ensures
        i < j <= cs@.len(),
        final(out)@ == old(out)@ + step(cs@.skip(i as int)).0,
        step(cs@.skip(i as int)).1 == cs@.skip(j as int),
{
    let n = cs.len();
    let c = cs[i];
    let ghost s = cs@.skip(i as int);
    let ghost r = s.drop_first();
    proof {
        assert(r =~= cs@.skip(i + 1));
        assert(s[0] == c);
    }
    if i + 1 < n && cs[i + 1] == '[' {
        let ghost b = r.drop_first();
        proof {
            assert(r[0] == cs@[i + 1]);
            assert(b =~= cs@.skip(i + 2));
        }
        let k = find_pair_from(cs, i + 2, ']');
        let inner = copy_range(cs, i + 2, k);
        let shown = display_of(inner.as_slice());
        let ghost before_out = out@;
        crate::text::unicode::push_all(out, shown.as_slice());
        return if k < n { k + 2 } else { k };
    }
    if i + 1 < n && cs[i + 1] == '^' {
        proof {
            assert(r[0] == cs@[i + 1]);
        }
        let k = find_from(cs, i + 1, ']');
        return if k < n { k + 1 } else { k };
    }
    proof {
        if i + 1 < n {
            assert(r[0] == cs@[i + 1]);
        }
    }
    let k = find_from(cs, i + 1, ']');
    let text = copy_range(cs, i + 1, k);
    crate::text::unicode::push_all(out, text.as_slice());
    let m = if k < n { k + 1 } else { k };
    if m < n && cs[m] == '(' {
        proof {
            assert(cs@.skip(m as int)[0] == cs@[m as int]);
            assert(cs@.skip(m as int).drop_first() =~= cs@.skip(m + 1));
        }
        let k2 = find_from(cs, m + 1, ')');
        return if k2 < n { k2 + 1 } else { k2 };
    }
    proof {
        if m < n {
            assert(cs@.skip(m as int)[0] == cs@[m as int]);
        }
    }
    return m;
}

/// A scanner step at a backtick: an inline code span.
fn step_code(cs: &[char], i: usize, out: &mut Vec<char>) -> (j: usize)
    requires
        i < cs@.len(),
        cs@[i as int] == '`',
    ensures
        i < j <= cs@.len(),
        final(out)@ == old(out)@ + step(cs@.skip(i as int)).0,
        step(cs@.skip(i as int)).1 == cs@.skip(j as int),
{
    let n = cs.len();
    let c = cs[i];
    let ghost s = cs@.skip(i as int);
    let ghost r = s.drop_first();
    proof {
        assert(r =~= cs@.skip(i + 1));
        assert(s[0] == c);
    }
    let mut m: usize = 0;
    if i + 1 < n && cs[i + 1] == '`' {
        if i + 2 < n && cs[i + 2] == '`' {
            m = 2;
        } else {
            m = 1;
        }
    }
    proof {
        if i + 1 < n {
            assert(r[0] == cs@[i + 1]);
        }
        if i + 2 < n {
            assert(r[1] == cs@[i + 2]);
        }
        assert(m == open_ticks(r));
        assert(r.skip(m as int) =~= cs@.skip(i + 1 + m));
    }
    let start = i + 1 + m;
    let k = find_from(cs, start, '`');
    let code = copy_range(cs, start, k);
    crate::text::unicode::push_all(out, code.as_slice());
    let mut e = if k < n { k + 1 } else { k };
    let ghost t = cs@.skip(e as int);
    if m >= 1 && e < n && cs[e] == '`' {
        if m >= 2 && e + 1 < n && cs[e + 1] == '`' {
            e = e + 2;
        } else {
            e = e + 1;
        }
    }
    proof {
        if k < n && (k + 1) < n {
            assert(t[0] == cs@[k + 1]);
        }
        if k < n && (k + 2) < n {
            assert(t[1] == cs@[k + 2]);
        }
        assert(drop_ticks(t, m as nat) =~= cs@.skip(e as int));
    }
    return e;
}

/// One scanner step at `cs[i]`: appends what [`step`] emits to `out` and
/// returns where the rest starts.
fn scan_step(cs: &[char], i: usize, out: &mut Vec<char>) -> (j: usize)
    requires
        i < cs@.len(),
    ensures
        i < j <= cs@.len(),
        final(out)@ == old(out)@ + step(cs@.skip(i as int)).0,
        step(cs@.skip(i as int)).1 == cs@.skip(j as int),
{
    let n = cs.len();
    let c = cs[i];
    let ghost s = cs@.skip(i as int);
    let ghost r = s.drop_first();
    proof {
        assert(r =~= cs@.skip(i + 1));
        assert(s[0] == c);
    }
    if c == '<' {
        let k = find_from(cs, i + 1, '>');
        return if k < n { k + 1 } else { k };
    }
    if c == '!' {
        return step_bang(cs, i, out);
    }
    if c == '[' {
        return step_bracket(cs, i, out);
    }
    if c == '`' {
        return step_code(cs, i, out);
    }
    if c == '*' || c == '_' {
        if i + 1 < n && cs[i + 1] == c {
            proof {
                assert(r[0] == cs@[i + 1]);
                assert(r.drop_first() =~= cs@.skip(i + 2));
            }
            return i + 2;
        }
        proof {
            if i + 1 < n {
                assert(r[0] == cs@[i + 1]);
            }
        }
        return i + 1;
    }
    out.push(c);
    i + 1
}

/// The text emitted by scanning all of `cs`.
fn scan_chars(cs: &[char]) -> (out: Vec<char>)
    ensures
        out@ == scan(cs@),
{
    let n = cs.len();
    let mut out: Vec<char> = Vec::new();
    let mut i: usize = 0;
    proof {
        assert(cs@.skip(0) =~= cs@);
    }
    while i < n
        invariant
            n == cs@.len(),
            i <= n,
            out@ + scan(cs@.skip(i as int)) == scan(cs@),
        decreases n - i,
    {
        let ghost s = cs@.skip(i as int);
        let ghost before_out = out@;
        let j = scan_step(cs, i, &mut out);
        proof {
            assert(step(s).1.len() < s.len());
            assert(scan(s) == step(s).0 + scan(step(s).1));
            assert(out@ + scan(cs@.skip(j as int)) =~= before_out + scan(s));
        }
        i = j;
    }
    proof {
        assert(cs@.skip(n as int) =~= Seq::<char>::empty());
        assert(out@ + scan(cs@.skip(n as int)) =~= out@);
    }
    out
}

/// `s` without a list marker.
fn strip_list_marker(s: &[char]) -> (r: Vec<char>)
    ensures
        r@ == list_stripped(s@),
{
    if s.len() >= 2 && (s[0] == '-' || s[0] == '*' || s[0] == '+') && s[1] == ' ' {
        return copy_from(s, 2);
    }
    let mut d: usize = 0;
    while d < s.len() && '0' <= s[d] && s[d] <= '9'
        invariant
            d <= s@.len(),
            forall|j: int| 0 <= j < d ==> (ascii_digit())(#[trigger] s@[j]),
        decreases s.len() - d,
    {
        d += 1;
    }
    proof {
        lemma_lead_count(s@, ascii_digit(), d as int);
    }
    if d > 0 && s.len() - d >= 2 && s[d] == '.' && s[d + 1] == ' ' {
        copy_from(s, d + 2)
    } else {
        copy_from(s, 0)
    }
}

/// `s` without a task checkbox.
fn strip_task_checkbox(s: &[char]) -> (r: Vec<char>)
    ensures
        r@ == task_stripped(s@),
{
    if s.len() >= 4 && s[0] == '[' && (s[1] as u32) < 128 && s[1] != ']' && s[2] == ']' && s[3]
        == ' ' {
        copy_from(s, 4)
    } else {
        copy_from(s, 0)
    }
}

/// Strips inline Markdown syntax from a single line.
fn strip_inline(line: &[char]) -> (r: Vec<char>)
    ensures
        r@ == inline_text(line@),
{
    let t = trim_chars(line);
    let u = if t.len() > 0 && t[0] == '>' {
        let rest = copy_from(t.as_slice(), 1);
        proof {
            assert(rest@ =~= t@.drop_first());
        }
        trim_chars(rest.as_slice())
    } else {
        t
    };
    let l = strip_list_marker(u.as_slice());
    let k = strip_task_checkbox(l.as_slice());
    let scanned = scan_chars(k.as_slice());
    let ws = split_words(scanned.as_slice());
    let sep = vec![' '];
    proof {
        assert(sep@ =~= seq![' ']);
    }
    join_chars(ws.as_slice(), sep.as_slice())
}

/// Whether a trimmed line opens or closes a fence.
fn is_fence_marker(t: &[char]) -> (b: bool)
    ensures
        b == fence_marker(t@),
{
    t.len() >= 3 && ((t[0] == '`' && t[1] == '`' && t[2] == '`') || (t[0] == '~' && t[1] == '~'
        && t[2] == '~'))
}

/// Whether a trimmed line is a heading or a callout header.
fn is_skipped_line(t: &[char]) -> (b: bool)
    ensures
        b == skipped_line(t@),
{
    if t.len() > 0 && t[0] == '#' {
        return true;
    }
    if t.len() > 0 && t[0] == '>' {
        let rest = copy_from(t, 1);
        let u = trim_chars(rest.as_slice());
        proof {
            assert(rest@ =~= t@.drop_first());
        }
        return u.len() >= 2 && u[0] == '[' && u[1] == '!';
    }
    false
}

/// Returns the first 80 characters of `text` after stripping Markdown syntax
/// so that downstream consumers can match the string against a rendered DOM.
///
/// Drops heading lines, fenced code blocks and callout headers; strips HTML
/// tags, footnote references, embeds and images; resolves wikilinks to their
/// alias or target and inline links to their text; drops bold/italic markers,
/// keeps inline code, and strips list markers and task checkboxes.
pub fn build_match_text(text: &str) -> (r: String)
    ensures
        r@ == match_text(text@),
        r@.len() <= MATCH_TEXT_MAX_CHARS,
{
    let cs = chars_of(text);
    let lines = line_chars(cs.as_slice());
    let ghost ls = char_views(lines@);
    let mut parts: Vec<Vec<char>> = Vec::new();
    let mut fence = false;
    let mut i: usize = 0;
    while i < lines.len()
        invariant
            i <= lines@.len(),
            ls == char_views(lines@),
            ls == lines_of(cs@),
            match_fold(ls.take(i as int)) == (fence, char_views(parts@)),
        decreases lines.len() - i,
    {
        let line = lines[i].as_slice();
        proof {
            let pre = ls.take(i + 1);
            assert(pre.drop_last() =~= ls.take(i as int));
            assert(pre.last() == line@);
        }
        let t = trim_chars(line);
        if is_fence_marker(t.as_slice()) {
            fence = !fence;
        } else if !fence && !is_skipped_line(t.as_slice()) {
            let c = strip_inline(line);
            if c.len() > 0 {
                let ghost before_parts = parts@;
                parts.push(c);
                proof {
                    lemma_char_views_push(before_parts, c);
                }
            }
        }
        i += 1;
    }
    proof {
        assert(ls.take(lines@.len() as int) =~= ls);
    }
    let sep = vec![' '];
    proof {
        assert(sep@ =~= seq![' ']);
    }
    let all = join_chars(parts.as_slice(), sep.as_slice());
    if all.len() <= MATCH_TEXT_MAX_CHARS {
        string_of(all.as_slice())
    } else {
        let cut = copy_range(all.as_slice(), 0, MATCH_TEXT_MAX_CHARS);
        proof {
            assert(cut@ =~= all@.take(MATCH_TEXT_MAX_CHARS as int));
        }
        string_of(cut.as_slice())
    }
}

} // verus!
