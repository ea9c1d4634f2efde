//! Text utilities for markdown parsing and chunking.
//!
//! Line splitting, fence/heading detection, token estimation, wikilink parsing,
//! and keyword/path normalization.

use vstd::prelude::*;

use super::unicode::{
    all_ascii,
    byte_len, chars_of, contains_from, count_lead_char, count_trail_char, index_of, is_ws,
    is_whitespace, lead_char, lead_ws, lemma_byte_len_prefix, lemma_byte_len_take,
    lemma_encode_append, lemma_index_of, len_utf8, nfd, lowercase, str_byte_len, string_of,
    string_range, to_lowercase, to_nfd, trail_char, trim, trim_bounds, trim_chars, trim_start,
};
pub use super::processing_wikilink::{ParsedWikiLink, parse_wikilink, strip_outer_quotes};

verus! {

/// Token-to-character ratio for rough token estimation.
pub const TOKEN_CHAR_RATIO: u8 = 4;

/// Length of a line feed character.
const LF_LENGTH: usize = 1;

/// A line span within the source content.
#[derive(Debug, Clone, PartialEq, Eq)]
pub struct LineSpan {
    /// Number of bytes consumed by the line break (0 for last line).
    pub break_length: usize,
    /// Byte offset where the line ends (exclusive).
    pub end: usize,
    /// 1-indexed line number.
    pub line_number: u32,
    /// Byte offset where the line starts (inclusive).
    pub start: usize,
    /// The line text (without the line break).
    pub text: String,
}

/// Mathematical content of a [`LineSpan`].
pub ghost struct LineModel {
    pub break_length: nat,
    pub end: nat,
    pub line_number: nat,
    pub start: nat,
    pub text: Seq<char>,
}

impl LineSpan {
    pub open spec fn model(&self) -> LineModel {
        LineModel {
            break_length: self.break_length as nat,
            end: self.end as nat,
            line_number: self.line_number as nat,
            start: self.start as nat,
            text: self.text@,
        }
    }
}

/// The spans of `s`, whose first byte sits at offset `start` of the whole
/// content and whose first line has number `line_no`. Lines are separated by
/// `'\n'`; the last line has no break, and a final `'\n'` opens no new line.
pub open spec fn line_spans(s: Seq<char>, start: nat, line_no: nat) -> Seq<LineModel>
    decreases s.len(),
{
    if s.len() == 0 {
        seq![]
    } else {
        let k = index_of(s, '\n');
        if k >= s.len() {
            seq![LineModel { break_length: 0, end: start + byte_len(s), line_number: line_no, start, text: s }]
        } else {
            seq![
                LineModel {
                    break_length: 1,
                    end: start + byte_len(s.take(k as int)),
                    line_number: line_no,
                    start,
                    text: s.take(k as int),
                },
            ] + line_spans(s.skip(k as int + 1), start + byte_len(s.take(k as int)) + 1, line_no + 1)
        }
    }
}

/// The number of `'\n'` characters in `s`.
pub open spec fn newline_count(s: Seq<char>) -> nat
    decreases s.len(),
{
    if s.len() == 0 {
        0
    } else {
        newline_count(s.drop_last()) + if s.last() == '\n' {
            1nat
        } else {
            0nat
        }
    }
}

proof fn lemma_newline_count_step(s: Seq<char>, j: int)
    requires
        0 <= j < s.len(),
    ensures
        newline_count(s.take(j + 1)) == newline_count(s.take(j)) + if s[j] == '\n' {
            1nat
        } else {
            0nat
        },
{
    assert(s.take(j + 1).drop_last() =~= s.take(j));
}

proof fn lemma_newline_count_prefix(s: Seq<char>, j: int)
    requires
        0 <= j <= s.len(),
    ensures
        newline_count(s.take(j)) <= newline_count(s),
    decreases s.len() - j,
{
    if j < s.len() {
        lemma_newline_count_step(s, j);
        lemma_newline_count_prefix(s, j + 1);
    } else {
        assert(s.take(j) =~= s);
    }
}

/// Splits markdown content into line spans.
///
/// Handles both LF and CRLF line endings (a `'\r'` stays in the text). The
/// last line (no trailing newline) gets `break_length = 0` and
/// `end = content.len()`.
pub fn split_lines(content: &str) -> (lines: Vec<LineSpan>)
    requires
        newline_count(content@) < u32::MAX,
    ensures
        lines@.len() == line_spans(content@, 0, 1).len(),
        forall|i: int| 0 <= i < lines@.len() ==> #[trigger] lines@[i].model() == line_spans(content@, 0, 1)[i],
{
    let cs = chars_of(content);
    let n = cs.len();
    let total = str_byte_len(content);
    let ghost whole = cs@;
    let mut lines: Vec<LineSpan> = Vec::new();
    let mut i: usize = 0;
    let mut b: usize = 0;
    let mut no: u32 = 1;
    proof {
        assert(whole.skip(0) =~= whole);
        assert(whole.take(0) =~= Seq::<char>::empty());
        lemma_byte_len_empty();
    }
    while i < n
        invariant
            whole == cs@,
            whole == content@,
            n == whole.len(),
            total == byte_len(whole),
            i <= n,
            b == byte_len(whole.take(i as int)),
            i < n ==> no as int == newline_count(whole.take(i as int)) + 1,
            newline_count(whole) < u32::MAX,
            lines@.map_values(|l: LineSpan| l.model()) + line_spans(whole.skip(i as int), b as nat, no as nat)
                == line_spans(whole, 0, 1),
        decreases n - i,
    {
        let ghost rest = whole.skip(i as int);
        let mut j = i;
        let mut e = b;
        while j < n && cs[j] != '\n'
            invariant
                whole == cs@,
                n == whole.len(),
                total == byte_len(whole),
                i <= j <= n,
                e == byte_len(whole.take(j as int)),
                forall|t: int| i <= t < j ==> #[trigger] whole[t] != '\n',
                newline_count(whole.take(j as int)) == newline_count(whole.take(i as int)),
            decreases n - j,
        {
            proof {
                lemma_newline_count_step(whole, j as int);
                lemma_byte_len_take(whole, j as int);
                lemma_byte_len_prefix(whole, j + 1);
            }
            e = e + len_utf8(cs[j]);
            j += 1;
        }
        let ghost k = j - i;
        proof {
            assert forall|t: int| 0 <= t < k implies #[trigger] rest[t] != '\n' by {
                assert(rest[t] == whole[t + i]);
            }
            if j < n {
                assert(rest[k] == whole[j as int]);
            }
            lemma_index_of(rest, '\n', k);
            assert(whole.take(j as int) =~= whole.take(i as int) + rest.take(k));
            lemma_encode_append(whole.take(i as int), rest.take(k));
        }
        let text = string_range(cs.as_slice(), i, j);
        let ghost before = lines@;
        if j < n {
            lines.push(LineSpan { break_length: LF_LENGTH, end: e, line_number: no, start: b, text });
            proof {
                lemma_newline_count_step(whole, j as int);
                lemma_newline_count_prefix(whole, j + 1);
                lemma_byte_len_take(whole, j as int);
                lemma_byte_len_prefix(whole, j + 1);
                assert(rest.skip(k + 1) =~= whole.skip(j + 1));
                assert(whole.subrange(i as int, j as int) =~= rest.take(k));
                assert(rest.len() > 0);
                assert(index_of(rest, '\n') == k);
                assert(line_spans(rest, b as nat, no as nat) == seq![
                    LineModel { break_length: 1, end: (b + byte_len(rest.take(k))) as nat, line_number: no as nat, start: b as nat, text: rest.take(k) },
                ] + line_spans(rest.skip(k + 1), (b + byte_len(rest.take(k)) + 1) as nat, (no + 1) as nat));
                assert(lines@.map_values(|l: LineSpan| l.model()) =~= before.map_values(
                    |l: LineSpan| l.model(),
                ).push(lines@[lines@.len() - 1].model()));
                assert(lines@.map_values(|l: LineSpan| l.model()) + line_spans(whole.skip(j + 1), (e + 1) as nat, (no + 1) as nat)
                    =~= before.map_values(|l: LineSpan| l.model()) + line_spans(rest, b as nat, no as nat));
            }
            i = j + 1;
            b = e + 1;
            no = no + 1;
        } else {
            lines.push(LineSpan { break_length: 0, end: e, line_number: no, start: b, text });
            proof {
                assert(rest.take(k) =~= rest);
                assert(whole.subrange(i as int, j as int) =~= rest);
                assert(rest.len() > 0);
                assert(whole.skip(n as int) =~= Seq::<char>::empty());
                assert(lines@.map_values(|l: LineSpan| l.model()) =~= before.map_values(
                    |l: LineSpan| l.model(),
                ).push(lines@[lines@.len() - 1].model()));
                assert(lines@.map_values(|l: LineSpan| l.model()) + line_spans(whole.skip(n as int), e as nat, (no + 1) as nat)
                    =~= before.map_values(|l: LineSpan| l.model()) + line_spans(rest, b as nat, no as nat));
                assert(whole.take(n as int) =~= whole);
            }
            i = n;
            b = e;
        }
    }
    proof {
        assert(whole.skip(n as int) =~= Seq::<char>::empty());
        assert(lines@.map_values(|l: LineSpan| l.model()) =~= line_spans(whole, 0, 1));
        assert forall|t: int| 0 <= t < lines@.len() implies #[trigger] lines@[t].model() == line_spans(content@, 0, 1)[t] by {
            assert(lines@.map_values(|l: LineSpan| l.model())[t] == lines@[t].model());
        }
    }
    lines
}

/// `s` with every `from` replaced by `to`.
pub open spec fn replace_char(s: Seq<char>, from: char, to: char) -> Seq<char> {
    s.map_values(|c: char| if c == from { to } else { c })
}

/// The regular expression ``^(`{3,}|~{3,})\s*.*$`` matched against `t`: a run
/// of at least three backticks or tildes, then whitespace, then a rest that
/// holds no line feed.
pub open spec fn fence_match(t: Seq<char>) -> bool {
    &&& t.len() > 0
    &&& (t[0] == '`' || t[0] == '~')
    &&& lead_char(t, t[0]) >= 3
    &&& !trim_start(t.skip(lead_char(t, t[0]) as int)).contains('\n')
}

/// The regular expression `^#{1,6}\s+(.*)$` matched against `t`: one to six
/// `#`, at least one whitespace character, then a rest with no line feed.
pub open spec fn heading_match(t: Seq<char>) -> bool {
    let l = lead_char(t, '#');
    &&& 1 <= l <= 6
    &&& l < t.len()
    &&& is_ws(t[l as int])
    &&& !trim_start(t.skip(l as int)).contains('\n')
}

/// Whether `t` opens or closes a fenced code block.
pub fn fence_line_chars(t: &[char]) -> (b: bool)
    ensures
        b == fence_match(t@),
{
    if t.len() == 0 || !(t[0] == '`' || t[0] == '~') {
        return false;
    }
    let run = count_lead_char(t, 0, t[0]);
    proof {
        assert(t@.skip(0) =~= t@);
    }
    if run < 3 {
        return false;
    }
    !rest_has_lf(t, run)
}

/// Checks if a line is a fenced code block (3+ backticks or tildes).
pub fn is_fence_line(line: &str) -> (b: bool)
    ensures
        b == fence_match(trim(line@)),
{
    let cs = chars_of(line);
    let t = trim_chars(cs.as_slice());
    fence_line_chars(t.as_slice())
}

/// Whether the rest of `v` after `from`, once leading whitespace is dropped,
/// holds a line feed.
fn rest_has_lf(v: &[char], from: usize) -> (b: bool)
    requires
        from <= v@.len(),
    ensures
        b == trim_start(v@.skip(from as int)).contains('\n'),
{
    let mut i = from;
    while i < v.len() && is_whitespace(v[i])
        invariant
            from <= i <= v@.len(),
            forall|j: int| from <= j < i ==> is_ws(#[trigger] v@[j]),
        decreases v.len() - i,
    {
        i += 1;
    }
    proof {
        let t = v@.skip(from as int);
        assert forall|j: int| 0 <= j < i - from implies is_ws(#[trigger] t[j]) by {
            assert(t[j] == v@[j + from]);
        }
        if i < v@.len() {
            assert(t[i - from] == v@[i as int]);
        }
        super::unicode::lemma_lead_ws(t, i - from);
        assert(t.skip(i - from) =~= v@.skip(i as int));
    }
    contains_from(v, i, '\n')
}

/// Whether `t` is an ATX heading line.
pub fn heading_line_chars(t: &[char]) -> (b: bool)
    ensures
        b == heading_match(t@),
{
    let l = count_lead_char(t, 0, '#');
    proof {
        assert(t@.skip(0) =~= t@);
    }
    if l < 1 || l > 6 || l >= t.len() || !is_whitespace(t[l]) {
        return false;
    }
    !rest_has_lf(t, l)
}

/// Checks if a line is an ATX heading (1-6 hash characters followed by space).
pub fn is_heading_line(line: &str) -> (b: bool)
    ensures
        b == heading_match(trim(line@)),
{
    let cs = chars_of(line);
    let t = trim_chars(cs.as_slice());
    heading_line_chars(t.as_slice())
}

/// The text of a heading line: trimmed, up to six leading `#` removed, then
/// leading whitespace, then every trailing `#`, then surrounding whitespace.
pub open spec fn heading_text(line: Seq<char>) -> Seq<char> {
    let t = trim(line);
    let h = if lead_char(t, '#') < 6 { lead_char(t, '#') } else { 6 };
    let w = trim_start(t.skip(h as int));
    trim(w.take(w.len() - trail_char(w, '#')))
}

/// Strips heading markers from a heading line.
///
/// Removes leading `#` characters (1-6), whitespace, and trailing `#` characters.
pub fn strip_heading_text(line: &str) -> (r: String)
    ensures
        r@ == heading_text(line@),
{
    let cs = chars_of(line);
    let t = trim_chars(cs.as_slice());
    let run = count_lead_char(t.as_slice(), 0, '#');
    proof {
        assert(t@.skip(0) =~= t@);
    }
    let h = if run < 6 { run } else { 6 };
    let rest = super::unicode::copy_range(t.as_slice(), h, t.len());
    let (a, _) = trim_bounds(rest.as_slice());
    let w = super::unicode::copy_range(rest.as_slice(), a, rest.len());
    proof {
        assert(rest@.subrange(a as int, rest@.len() as int) =~= trim_start(rest@));
        assert(rest@ =~= t@.skip(h as int));
    }
    let k = count_trail_char(w.as_slice(), w.len(), '#');
    proof {
        assert(w@.take(w@.len() as int) =~= w@);
    }
    let u = super::unicode::copy_range(w.as_slice(), 0, w.len() - k);
    proof {
        assert(u@ =~= w@.take(w@.len() - k));
    }
    let r = trim_chars(u.as_slice());
    string_of(r.as_slice())
}

/// Estimates the number of tokens in text using a character ratio:
/// `max(1, ceil(text.len() / TOKEN_CHAR_RATIO))`, where `len` counts bytes.
pub fn estimate_tokens(text: &str) -> (n: usize)
    ensures
        n == if text@.len() == 0 { 1 } else { (byte_len(text@) + 3) / 4 },
        n >= 1,
{
    if text.is_empty() {
        return 1;
    }
    let len = str_byte_len(text);
    proof {
        let s = text@;
        assert(s =~= seq![s[0]] + s.drop_first());
        lemma_encode_append(seq![s[0]], s.drop_first());
        super::unicode::lemma_byte_len_single(s[0]);
    }
    let q = len / (TOKEN_CHAR_RATIO as usize);
    let n = if len % (TOKEN_CHAR_RATIO as usize) == 0 { q } else { q + 1 };
    if n < 1 { 1 } else { n }
}

/// Normalizes a keyword for comparison: NFD normalization + lowercase + trim.
pub fn normalize_keyword(value: &str) -> (r: String)
    ensures
        r@ == lowercase(nfd(trim(value@))),
{
    let cs = chars_of(value);
    let t = trim_chars(cs.as_slice());
    let d = to_nfd(t.as_slice());
    let l = to_lowercase(d.as_slice());
    string_of(l.as_slice())
}

/// `v` with every `from` replaced by `to`.
pub fn replace_chars(v: &[char], from: char, to: char) -> (r: Vec<char>)
    ensures
        r@ == replace_char(v@, from, to),
{
    let mut r: Vec<char> = Vec::new();
    let mut i: usize = 0;
    while i < v.len()
        invariant
            i <= v@.len(),
            r@ == replace_char(v@.take(i as int), from, to),
        decreases v.len() - i,
    {
        let c = v[i];
        r.push(if c == from { to } else { c });
        assert(replace_char(v@.take(i + 1), from, to) =~= replace_char(v@.take(i as int), from, to).push(
            if c == from { to } else { c },
        ));
        i += 1;
    }
    assert(v@.take(v@.len() as int) =~= v@);
    r
}

/// Normalizes a vault path: backslashes to forward slashes, NFD normalization.
pub fn normalize_vault_path(value: &str) -> (r: String)
    ensures
        r@ == nfd(replace_char(value@, '\\', '/')),
        !r@.contains('\\'),
        nfd(replace_char(r@, '\\', '/')) == r@,
        all_ascii(value@) ==> r@ == replace_char(value@, '\\', '/'),
{
    let cs = chars_of(value);
    let slashed = replace_chars(cs.as_slice(), '\\', '/');
    let d = to_nfd(slashed.as_slice());
    proof {
        let x = replace_char(value@, '\\', '/');
        assert(replace_char(x, '\\', '/') =~= x);
        let r = d@;
        assert(replace_char(r, '\\', '/') == r);
        if r.contains('\\') {
            let i = choose|i: int| 0 <= i < r.len() && r[i] == '\\';
            assert(replace_char(r, '\\', '/')[i] == '/');
        }
        if all_ascii(value@) {
            assert forall|i: int| 0 <= i < x.len() implies x[i] < '\u{80}' by {}
        }
    }
    string_of(d.as_slice())
}

pub proof fn lemma_byte_len_empty()
    ensures
        byte_len(Seq::<char>::empty()) == 0,
{
    assert(vstd::utf8::encode_utf8(Seq::<char>::empty()) =~= Seq::<u8>::empty());
}

} // verus!
