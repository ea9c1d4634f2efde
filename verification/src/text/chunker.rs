//! Markdown chunking: the verified parts around the splitter.
//!
//! A note body is cleaned of Obsidian `%%…%%` comments, split by the
//! markdown splitter (a token-sized `text_splitter::MarkdownSplitter`, run
//! beside this library because its sizer is an impl of that crate's trait),
//! and the resulting splits are turned into [`NoteChunk`]s here: trivial and
//! too-small chunks are dropped, heading context and line numbers are
//! reconstructed, and the embedding text and hash are built.

use sha2::{Digest, Sha256};
use vstd::prelude::*;
use vstd::utf8::encode_utf8;

use crate::search::chunk_excerpt::{find_sub, first_occurrence, lemma_first_occurrence_bounds};
use crate::search::constants::{CHUNK_MIN_TOKENS_DEFAULT, EMBED_CHUNK_OVERLAP_DEFAULT, EMBED_CHUNK_TOKENS_DEFAULT};
use crate::text::unicode::{
    alnum, byte_len, byte_prefix, char_views, chars_of, copy_from, copy_range, count_lead_char,
    is_alphanumeric, is_byte_prefix, join, join_chars, lead_char, line_chars, lines_of, push_all,
    str_byte_len, string_of, trim, trim_chars, views,
};

verus! {

/// Chunking parameters, in tokens.
#[derive(Debug, Clone, Copy, PartialEq, Eq, Structural)]
pub struct ChunkerConfig {
    /// Target chunk size.
    pub chunk_tokens: usize,
    /// Overlap between adjacent chunks.
    pub chunk_overlap: usize,
    /// Chunks estimated below this many tokens are dropped.
    pub chunk_min_tokens: usize,
}

impl Default for ChunkerConfig {
    fn default() -> (r: Self)
        ensures
            r.chunk_tokens == EMBED_CHUNK_TOKENS_DEFAULT,
            r.chunk_overlap == EMBED_CHUNK_OVERLAP_DEFAULT,
            r.chunk_min_tokens == CHUNK_MIN_TOKENS_DEFAULT,
    {
        ChunkerConfig {
            chunk_tokens: EMBED_CHUNK_TOKENS_DEFAULT,
            chunk_overlap: EMBED_CHUNK_OVERLAP_DEFAULT,
            chunk_min_tokens: CHUNK_MIN_TOKENS_DEFAULT,
        }
    }
}

/// A chunk of note content ready for embedding.
#[derive(Debug, Clone, PartialEq, Eq)]
pub struct NoteChunk {
    /// Byte offset where the chunk starts (in the cleaned body).
    pub char_start: usize,
    /// Byte offset where the chunk ends (exclusive, in the cleaned body).
    pub char_end: usize,
    /// SHA-256 of `text`, in lowercase hex.
    pub chunk_hash: String,
    /// Prefixed embedding text: `Title: …\nPath: …\nHeadings: …\n\n{text}`.
    pub embedding_text: String,
    /// Active heading stack at the chunk's start position.
    pub headings: Vec<String>,
    /// Headings joined with ` > `.
    pub heading_path: String,
    /// 1-based line number where the chunk starts (in the cleaned body).
    pub line_start: u32,
    /// 1-based line number where the chunk ends (in the cleaned body).
    pub line_end: u32,
    /// Trimmed chunk text.
    pub text: String,
    /// Token count estimate.
    pub token_estimate: usize,
}

// ── Heading path and embedding text ─────────────────────────────────────────

/// The headings joined with ` > `.
pub open spec fn heading_path(headings: Seq<Seq<char>>) -> Seq<char> {
    join(headings, " > "@)
}

/// Build heading path by joining headings with ` > `.
pub fn build_heading_path(headings: &[String]) -> (r: String)
    ensures
        r@ == heading_path(views(headings@)),
{
    let mut parts: Vec<Vec<char>> = Vec::new();
    let mut i: usize = 0;
    while i < headings.len()
        invariant
            i <= headings@.len(),
            char_views(parts@) == views(headings@.take(i as int)),
        decreases headings.len() - i,
    {
        let ghost before = parts@;
        let c = chars_of(headings[i].as_str());
        parts.push(c);
        proof {
            crate::text::unicode::lemma_char_views_push(before, c);
            assert(views(headings@.take(i + 1)) =~= views(headings@.take(i as int)).push(headings@[i as int]@));
        }
        i += 1;
    }
    assert(headings@.take(headings@.len() as int) =~= headings@);
    let sep = chars_of(" > ");
    let r = join_chars(parts.as_slice(), sep.as_slice());
    string_of(r.as_slice())
}

/// `Title: {title}\nPath: {path}\nHeadings: {heading path}\n\n{text}`.
pub open spec fn embedding_text(
    title: Seq<char>,
    path: Seq<char>,
    headings: Seq<Seq<char>>,
    text: Seq<char>,
) -> Seq<char> {
    "Title: "@ + title + "\nPath: "@ + path + "\nHeadings: "@ + heading_path(headings) + "\n\n"@ + text
}

fn push_str(out: &mut Vec<char>, s: &str)
    ensures
        final(out)@ == old(out)@ + s@,
{
    let cs = chars_of(s);
    push_all(out, cs.as_slice());
}

/// Build prefixed embedding text.
pub fn build_embedding_text(title: &str, path: &str, headings: &[String], text: &str) -> (r: String)
    ensures
        r@ == embedding_text(title@, path@, views(headings@), text@),
{
    let mut out: Vec<char> = Vec::new();
    push_str(&mut out, "Title: ");
    push_str(&mut out, title);
    push_str(&mut out, "\nPath: ");
    push_str(&mut out, path);
    push_str(&mut out, "\nHeadings: ");
    let hp = build_heading_path(headings);
    push_str(&mut out, hp.as_str());
    push_str(&mut out, "\n\n");
    push_str(&mut out, text);
    assert(out@ =~= embedding_text(title@, path@, views(headings@), text@));
    string_of(out.as_slice())
}

// ── Hash and token estimate ─────────────────────────────────────────────────

/// The SHA-256 digest of `bytes`.
pub uninterp spec fn sha256(bytes: Seq<u8>) -> Seq<u8>;

/// Hashes `bytes` with `sha2::Sha256`; the digest is named by [`sha256`]
/// and, SHA-256 being a 256-bit hash, has 32 bytes.
#[verifier::external_body]
fn sha256_digest(bytes: &[u8]) -> (d: Vec<u8>)
    ensures
        d@ == sha256(bytes@),
        d@.len() == 32,
{
    Sha256::digest(bytes).to_vec()
}

/// The lowercase hexadecimal digit of `n` (below 16).
pub open spec fn hex_digit(n: int) -> char {
    if n < 10 {
        (48 + n) as char
    } else {
        (87 + n) as char
    }
}

/// `bytes` written as lowercase hex, two digits per byte, high nibble first.
pub open spec fn hex_lower(bytes: Seq<u8>) -> Seq<char>
    decreases bytes.len(),
{
    if bytes.len() == 0 {
        seq![]
    } else {
        hex_lower(bytes.drop_last()) + seq![hex_digit(bytes.last() as int / 16), hex_digit(bytes.last() as int % 16)]
    }
}

/// The SHA-256 digest of the UTF-8 bytes of `text`, as lowercase hex.
pub open spec fn sha256_hex(text: Seq<char>) -> Seq<char> {
    hex_lower(sha256(encode_utf8(text)))
}

proof fn lemma_hex_lower_len(bytes: Seq<u8>)
    ensures
        hex_lower(bytes).len() == 2 * bytes.len(),
    decreases bytes.len(),
{
    if bytes.len() > 0 {
        lemma_hex_lower_len(bytes.drop_last());
    }
}

fn hex_char(n: u8) -> (c: char)
    requires
        n < 16,
    ensures
        c == hex_digit(n as int),
{
    if n < 10 {
        (48u8 + n) as char
    } else {
        (87u8 + n) as char
    }
}

/// SHA-256 hash of raw text: the digest of the text's UTF-8 bytes, each
/// byte written as two lowercase hex digits (64 digits in all).
pub fn make_chunk_hash(text: &str) -> (r: String)
    ensures
        r@ == sha256_hex(text@),
        r@.len() == 64,
{
    let digest = sha256_digest(text.as_bytes());
    let r = hex_digest(digest.as_slice());
    proof {
        lemma_hex_lower_len(digest@);
    }
    r
}

/// A digest written as lowercase hex, two digits per byte, high nibble
/// first.
pub fn hex_digest(digest: &[u8]) -> (r: String)
    ensures
        r@ == hex_lower(digest@),
{
    let mut out: Vec<char> = Vec::new();
    let mut i: usize = 0;
    while i < digest.len()
        invariant
            i <= digest@.len(),
            out@ == hex_lower(digest@.take(i as int)),
        decreases digest.len() - i,
    {
        let b = digest[i];
        proof {
            assert(digest@.take(i + 1).drop_last() =~= digest@.take(i as int));
            assert(digest@.take(i + 1).last() == b);
        }
        let hi = hex_char(b / 16);
        let lo = hex_char(b % 16);
        out.push(hi);
        out.push(lo);
        i += 1;
    }
    proof {
        assert(digest@.take(digest@.len() as int) =~= digest@);
    }
    string_of(out.as_slice())
}

/// What `tokenx_rs::estimate_token_count` returns for `text`.
pub uninterp spec fn token_estimate(text: Seq<char>) -> nat;

/// Calls `tokenx_rs::estimate_token_count`; the result is named by
/// [`token_estimate`]. The estimator returns 0 for the empty text.
#[verifier::external_body]
fn estimate_token_count(text: &str) -> (n: usize)
    ensures
        n == token_estimate(text@),
        text@.len() == 0 ==> n == 0,
{
    tokenx_rs::estimate_token_count(text)
}

// ── Comment stripping ────────────────────────────────────────────────────────

/// `%%`.
pub open spec fn comment_mark() -> Seq<char> {
    seq!['%', '%']
}

/// `s` without its Obsidian comments: each `%%` up to the next `%%` (the
/// regular expression `(?s)%%.*?%%` replaced by nothing); an unclosed `%%`
/// stays.
pub open spec fn without_comments(s: Seq<char>) -> Seq<char>
    decreases s.len(),
{
    match first_occurrence(s, comment_mark()) {
        None => s,
        Some(i) => match first_occurrence(s.skip(i as int + 2), comment_mark()) {
            None => s,
            Some(j) => {
                let rest = s.skip(i as int + 2 + j + 2);
                if i + 2 + j + 2 <= s.len() {
                    s.take(i as int) + without_comments(rest)
                } else {
                    s
                }
            },
        },
    }
}

/// Strip Obsidian `%%inline%%` and `%%\nblock\n%%` comments.
pub fn strip_obsidian_comments(body: &str) -> (r: String)
    ensures
        r@ == without_comments(body@),
{
    let mark = vec!['%', '%'];
    let mut rest = chars_of(body);
    let mut out: Vec<char> = Vec::new();
    let ghost whole = body@;
    proof {
        assert(mark@ =~= comment_mark());
    }
    loop
        invariant
            whole == body@,
            mark@ == comment_mark(),
            out@ + without_comments(rest@) == without_comments(whole),
        decreases rest@.len(),
    {
        let ghost r0 = rest@;
        let ghost o0 = out@;
        let rl = rest.len();
        match find_sub(rest.as_slice(), mark.as_slice()) {
            None => {
                push_all(&mut out, rest.as_slice());
                proof {
                    assert(without_comments(r0) == r0);
                }
                return string_of(out.as_slice());
            },
            Some(i) => {
                proof {
                    lemma_first_occurrence_bounds(r0, comment_mark(), i as int);
                }
                let after = copy_from(rest.as_slice(), i + 2);
                match find_sub(after.as_slice(), mark.as_slice()) {
                    None => {
                        push_all(&mut out, rest.as_slice());
                        proof {
                            assert(after@ =~= r0.skip(i + 2));
                            assert(without_comments(r0) == r0);
                        }
                        return string_of(out.as_slice());
                    },
                    Some(j) => {
                        proof {
                            lemma_first_occurrence_bounds(after@, comment_mark(), j as int);
                        }
                        let head = copy_range(rest.as_slice(), 0, i);
                        push_all(&mut out, head.as_slice());
                        let next = copy_from(after.as_slice(), j + 2);
                        proof {
                            assert(after@ =~= r0.skip(i + 2));
                            assert(head@ =~= r0.take(i as int));
                            assert(next@ =~= r0.skip(i + 2 + j + 2));
                            assert(without_comments(r0) == head@ + without_comments(next@));
                            assert(out@ + without_comments(next@) =~= o0 + without_comments(r0));
                        }
                        rest = next;
                    },
                }
            },
        }
    }
}

// ── Headings and line numbers ────────────────────────────────────────────────

/// The heading stack after `lines`: an ATX heading line (one to six `#`
/// then a space) of level `l` cuts the stack to `l - 1` entries and pushes
/// its trimmed text.
pub open spec fn heading_stack(lines: Seq<Seq<char>>) -> Seq<Seq<char>>
    decreases lines.len(),
{
    if lines.len() == 0 {
        seq![]
    } else {
        let hs = heading_stack(lines.drop_last());
        let l = lines.last();
        let level = lead_char(l, '#');
        if 1 <= level <= 6 && level < l.len() && l[level as int] == ' ' {
            let keep = if level - 1 <= hs.len() { level - 1 } else { hs.len() as int };
            hs.take(keep).push(trim(l.skip(level as int + 1)))
        } else {
            hs
        }
    }
}

/// An ATX heading line: one to six `#`, then a space.
pub open spec fn atx_heading(l: Seq<char>) -> bool {
    let level = lead_char(l, '#');
    1 <= level <= 6 && level < l.len() && l[level as int] == ' '
}

/// The text of an ATX heading line: what follows the `#`s and the space,
/// trimmed.
pub open spec fn atx_text(l: Seq<char>) -> Seq<char> {
    trim(l.skip(lead_char(l, '#') as int + 1))
}

/// The heading stack keeps at most one heading per level: after an ATX
/// heading of level `l` it holds no more than `l` entries, the last being
/// that heading, the others the first entries of the stack before it (all
/// `l - 1` of them when the stack had that many); any other line leaves the
/// stack as it is; and no stack is deeper than six.
pub proof fn lemma_heading_stack_levels(lines: Seq<Seq<char>>, l: Seq<char>)
    ensures
        atx_heading(l) ==> {
            let before = heading_stack(lines);
            let after = heading_stack(lines.push(l));
            let level = lead_char(l, '#');
            &&& after.len() <= level
            &&& after.len() >= 1
            &&& after.last() == atx_text(l)
            &&& after.drop_last() == before.take(after.len() - 1)
            &&& before.len() >= level - 1 ==> after.len() == level
        },
        !atx_heading(l) ==> heading_stack(lines.push(l)) == heading_stack(lines),
        heading_stack(lines).len() <= 6,
    decreases lines.len(),
{
    assert(lines.push(l).drop_last() =~= lines);
    if lines.len() > 0 {
        lemma_heading_stack_levels(lines.drop_last(), lines.last());
        assert(lines.drop_last().push(lines.last()) =~= lines);
    }
    if atx_heading(l) {
        let after = heading_stack(lines.push(l));
        assert(after.drop_last() =~= heading_stack(lines).take(after.len() - 1));
    }
}

/// A heading replaces an earlier sibling: when a heading of some level
/// follows one of the same level that sat at its full depth (every level
/// above it had a heading), the stack is the earlier stack with its last
/// heading replaced by the new one.
pub proof fn lemma_sibling_heading_replaces(lines: Seq<Seq<char>>, h1: Seq<char>, h2: Seq<char>)
    requires
        atx_heading(h1),
        atx_heading(h2),
        lead_char(h1, '#') == lead_char(h2, '#'),
        heading_stack(lines).len() >= lead_char(h1, '#') - 1,
    ensures
        heading_stack(lines.push(h1).push(h2)) == heading_stack(lines.push(h1)).drop_last().push(atx_text(h2)),
{
    lemma_heading_stack_levels(lines, h1);
    lemma_heading_stack_levels(lines.push(h1), h2);
    let s1 = heading_stack(lines.push(h1));
    let s2 = heading_stack(lines.push(h1).push(h2));
    assert(s1.len() == lead_char(h1, '#'));
    assert(s2.drop_last() =~= s1.drop_last());
    assert(s2 =~= s1.drop_last().push(atx_text(h2)));
}

/// Number of line feeds in `s`.
pub open spec fn lf_count(s: Seq<char>) -> nat
    decreases s.len(),
{
    if s.len() == 0 {
        0
    } else {
        lf_count(s.drop_last()) + if s.last() == '\n' {
            1nat
        } else {
            0nat
        }
    }
}

/// 1-based line number of the position after `prefix`, saturating at
/// `u32::MAX`.
pub open spec fn line_at(prefix: Seq<char>) -> nat {
    if lf_count(prefix) >= u32::MAX {
        u32::MAX as nat
    } else {
        lf_count(prefix) + 1
    }
}

/// The heading stack in force at character `i` of `text`.
fn headings_at(text: &[char], i: usize) -> (r: Vec<String>)
    requires
        i <= text@.len(),
    ensures
        views(r@) == heading_stack(lines_of(text@.take(i as int))),
{
    let before = copy_range(text, 0, i);
    let lines = line_chars(before.as_slice());
    let ghost ls = char_views(lines@);
    proof {
        assert(before@ =~= text@.take(i as int));
    }
    let mut hs: Vec<String> = Vec::new();
    let mut k: usize = 0;
    while k < lines.len()
        invariant
            k <= lines@.len(),
            ls == char_views(lines@),
            ls == lines_of(text@.take(i as int)),
            views(hs@) == heading_stack(ls.take(k as int)),
        decreases lines.len() - k,
    {
        let l = lines[k].as_slice();
        proof {
            let pre = ls.take(k + 1);
            assert(pre.drop_last() =~= ls.take(k as int));
            assert(pre.last() == l@);
            assert(l@.skip(0) =~= l@);
        }
        let level = count_lead_char(l, 0, '#');
        if 1 <= level && level <= 6 && level < l.len() && l[level] == ' ' {
            let ghost h0 = views(hs@);
            if level - 1 <= hs.len() {
                hs.truncate(level - 1);
            }
            let rest = copy_from(l, level + 1);
            let t = trim_chars(rest.as_slice());
            let ghost h1 = views(hs@);
            hs.push(string_of(t.as_slice()));
            proof {
                let keep = if level - 1 <= h0.len() { level - 1 } else { h0.len() as int };
                assert(h1 =~= h0.take(keep));
                assert(views(hs@) =~= h1.push(t@));
            }
        }
        k += 1;
    }
    proof {
        assert(ls.take(lines@.len() as int) =~= ls);
    }
    hs
}

/// The 1-based line number of character `i` of `text`.
fn line_of(text: &[char], i: usize) -> (n: u32)
    requires
        i <= text@.len(),
    ensures
        n == line_at(text@.take(i as int)),
{
    let mut count: usize = 0;
    let mut k: usize = 0;
    while k < i
        invariant
            k <= i <= text@.len(),
            count == lf_count(text@.take(k as int)),
            count <= k,
        decreases i - k,
    {
        proof {
            let t = text@.take(k + 1);
            assert(t.drop_last() =~= text@.take(k as int));
            assert(t.last() == text@[k as int]);
        }
        if text[k] == '\n' {
            count += 1;
        }
        k += 1;
    }
    if count >= 4294967295 {
        4294967295
    } else {
        (count + 1) as u32
    }
}

// ── Trivial chunks ───────────────────────────────────────────────────────────

/// `l` starts with `p`.
pub open spec fn starts(l: Seq<char>, p: Seq<char>) -> bool {
    l.len() >= p.len() && l.take(p.len() as int) == p
}

/// `l` ends with `p`.
pub open spec fn ends(l: Seq<char>, p: Seq<char>) -> bool {
    l.len() >= p.len() && l.skip(l.len() - p.len()) == p
}

/// A (trimmed) line that carries no content: empty, an ATX heading, a
/// thematic break, a bare block id `^id`, a single wikilink or embed, or a
/// single image.
pub open spec fn trivial_line(l: Seq<char>) -> bool {
    let level = lead_char(l, '#');
    ||| l.len() == 0
    ||| (level >= 1 && level <= 6 && level < l.len() && l[level as int] == ' ')
    ||| l == "---"@ || l == "***"@ || l == "___"@ || l == "- - -"@ || l == "* * *"@ || l == "_ _ _"@
    ||| (l[0] == '^' && forall|j: int| 1 <= j < l.len() ==> alnum(#[trigger] l[j]) || l[j] == '-')
    ||| (starts(l, "[["@) && ends(l, "]]"@))
    ||| (starts(l, "![["@) && ends(l, "]]"@))
    ||| (starts(l, "!["@) && ends(l, ")"@))
}

fn literal_eq(l: &[char], lit: &str) -> (b: bool)
    ensures
        b == (l@ == lit@),
{
    let c = chars_of(lit);
    crate::text::unicode::chars_eq(l, c.as_slice())
}

fn starts_lit(l: &[char], lit: &str) -> (b: bool)
    ensures
        b == starts(l@, lit@),
{
    let c = chars_of(lit);
    crate::text::unicode::starts_with(l, c.as_slice())
}

fn ends_lit(l: &[char], lit: &str) -> (b: bool)
    ensures
        b == ends(l@, lit@),
{
    let c = chars_of(lit);
    crate::text::unicode::ends_with(l, c.as_slice())
}

/// Whether a trimmed line carries no content.
fn is_trivial_line(l: &[char]) -> (b: bool)
    ensures
        b == trivial_line(l@),
{
    if l.len() == 0 {
        return true;
    }
    let level = count_lead_char(l, 0, '#');
    proof {
        assert(l@.skip(0) =~= l@);
    }
    if level >= 1 && level <= 6 && level < l.len() && l[level] == ' ' {
        return true;
    }
    if literal_eq(l, "---") || literal_eq(l, "***") || literal_eq(l, "___") || literal_eq(l, "- - -")
        || literal_eq(l, "* * *") || literal_eq(l, "_ _ _") {
        return true;
    }
    if l[0] == '^' {
        let mut j: usize = 1;
        let mut all = true;
        while j < l.len()
            invariant
                1 <= j <= l@.len(),
                all == forall|t: int| 1 <= t < j ==> alnum(#[trigger] l@[t]) || l@[t] == '-',
            decreases l.len() - j,
        {
            if !(is_alphanumeric(l[j]) || l[j] == '-') {
                all = false;
            }
            j += 1;
        }
        if all {
            return true;
        }
    }
    (starts_lit(l, "[[") && ends_lit(l, "]]")) || (starts_lit(l, "![[") && ends_lit(l, "]]"))
        || (starts_lit(l, "![") && ends_lit(l, ")"))
}

/// A chunk text with no content: empty, or every one of its lines, trimmed,
/// is trivial.
pub open spec fn trivial_chunk(text: Seq<char>) -> bool {
    text.len() == 0 || forall|i: int| 0 <= i < lines_of(text).len() ==> trivial_line(trim(#[trigger] lines_of(text)[i]))
}

/// Whether a chunk text carries no content.
fn is_trivial_chunk(text: &[char]) -> (b: bool)
    ensures
        b == trivial_chunk(text@),
{
    if text.len() == 0 {
        return true;
    }
    let lines = line_chars(text);
    let ghost ls = char_views(lines@);
    let mut i: usize = 0;
    while i < lines.len()
        invariant
            i <= lines@.len(),
            ls == char_views(lines@),
            ls == lines_of(text@),
            forall|j: int| 0 <= j < i ==> trivial_line(trim(#[trigger] ls[j])),
        decreases lines.len() - i,
    {
        let t = trim_chars(lines[i].as_slice());
        if !is_trivial_line(t.as_slice()) {
            assert(ls[i as int] == lines@[i as int]@);
            return false;
        }
        i += 1;
    }
    true
}

// ── Assembling chunks ────────────────────────────────────────────────────────

/// The mathematical content of a [`NoteChunk`].
pub ghost struct ChunkModel {
    pub char_start: nat,
    pub char_end: nat,
    pub chunk_hash: Seq<char>,
    pub embedding_text: Seq<char>,
    pub headings: Seq<Seq<char>>,
    pub heading_path: Seq<char>,
    pub line_start: nat,
    pub line_end: nat,
    pub text: Seq<char>,
    pub token_estimate: nat,
}

pub open spec fn chunk_view(c: NoteChunk) -> ChunkModel {
    ChunkModel {
        char_start: c.char_start as nat,
        char_end: c.char_end as nat,
        chunk_hash: c.chunk_hash@,
        embedding_text: c.embedding_text@,
        headings: views(c.headings@),
        heading_path: c.heading_path@,
        line_start: c.line_start as nat,
        line_end: c.line_end as nat,
        text: c.text@,
        token_estimate: c.token_estimate as nat,
    }
}

pub open spec fn chunk_views(v: Seq<NoteChunk>) -> Seq<ChunkModel> {
    v.map_values(|c: NoteChunk| chunk_view(c))
}

/// A split at byte `off` of `text` whose text is `raw` starts at character
/// `i`, and `raw` is what `text` holds from there.
pub open spec fn split_at(text: Seq<char>, off: nat, raw: Seq<char>, i: int) -> bool {
    &&& 0 <= i
    &&& i + raw.len() <= text.len()
    &&& byte_len(text.take(i)) == off
    &&& text.subrange(i, i + raw.len()) == raw
}

/// Whether a split whose trimmed text is estimated at `estimate` tokens is
/// kept: its trimmed text is not trivial and the estimate reaches
/// `min_tokens`.
pub open spec fn keep_decision(raw: Seq<char>, estimate: nat, min_tokens: nat) -> bool {
    !trivial_chunk(trim(raw)) && estimate >= min_tokens
}

/// A split is kept when its trimmed text is not trivial and is estimated at
/// no fewer than `min_tokens` tokens.
pub open spec fn kept(raw: Seq<char>, min_tokens: nat) -> bool {
    keep_decision(raw, token_estimate(trim(raw)), min_tokens)
}

/// Whether the split `raw`, whose trimmed text the token estimator put at
/// `estimate` tokens, makes a chunk (see [`keep_decision`]).
pub fn keeps_chunk(raw: &str, estimate: usize, min_tokens: usize) -> (b: bool)
    ensures
        b == keep_decision(raw@, estimate as nat, min_tokens as nat),
{
    let rc = chars_of(raw);
    let text = trim_chars(rc.as_slice());
    !is_trivial_chunk(text.as_slice()) && estimate >= min_tokens
}

/// The splits fit `text`: each is what `text` holds at its offset, and a kept
/// split ends in a one-byte character (its last byte is where its end line
/// is read).
pub open spec fn splits_fit(text: Seq<char>, splits: Seq<(usize, String)>, min_tokens: nat) -> bool {
    forall|k: int|
        0 <= k < splits.len() ==> {
            let (off, raw) = #[trigger] splits[k];
            &&& exists|i: int| split_at(text, off as nat, raw@, i)
            &&& kept(raw@, min_tokens) ==> raw@.len() > 0 && raw@.last() < '\u{80}'
        }
}

/// The chunk of a kept split at character `i`.
pub open spec fn chunk_model(
    text: Seq<char>,
    off: nat,
    raw: Seq<char>,
    i: int,
    title: Seq<char>,
    path: Seq<char>,
) -> ChunkModel {
    let t = trim(raw);
    let hs = heading_stack(lines_of(text.take(i)));
    ChunkModel {
        char_start: off,
        char_end: off + byte_len(raw),
        chunk_hash: sha256_hex(t),
        embedding_text: embedding_text(title, path, hs, t),
        headings: hs,
        heading_path: heading_path(hs),
        line_start: line_at(text.take(i)),
        line_end: line_at(text.take(i + raw.len() - 1)),
        text: t,
        token_estimate: token_estimate(t),
    }
}

/// The chunk character position of a split (the one its offset names).
pub open spec fn split_index(text: Seq<char>, off: nat, raw: Seq<char>) -> int {
    choose|i: int| split_at(text, off, raw, i)
}

/// The chunks of the splits, in order.
pub open spec fn chunks_of(
    text: Seq<char>,
    splits: Seq<(usize, String)>,
    title: Seq<char>,
    path: Seq<char>,
    min_tokens: nat,
) -> Seq<ChunkModel>
    decreases splits.len(),
{
    if splits.len() == 0 {
        seq![]
    } else {
        let rest = chunks_of(text, splits.drop_last(), title, path, min_tokens);
        let (off, raw) = splits.last();
        if kept(raw@, min_tokens) {
            rest.push(chunk_model(text, off as nat, raw@, split_index(text, off as nat, raw@), title, path))
        } else {
            rest
        }
    }
}

/// Every chunk is a kept split: its text is not trivial and is estimated at
/// no fewer than the minimum tokens, its byte range lies within the text,
/// and its text is the trimmed text that the body holds in that range.
pub proof fn lemma_chunks_are_kept_splits(
    text: Seq<char>,
    splits: Seq<(usize, String)>,
    title: Seq<char>,
    path: Seq<char>,
    min_tokens: nat,
)
    requires
        splits_fit(text, splits, min_tokens),
    ensures
        forall|k: int|
            0 <= k < chunks_of(text, splits, title, path, min_tokens).len() ==> {
                let c = #[trigger] chunks_of(text, splits, title, path, min_tokens)[k];
                &&& !trivial_chunk(c.text)
                &&& c.token_estimate >= min_tokens
                &&& c.char_start <= c.char_end <= byte_len(text)
                &&& exists|i: int, j: int|
                    0 <= i <= j <= text.len() && byte_len(text.take(i)) == c.char_start && byte_len(
                        text.take(j),
                    ) == c.char_end && c.text == trim(text.subrange(i, j))
            },
    decreases splits.len(),
{
    if splits.len() > 0 {
        let prev = splits.drop_last();
        assert forall|k: int| 0 <= k < prev.len() implies {
            let (off, raw) = #[trigger] prev[k];
            &&& exists|i: int| split_at(text, off as nat, raw@, i)
            &&& kept(raw@, min_tokens) ==> raw@.len() > 0 && raw@.last() < '\u{80}'
        } by {
            assert(prev[k] == splits[k]);
        }
        lemma_chunks_are_kept_splits(text, prev, title, path, min_tokens);
        let (off, raw) = splits.last();
        assert(splits[splits.len() - 1] == splits.last());
        let rest = chunks_of(text, prev, title, path, min_tokens);
        let all = chunks_of(text, splits, title, path, min_tokens);
        if kept(raw@, min_tokens) {
            let i = split_index(text, off as nat, raw@);
            let w = choose|j: int| split_at(text, off as nat, raw@, j);
            assert(split_at(text, off as nat, raw@, w));
            assert(split_at(text, off as nat, raw@, i));
            crate::text::unicode::lemma_byte_len_split(text, i, i + raw@.len());
            crate::text::unicode::lemma_byte_len_prefix(text, i + raw@.len());
            let m = chunk_model(text, off as nat, raw@, i, title, path);
            assert(all == rest.push(m));
            assert(m.char_end == byte_len(text.take(i + raw@.len())));
            assert(text.subrange(i, i + raw@.len()) == raw@);
            assert(byte_len(text.take(i)) == m.char_start && byte_len(text.take(i + raw@.len())) == m.char_end
                && m.text == trim(text.subrange(i, i + raw@.len())));
            assert forall|k: int| 0 <= k < all.len() implies {
                let c = #[trigger] all[k];
                &&& !trivial_chunk(c.text)
                &&& c.token_estimate >= min_tokens
                &&& c.char_start <= c.char_end <= byte_len(text)
                &&& exists|i: int, j: int|
                    0 <= i <= j <= text.len() && byte_len(text.take(i)) == c.char_start && byte_len(
                        text.take(j),
                    ) == c.char_end && c.text == trim(text.subrange(i, j))
            } by {
                if k < rest.len() {
                    assert(all[k] == rest[k]);
                } else {
                    assert(all[k] == m);
                }
            }
        } else {
            assert(all == rest);
        }
    }
}

proof fn lemma_split_index_unique(text: Seq<char>, off: nat, raw: Seq<char>, i: int)
    requires
        split_at(text, off, raw, i),
    ensures
        split_index(text, off, raw) == i,
{
    let j = split_index(text, off, raw);
    assert(split_at(text, off, raw, j));
    if j != i {
        if j < i {
            crate::text::unicode::lemma_byte_len_strict(text, j, i);
        } else {
            crate::text::unicode::lemma_byte_len_strict(text, i, j);
        }
    }
}

/// The character position whose byte offset is `off`, if there is one.
fn char_index_of(pre: &Vec<usize>, text: Ghost<Seq<char>>, off: usize) -> (r: Option<usize>)
    requires
        is_byte_prefix(text@, pre@),
    ensures
        r matches Some(i) ==> i <= text@.len() && byte_len(text@.take(i as int)) == off,
        r is None ==> forall|i: int| 0 <= i <= text@.len() ==> byte_len(text@.take(i)) != off,
{
    let mut i: usize = 0;
    while i < pre.len()
        invariant
            is_byte_prefix(text@, pre@),
            i <= pre@.len(),
            forall|j: int| 0 <= j < i ==> byte_len(text@.take(j)) != off,
        decreases pre.len() - i,
    {
        if pre[i] == off {
            return Some(i);
        }
        i += 1;
    }
    None
}

/// Turns the splitter's `(byte offset, text)` splits of `cleaned` into note
/// chunks: splits whose trimmed text is trivial or estimated below
/// `min_tokens` tokens are dropped; the others get their heading stack, line
/// span, hash and embedding text.
pub fn assemble_chunks(
    cleaned: &str,
    splits: &[(usize, String)],
    title: &str,
    path: &str,
    min_tokens: usize,
) -> (r: Vec<NoteChunk>)
    requires
        splits_fit(cleaned@, splits@, min_tokens as nat),
    ensures
        chunk_views(r@) == chunks_of(cleaned@, splits@, title@, path@, min_tokens as nat),
{
    let cs = chars_of(cleaned);
    let total = str_byte_len(cleaned);
    let pre = byte_prefix(cs.as_slice(), total);
    let mut out: Vec<NoteChunk> = Vec::new();
    let mut k: usize = 0;
    while k < splits.len()
        invariant
            cs@ == cleaned@,
            is_byte_prefix(cs@, pre@),
            cs@.len() < usize::MAX,
            splits_fit(cleaned@, splits@, min_tokens as nat),
            k <= splits@.len(),
            chunk_views(out@) == chunks_of(cleaned@, splits@.take(k as int), title@, path@, min_tokens as nat),
        decreases splits.len() - k,
    {
        proof {
            let pre_s = splits@.take(k + 1);
            assert(pre_s.drop_last() =~= splits@.take(k as int));
            assert(pre_s.last() == splits@[k as int]);
        }
        let off = splits[k].0;
        let raw = &splits[k].1;
        let rc = chars_of(raw.as_str());
        let text = trim_chars(rc.as_slice());
        let text_str = string_of(text.as_slice());
        let tokens = estimate_token_count(text_str.as_str());
        if keeps_chunk(raw.as_str(), tokens, min_tokens) {
            let ghost i0 = split_index(cleaned@, off as nat, raw@);
            proof {
                assert(exists|i: int| split_at(cleaned@, off as nat, raw@, i));
                assert(split_at(cleaned@, off as nat, raw@, i0));
            }
            let found = char_index_of(&pre, Ghost(cs@), off);
            let i = match found {
                Some(i) => i,
                None => {
                    proof {
                        assert(byte_len(cs@.take(i0)) == off);
                        assert(false);
                    }
                    0
                },
            };
            proof {
                crate::text::unicode::lemma_byte_len_prefix_unique(cs@, i as int, i0);
            }
            let end_i = i + rc.len();
            let headings = headings_at(cs.as_slice(), i);
            let line_start = line_of(cs.as_slice(), i);
            let line_end = line_of(cs.as_slice(), end_i - 1);
            let byte_end = pre[end_i];
            let hash = make_chunk_hash(text_str.as_str());
            let emb = build_embedding_text(title, path, headings.as_slice(), text_str.as_str());
            let hp = build_heading_path(headings.as_slice());
            let chunk = NoteChunk {
                char_start: off,
                char_end: byte_end,
                chunk_hash: hash,
                embedding_text: emb,
                headings,
                heading_path: hp,
                line_start,
                line_end,
                text: text_str,
                token_estimate: tokens,
            };
            let ghost before = out@;
            out.push(chunk);
            proof {
                let t = cs@.subrange(i as int, end_i as int);
                assert(t == raw@);
                crate::text::unicode::lemma_byte_len_split(cs@, i as int, end_i as int);
                crate::text::unicode::lemma_byte_len_take(cs@, end_i - 1);
                assert(cs@[end_i - 1] == raw@.last());
                crate::text::unicode::lemma_ascii_width(raw@.last());
                assert(chunk_views(out@) =~= chunk_views(before).push(chunk_view(chunk)));
            }
        }
        k += 1;
    }
    proof {
        assert(splits@.take(splits@.len() as int) =~= splits@);
    }
    out
}

/// Whether one split fits `cs` (see [`splits_fit`]).
fn split_fits(cs: &Vec<char>, pre: &Vec<usize>, off: usize, raw: &String, min_tokens: usize) -> (b: bool)
    requires
        is_byte_prefix(cs@, pre@),
    ensures
        b == ((exists|i: int| split_at(cs@, off as nat, raw@, i)) && (kept(raw@, min_tokens as nat)
            ==> raw@.len() > 0 && raw@.last() < '\u{80}')),
{
    let rc = chars_of(raw.as_str());
    let i = match char_index_of(pre, Ghost(cs@), off) {
        Some(i) => i,
        None => {
            return false;
        },
    };
    if rc.len() > cs.len() - i {
        proof {
            assert forall|j: int| !split_at(cs@, off as nat, raw@, j) by {
                if split_at(cs@, off as nat, raw@, j) {
                    crate::text::unicode::lemma_byte_len_prefix_unique(cs@, i as int, j);
                }
            }
        }
        return false;
    }
    let part = copy_range(cs.as_slice(), i, i + rc.len());
    if !crate::text::unicode::chars_eq(part.as_slice(), rc.as_slice()) {
        proof {
            assert forall|j: int| !split_at(cs@, off as nat, raw@, j) by {
                if split_at(cs@, off as nat, raw@, j) {
                    crate::text::unicode::lemma_byte_len_prefix_unique(cs@, i as int, j);
                }
            }
        }
        return false;
    }
    assert(split_at(cs@, off as nat, raw@, i as int));
    let text = trim_chars(rc.as_slice());
    let text_str = string_of(text.as_slice());
    let tokens = estimate_token_count(text_str.as_str());
    if keeps_chunk(raw.as_str(), tokens, min_tokens) {
        rc.len() > 0 && rc[rc.len() - 1] < '\u{80}'
    } else {
        true
    }
}

/// [`assemble_chunks`] for splits that may not fit `cleaned`: `None` when
/// one does not (the offsets of such a split cannot be read), else the
/// chunks.
pub fn assemble_chunks_checked(
    cleaned: &str,
    splits: &[(usize, String)],
    title: &str,
    path: &str,
    min_tokens: usize,
) -> (r: Option<Vec<NoteChunk>>)
    ensures
        r is Some <==> splits_fit(cleaned@, splits@, min_tokens as nat),
        r matches Some(v) ==> chunk_views(v@) == chunks_of(cleaned@, splits@, title@, path@, min_tokens as nat),
{
    let cs = chars_of(cleaned);
    let total = str_byte_len(cleaned);
    let pre = byte_prefix(cs.as_slice(), total);
    let mut k: usize = 0;
    while k < splits.len()
        invariant
            cs@ == cleaned@,
            is_byte_prefix(cs@, pre@),
            k <= splits@.len(),
            forall|j: int| 0 <= j < k ==> {
                let (off, raw) = #[trigger] splits@[j];
                &&& exists|i: int| split_at(cleaned@, off as nat, raw@, i)
                &&& kept(raw@, min_tokens as nat) ==> raw@.len() > 0 && raw@.last() < '\u{80}'
            },
        decreases splits.len() - k,
    {
        if !split_fits(&cs, &pre, splits[k].0, &splits[k].1, min_tokens) {
            return None;
        }
        k += 1;
    }
    Some(assemble_chunks(cleaned, splits, title, path, min_tokens))
}

} // verus!
