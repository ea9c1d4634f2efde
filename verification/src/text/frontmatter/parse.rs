//! The text side of YAML frontmatter: finding the block, quoting Obsidian
//! scalars before the YAML parser sees them, splitting list text, flattening
//! parsed values into strings, and collecting aliases and tags.
//!
//! The YAML parse itself runs beside this library; its result reaches the
//! functions here as [`YamlValue`]s.

use vstd::prelude::*;

use crate::search::chunk_excerpt::{find_sub, first_occurrence, lemma_first_occurrence_bounds};
use crate::text::frontmatter::{fm_keyword, normalize_keyword};
use crate::text::processing_wikilink::{strip_outer_quotes, unquoted};
use vstd::utf8::encode_utf8;

use crate::text::unicode::{
    lemma_ascii_width, lemma_byte_len_single, lemma_byte_len_take, lemma_encode_append, lemma_index_of,
    lemma_index_of_bounds, lemma_lead_ws, lemma_trail_ws, strip_cr,
    byte_len, byte_prefix, char_at_byte, char_index_at_byte, char_views, chars_eq, chars_of, copy_from,
    contains_from, copy_range, index_of, is_whitespace, is_ws, join, join_chars, line_chars, lines_of,
    push_all, string_of, trim, trim_bounds, trim_chars, trim_end, trim_start, views,
};

verus! {

// ── Scalar quoting ──────────────────────────────────────────────────────────

/// Whether `c` opens a YAML flow collection, a block scalar, an anchor or an
/// alias, none of which is quoted.
pub open spec fn structural_lead(c: char) -> bool {
    c == '[' || c == '{' || c == '|' || c == '>' || c == '&' || c == '*'
}

/// Whether a scalar value holds a `:` that the YAML parser would misread:
/// its trimmed text is not empty, not already quoted, does not start a
/// structure, and contains `:`. (The YAML keywords `true`, `null`, `~` and
/// the like are left alone too; none of them contains `:`.)
pub open spec fn needs_quoting(value: Seq<char>) -> bool {
    let t = trim(value);
    &&& t.len() > 0
    &&& !(t[0] == '"' && t.last() == '"')
    &&& !(t[0] == '\'' && t.last() == '\'')
    &&& !structural_lead(t[0])
    &&& t.contains(':')
}

/// Whether a frontmatter value must be double-quoted before parsing (see
/// [`needs_quoting`]).
pub fn needs_scalar_quoting(value: &str) -> (b: bool)
    ensures
        b == needs_quoting(value@),
{
    let cs = chars_of(value);
    needs_quoting_chars(cs.as_slice())
}

fn needs_quoting_chars(cs: &[char]) -> (b: bool)
    ensures
        b == needs_quoting(cs@),
{
    let t = trim_chars(cs);
    if t.len() == 0 {
        return false;
    }
    let first = t[0];
    let last = t[t.len() - 1];
    if (first == '"' && last == '"') || (first == '\'' && last == '\'') {
        return false;
    }
    if first == '[' || first == '{' || first == '|' || first == '>' || first == '&' || first == '*' {
        return false;
    }
    let mut i: usize = 0;
    assert(needs_quoting(cs@) == t@.contains(':'));
    while i < t.len()
        invariant
            i <= t@.len(),
            needs_quoting(cs@) == t@.contains(':'),
            forall|j: int| 0 <= j < i ==> t@[j] != ':',
        decreases t.len() - i,
    {
        if t[i] == ':' {
            proof {
                assert(t@[i as int] == ':');
                assert(t@.contains(':'));
            }
            return true;
        }
        i += 1;
    }
    false
}

/// The escape of one character inside a double-quoted YAML scalar.
pub open spec fn quote_escape(c: char) -> Seq<char> {
    if c == '\\' {
        seq!['\\', '\\']
    } else if c == '"' {
        seq!['\\', '"']
    } else {
        seq![c]
    }
}

/// `s` with each character escaped.
pub open spec fn escaped(s: Seq<char>) -> Seq<char>
    decreases s.len(),
{
    if s.len() == 0 {
        seq![]
    } else {
        escaped(s.drop_last()) + quote_escape(s.last())
    }
}

/// The trimmed value with `\` and `"` escaped for a double-quoted scalar.
pub fn escape_double_quoted(value: &str) -> (r: String)
    ensures
        r@ == escaped(trim(value@)),
{
    let cs = chars_of(value);
    let t = trim_chars(cs.as_slice());
    let out = escape_chars(t.as_slice());
    string_of(out.as_slice())
}

fn escape_chars(t: &[char]) -> (out: Vec<char>)
    ensures
        out@ == escaped(t@),
{
    let mut out: Vec<char> = Vec::new();
    let mut i: usize = 0;
    while i < t.len()
        invariant
            i <= t@.len(),
            out@ == escaped(t@.take(i as int)),
        decreases t.len() - i,
    {
        proof {
            assert(t@.take(i + 1).drop_last() =~= t@.take(i as int));
        }
        let c = t[i];
        if c == '\\' {
            out.push('\\');
            out.push('\\');
        } else if c == '"' {
            out.push('\\');
            out.push('"');
        } else {
            out.push(c);
        }
        proof {
            assert(out@ =~= escaped(t@.take(i + 1)));
        }
        i += 1;
    }
    proof {
        assert(t@.take(t@.len() as int) =~= t@);
    }
    out
}

// ── List text ───────────────────────────────────────────────────────────────

/// A list separator: `,` or a line break.
pub open spec fn list_sep(c: char) -> bool {
    c == ',' || c == '\n'
}

/// The pieces of `s` between separators (`str::split`; empty pieces
/// included).
pub open spec fn list_pieces(s: Seq<char>) -> Seq<Seq<char>>
    decreases s.len(),
{
    if s.len() == 0 {
        seq![seq![]]
    } else {
        let prev = list_pieces(s.drop_last());
        if list_sep(s.last()) {
            prev.push(seq![])
        } else {
            prev.drop_last().push(prev.last().push(s.last()))
        }
    }
}

/// The pieces unquoted, empty ones dropped.
pub open spec fn list_items(ps: Seq<Seq<char>>) -> Seq<Seq<char>>
    decreases ps.len(),
{
    if ps.len() == 0 {
        seq![]
    } else {
        let prev = list_items(ps.drop_last());
        let u = unquoted(ps.last());
        if u.len() > 0 {
            prev.push(u)
        } else {
            prev
        }
    }
}

/// The items of a comma- or newline-separated list text.
pub open spec fn split_list(s: Seq<char>) -> Seq<Seq<char>> {
    list_items(list_pieces(s))
}

pub proof fn lemma_list_pieces_nonempty(s: Seq<char>)
    ensures
        list_pieces(s).len() >= 1,
    decreases s.len(),
{
    if s.len() > 0 {
        lemma_list_pieces_nonempty(s.drop_last());
    }
}

/// Splits a list text at commas and line breaks; each item trimmed and
/// stripped of matching outer quotes, empty items dropped.
pub fn split_list_text(value: &str) -> (r: Vec<String>)
    ensures
        views(r@) == split_list(value@),
{
    let cs = chars_of(value);
    let mut out: Vec<String> = Vec::new();
    let mut cur: Vec<char> = Vec::new();
    let mut i: usize = 0;
    proof {
        assert(cs@.take(0) =~= Seq::<char>::empty());
        assert(list_pieces(cs@.take(0)).drop_last() =~= Seq::<Seq<char>>::empty());
    }
    while i < cs.len()
        invariant
            i <= cs@.len(),
            list_pieces(cs@.take(i as int)).len() >= 1,
            views(out@) == list_items(list_pieces(cs@.take(i as int)).drop_last()),
            cur@ == list_pieces(cs@.take(i as int)).last(),
        decreases cs.len() - i,
    {
        let ghost pre = cs@.take(i as int);
        let ghost nxt = cs@.take(i + 1);
        proof {
            assert(nxt.drop_last() =~= pre);
            assert(nxt.last() == cs@[i as int]);
            lemma_list_pieces_nonempty(nxt);
        }
        let c = cs[i];
        if c == ',' || c == '\n' {
            let piece = string_of(cur.as_slice());
            let item = strip_outer_quotes(piece.as_str());
            let ghost before = out@;
            if item.as_str().unicode_len() > 0 {
                out.push(item);
                proof {
                    crate::text::unicode::lemma_views_push(before, item);
                }
            }
            proof {
                assert(list_pieces(nxt) == list_pieces(pre).push(seq![]));
                assert(list_pieces(nxt).drop_last() =~= list_pieces(pre));
                let ps = list_pieces(pre);
                assert(ps.drop_last().push(ps.last()) =~= ps);
            }
            cur = Vec::new();
            proof {
                assert(cur@ =~= list_pieces(nxt).last());
            }
        } else {
            cur.push(c);
            proof {
                let ps = list_pieces(pre);
                assert(list_pieces(nxt) == ps.drop_last().push(ps.last().push(c)));
                assert(list_pieces(nxt).drop_last() =~= ps.drop_last());
            }
        }
        i += 1;
    }
    proof {
        assert(cs@.take(cs@.len() as int) =~= cs@);
    }
    let piece = string_of(cur.as_slice());
    let item = strip_outer_quotes(piece.as_str());
    let ghost before = out@;
    if item.as_str().unicode_len() > 0 {
        out.push(item);
        proof {
            crate::text::unicode::lemma_views_push(before, item);
        }
    }
    proof {
        let ps = list_pieces(cs@);
        assert(ps.drop_last().push(ps.last()) =~= ps);
    }
    out
}

// ── Unique values ───────────────────────────────────────────────────────────

/// The values kept from `vals`, with the keywords already seen: a value is
/// kept, trimmed, when its keyword is not empty and not seen before.
pub open spec fn unique_values(vals: Seq<Seq<char>>) -> (Seq<Seq<char>>, Seq<Seq<char>>)
    decreases vals.len(),
{
    if vals.len() == 0 {
        (seq![], seq![])
    } else {
        let (out, seen) = unique_values(vals.drop_last());
        let k = fm_keyword(vals.last());
        if k.len() > 0 && !seen.contains(k) {
            (out.push(trim(vals.last())), seen.push(k))
        } else {
            (out, seen)
        }
    }
}

/// What [`unique_values`] keeps: as many values as keywords seen, each
/// kept value's keyword the one seen beside it, all of them non-empty and
/// pairwise distinct.
pub proof fn lemma_unique_values_state(vals: Seq<Seq<char>>)
    ensures
        unique_values(vals).0.len() == unique_values(vals).1.len(),
        forall|i: int|
            0 <= i < unique_values(vals).0.len() ==> fm_keyword(#[trigger] unique_values(vals).0[i])
                == unique_values(vals).1[i],
        forall|i: int, j: int|
            0 <= i < j < unique_values(vals).1.len() ==> unique_values(vals).1[i] != unique_values(vals).1[j],
        forall|i: int| 0 <= i < unique_values(vals).1.len() ==> (#[trigger] unique_values(vals).1[i]).len() > 0,
    decreases vals.len(),
{
    if vals.len() > 0 {
        lemma_unique_values_state(vals.drop_last());
        crate::text::unicode::lemma_trim_idempotent(vals.last());
    }
}

/// Merging keeps one value per normalized keyword: the keywords of the
/// merged values are non-empty and pairwise distinct.
pub proof fn lemma_unique_list_distinct(fm_tags: Seq<Seq<char>>, inline_tags: Seq<Seq<char>>)
    ensures
        forall|i: int|
            0 <= i < unique_values(fm_tags + inline_tags).0.len() ==> fm_keyword(
                #[trigger] unique_values(fm_tags + inline_tags).0[i],
            ).len() > 0,
        forall|i: int, j: int|
            0 <= i < j < unique_values(fm_tags + inline_tags).0.len() ==> fm_keyword(
                unique_values(fm_tags + inline_tags).0[i],
            ) != fm_keyword(unique_values(fm_tags + inline_tags).0[j]),
{
    let vals = fm_tags + inline_tags;
    lemma_unique_values_state(vals);
    let out = unique_values(vals).0;
    let seen = unique_values(vals).1;
    assert forall|i: int, j: int| 0 <= i < j < out.len() implies fm_keyword(out[i]) != fm_keyword(out[j]) by {
        assert(fm_keyword(out[i]) == seen[i]);
        assert(fm_keyword(out[j]) == seen[j]);
    }
    assert forall|i: int| 0 <= i < out.len() implies fm_keyword(#[trigger] out[i]).len() > 0 by {
        assert(fm_keyword(out[i]) == seen[i]);
    }
}

/// Merges two lists of values, keeping the first value of each normalized
/// keyword (trimmed) and dropping values whose keyword is empty.
pub fn normalize_unique_list(fm_tags: Vec<String>, inline_tags: Vec<String>) -> (r: Vec<String>)
    ensures
        views(r@) == unique_values(views(fm_tags@) + views(inline_tags@)).0,
{
    let mut all = fm_tags;
    let ghost a = views(all@);
    let ghost b = views(inline_tags@);
    let mut k: usize = 0;
    while k < inline_tags.len()
        invariant
            k <= inline_tags@.len(),
            b == views(inline_tags@),
            views(all@) == a + b.take(k as int),
        decreases inline_tags.len() - k,
    {
        let v = inline_tags[k].clone();
        let ghost before = all@;
        all.push(v);
        proof {
            crate::text::unicode::lemma_views_push(before, v);
            assert(b.take(k + 1) =~= b.take(k as int).push(b[k as int]));
            assert(views(all@) =~= a + b.take(k + 1));
        }
        k += 1;
    }
    proof {
        assert(b.take(b.len() as int) =~= b);
    }
    let ghost vals = views(all@);
    let mut seen: Vec<Vec<char>> = Vec::new();
    let mut result: Vec<String> = Vec::new();
    let mut i: usize = 0;
    while i < all.len()
        invariant
            i <= all@.len(),
            vals == views(all@),
            (views(result@), char_views(seen@)) == unique_values(vals.take(i as int)),
        decreases all.len() - i,
    {
        proof {
            assert(vals.take(i + 1).drop_last() =~= vals.take(i as int));
            assert(vals.take(i + 1).last() == all@[i as int]@);
        }
        let value = &all[i];
        let normalized = normalize_keyword(value.as_str());
        let nc = chars_of(normalized.as_str());
        let mut found = false;
        let mut j: usize = 0;
        while j < seen.len()
            invariant
                j <= seen@.len(),
                found == char_views(seen@).take(j as int).contains(nc@),
            decreases seen.len() - j,
        {
            let eq = chars_eq(seen[j].as_slice(), nc.as_slice());
            proof {
                let tj = char_views(seen@).take(j as int);
                let tj1 = char_views(seen@).take(j + 1);
                assert(tj1 =~= tj.push(seen@[j as int]@));
                if tj1.contains(nc@) {
                    let w = choose|k: int| 0 <= k < tj1.len() && tj1[k] == nc@;
                    if w < j {
                        assert(tj[w] == nc@);
                    }
                }
                if tj.contains(nc@) {
                    let w = choose|k: int| 0 <= k < tj.len() && tj[k] == nc@;
                    assert(tj1[w] == nc@);
                }
                if eq {
                    assert(tj1[j as int] == nc@);
                }
            }
            if eq {
                found = true;
            }
            j += 1;
        }
        proof {
            assert(char_views(seen@).take(seen@.len() as int) =~= char_views(seen@));
        }
        if nc.len() > 0 && !found {
            let ghost rb = result@;
            let ghost sb = seen@;
            let vc = chars_of(value.as_str());
            let t = trim_chars(vc.as_slice());
            let ts = string_of(t.as_slice());
            seen.push(nc);
            result.push(ts);
            proof {
                crate::text::unicode::lemma_views_push(rb, ts);
                crate::text::unicode::lemma_char_views_push(sb, nc);
            }
        }
        i += 1;
    }
    proof {
        assert(vals.take(vals.len() as int) =~= vals);
    }
    result
}

// ── The frontmatter block ───────────────────────────────────────────────────

/// `---`, which opens a frontmatter block (and may close it).
pub open spec fn dashes() -> Seq<char> {
    seq!['-', '-', '-']
}

/// Whether a line, trimmed, closes the block: `---` or `...`.
pub open spec fn closes_block(l: Seq<char>) -> bool {
    trim(l) == dashes() || trim(l) == seq!['.', '.', '.']
}

/// The index of the first closing line.
pub open spec fn closing_line(lines: Seq<Seq<char>>) -> Option<nat>
    decreases lines.len(),
{
    if lines.len() == 0 {
        None
    } else if closes_block(lines[0]) {
        Some(0)
    } else {
        match closing_line(lines.drop_first()) {
            Some(k) => Some(k + 1),
            None => None,
        }
    }
}

/// The offset given to line `k`: the byte lengths of the lines before it,
/// each counted with one byte for its line break.
pub open spec fn lines_offset(lines: Seq<Seq<char>>, k: nat) -> nat
    decreases k,
{
    if k == 0 || lines.len() == 0 {
        0
    } else {
        byte_len(lines[0]) + 1 + lines_offset(lines.drop_first(), (k - 1) as nat)
    }
}

/// The offset of the first closing line of `s`, by [`lines_offset`].
pub open spec fn end_marker(s: Seq<char>) -> Option<nat> {
    match closing_line(lines_of(s)) {
        Some(k) => Some(lines_offset(lines_of(s), k)),
        None => None,
    }
}

pub proof fn lemma_closing_line_bounds(lines: Seq<Seq<char>>)
    ensures
        closing_line(lines) matches Some(k) ==> k < lines.len() && closes_block(lines[k as int]),
        closing_line(lines) matches Some(k) ==> forall|j: int| 0 <= j < k ==> !closes_block(#[trigger] lines[j]),
        closing_line(lines) is None ==> forall|j: int| 0 <= j < lines.len() ==> !closes_block(#[trigger] lines[j]),
    decreases lines.len(),
{
    if lines.len() > 0 && !closes_block(lines[0]) {
        lemma_closing_line_bounds(lines.drop_first());
        let d = lines.drop_first();
        assert forall|j: int| 1 <= j < lines.len() implies lines[j] == d[j - 1] by {}
        if closing_line(d) is None {
            assert forall|j: int| 0 <= j < lines.len() implies !closes_block(#[trigger] lines[j]) by {
                if j > 0 {
                    assert(lines[j] == d[j - 1]);
                }
            }
        } else {
            let k = closing_line(d).unwrap();
            assert forall|j: int| 0 <= j < k + 1 implies !closes_block(#[trigger] lines[j]) by {
                if j > 0 {
                    assert(lines[j] == d[j - 1]);
                }
            }
        }
    }
}

/// One more line adds its byte length and one byte.
pub proof fn lemma_lines_offset_step(lines: Seq<Seq<char>>, k: nat)
    requires
        k < lines.len(),
    ensures
        lines_offset(lines, k + 1) == lines_offset(lines, k) + byte_len(lines[k as int]) + 1,
    decreases k,
{
    let d = lines.drop_first();
    assert(lines_offset(lines, k + 1) == byte_len(lines[0]) + 1 + lines_offset(d, k));
    if k > 0 {
        lemma_lines_offset_step(d, (k - 1) as nat);
        assert(d[k - 1] == lines[k as int]);
        assert(lines_offset(lines, k) == byte_len(lines[0]) + 1 + lines_offset(d, (k - 1) as nat));
    } else {
        assert(lines_offset(d, 0) == 0);
        assert(lines_offset(lines, 0) == 0);
    }
}

/// The offset of an existing line lies within the text.
pub proof fn lemma_lines_offset_bound(s: Seq<char>, k: nat)
    requires
        k < lines_of(s).len(),
    ensures
        lines_offset(lines_of(s), k) <= byte_len(s),
    decreases s.len(),
{
    if k > 0 {
        let p = crate::text::unicode::index_of(s, '\n');
        crate::text::unicode::lemma_index_of_bounds(s, '\n');
        if p < s.len() {
            let first = s.take(p as int);
            let rest = s.skip(p as int + 1);
            assert(lines_of(s) == seq![crate::text::unicode::strip_cr(first)] + lines_of(rest));
            assert(lines_of(s).drop_first() =~= lines_of(rest));
            lemma_lines_offset_bound(rest, (k - 1) as nat);
            // byte_len(strip_cr(first)) <= byte_len(first)
            crate::text::unicode::lemma_byte_len_prefix(first, crate::text::unicode::strip_cr(first).len() as int);
            assert(first.take(crate::text::unicode::strip_cr(first).len() as int) =~= crate::text::unicode::strip_cr(first));
            // s = first + "\n" + rest
            assert(s =~= first + (seq!['\n'] + rest));
            crate::text::unicode::lemma_encode_append(first, seq!['\n'] + rest);
            crate::text::unicode::lemma_encode_append(seq!['\n'], rest);
            crate::text::unicode::lemma_byte_len_single('\n');
        } else {
            assert(lines_of(s) == seq![crate::text::unicode::strip_cr(s)]);
        }
    }
}

/// The offset of the first line of `s` that closes a frontmatter block:
/// the byte lengths of the lines before it (as `str::lines` gives them),
/// each with one byte for its line break.
pub fn find_end_marker(s: &str) -> (r: Option<usize>)
    ensures
        match r {
            Some(e) => end_marker(s@) == Some(e as nat),
            None => end_marker(s@) is None,
        },
{
    let cs = chars_of(s);
    end_marker_chars(cs.as_slice())
}

fn end_marker_chars(cs: &[char]) -> (r: Option<usize>)
    ensures
        match r {
            Some(e) => end_marker(cs@) == Some(e as nat) && e <= byte_len(cs@),
            None => end_marker(cs@) is None,
        },
{
    let lines = line_chars(cs);
    let ghost ls = char_views(lines@);
    let dash: Vec<char> = vec!['-', '-', '-'];
    let dots: Vec<char> = vec!['.', '.', '.'];
    let total = byte_len_chars(cs);
    let mut k: usize = 0;
    while k < lines.len()
        invariant
            total == byte_len(cs@),
            ls == char_views(lines@),
            ls == lines_of(cs@),
            k <= lines@.len(),
            dash@ == dashes(),
            dots@ == seq!['.', '.', '.'],
            forall|j: int| 0 <= j < k ==> !closes_block(#[trigger] ls[j]),
        decreases lines.len() - k,
    {
        let t = trim_chars(lines[k].as_slice());
        if chars_eq(t.as_slice(), dash.as_slice()) || chars_eq(t.as_slice(), dots.as_slice()) {
            proof {
                lemma_closing_line_bounds(ls);
                assert(closes_block(ls[k as int]));
                if closing_line(ls) is None {
                    assert(!closes_block(ls[k as int]));
                } else {
                    let c = closing_line(ls).unwrap();
                    if c < k {
                        assert(!closes_block(ls[c as int]));
                    } else if c > k {
                        assert(!closes_block(ls[k as int]));
                    }
                }
                lemma_lines_offset_bound(cs@, k as nat);
            }
            let mut pos: usize = 0;
            let mut j: usize = 0;
            while j < k
                invariant
                    j <= k < ls.len(),
                    ls == char_views(lines@),
                    ls == lines_of(cs@),
                    pos == lines_offset(ls, j as nat),
                    lines_offset(ls, k as nat) <= byte_len(cs@),
                    total == byte_len(cs@),
                decreases k - j,
            {
                proof {
                    lemma_lines_offset_step(ls, j as nat);
                    lemma_lines_offset_mono(ls, (j + 1) as nat, k as nat);
                }
                let w = byte_len_chars(lines[j].as_slice());
                assert(ls[j as int] == lines@[j as int]@);
                pos = pos + w + 1;
                j += 1;
            }
            return Some(pos);
        }
        proof {
            assert(!closes_block(ls[k as int]));
        }
        k += 1;
    }
    proof {
        lemma_closing_line_bounds(ls);
        if closing_line(ls) is Some {
            let c = closing_line(ls).unwrap();
            assert(!closes_block(ls[c as int]));
        }
    }
    None
}

/// Offsets grow with the line index.
pub proof fn lemma_lines_offset_mono(lines: Seq<Seq<char>>, j: nat, k: nat)
    requires
        j <= k <= lines.len(),
    ensures
        lines_offset(lines, j) <= lines_offset(lines, k),
    decreases k - j,
{
    if j < k {
        lemma_lines_offset_step(lines, (k - 1) as nat);
        lemma_lines_offset_mono(lines, j, (k - 1) as nat);
    }
}

/// The byte length of a character slice.
fn byte_len_chars(cs: &[char]) -> (n: usize)
    ensures
        n == byte_len(cs@),
{
    let s = string_of(cs);
    crate::text::unicode::str_byte_len(s.as_str())
}

/// `s` without one leading line break.
pub open spec fn skip_newline(s: Seq<char>) -> Seq<char> {
    if s.len() > 0 && s[0] == '\n' {
        s.skip(1)
    } else {
        s
    }
}

/// How a note splits into body and raw frontmatter text; `None` where the
/// byte offsets the split computes do not fall on character boundaries.
///
/// The block starts at the first `---` anywhere in the content; one line
/// break after it is skipped; it ends at the first line that, trimmed, is
/// `---` or `...`. Without either, the whole content is the body and there
/// is no frontmatter text. The raw text is what precedes the closing line's
/// offset ([`end_marker`]); the body starts seven bytes past the opening
/// `---` plus that offset (the opening marker, a line break, the closing
/// marker).
pub open spec fn fm_split(content: Seq<char>) -> Option<(Seq<char>, Seq<char>)> {
    match first_occurrence(content, dashes()) {
        None => Some((content, seq![])),
        Some(i) => {
            let a2 = skip_newline(content.skip(i as int + 3));
            match end_marker(a2) {
                None => Some((content, seq![])),
                Some(e) => match char_at_byte(a2, e) {
                    None => None,
                    Some(r) => match char_at_byte(content, byte_len(content.take(i as int)) + 7 + e) {
                        None => None,
                        Some(b) => Some((content.skip(b as int), a2.take(r as int))),
                    },
                },
            }
        },
    }
}

/// Splits a note into `(body, raw frontmatter)` (see [`fm_split`]), or
/// `None` where the split's byte offsets fall inside a character.
pub fn extract_frontmatter_yaml_checked(content: &str) -> (r: Option<(String, String)>)
    ensures
        match r {
            Some((body, raw)) => fm_split(content@) == Some((body@, raw@)),
            None => fm_split(content@) is None,
        },
{
    let cs = chars_of(content);
    let dash: Vec<char> = vec!['-', '-', '-'];
    assert(dash@ =~= dashes());
    let i = match find_sub(cs.as_slice(), dash.as_slice()) {
        None => {
            return Some((string_of(cs.as_slice()), String::new()));
        },
        Some(i) => i,
    };
    proof {
        lemma_first_occurrence_bounds(cs@, dash@, i as int);
    }
    let after = copy_from(cs.as_slice(), i + 3);
    let a2 = if after.len() > 0 && after[0] == '\n' {
        copy_from(after.as_slice(), 1)
    } else {
        after
    };
    let e = match end_marker_chars(a2.as_slice()) {
        None => {
            return Some((string_of(cs.as_slice()), String::new()));
        },
        Some(e) => e,
    };
    let a2_total = byte_len_chars(a2.as_slice());
    let a2_pre = byte_prefix(a2.as_slice(), a2_total);
    let r = match char_index_at_byte(a2.as_slice(), a2_pre.as_slice(), e) {
        None => {
            return None;
        },
        Some(r) => r,
    };
    let total = byte_len_chars(cs.as_slice());
    let pre = byte_prefix(cs.as_slice(), total);
    let start = pre[i];
    proof {
        crate::text::unicode::lemma_byte_len_prefix(cs@, i as int);
    }
    let target = match start.checked_add(7) {
        None => None,
        Some(t) => t.checked_add(e),
    };
    let b = match target {
        None => {
            proof {
                crate::text::unicode::lemma_char_at_byte_beyond(cs@, (byte_len(cs@.take(i as int)) + 7 + e) as nat);
            }
            return None;
        },
        Some(t) => match char_index_at_byte(cs.as_slice(), pre.as_slice(), t) {
            None => {
                return None;
            },
            Some(b) => b,
        },
    };
    let body = copy_from(cs.as_slice(), b);
    let raw = copy_range(a2.as_slice(), 0, r);
    proof {
        assert(raw@ =~= a2@.take(r as int));
    }
    Some((string_of(body.as_slice()), string_of(raw.as_slice())))
}

/// Splits a note into `(body, raw frontmatter)` (see [`fm_split`]).
pub fn extract_frontmatter_yaml(content: &str) -> (r: (String, String))
    requires
        fm_split(content@) is Some,
    ensures
        fm_split(content@) == Some((r.0@, r.1@)),
{
    match extract_frontmatter_yaml_checked(content) {
        Some(p) => p,
        None => {
            proof {
                assert(false);
            }
            (String::new(), String::new())
        },
    }
}

// ── Obsidian scalars ────────────────────────────────────────────────────────

/// One line of frontmatter with an Obsidian scalar quoted; `None` where the
/// offset of its `:`, taken in the line's trimmed text, is not a character
/// boundary of the line itself.
///
/// A line whose first `:` (after leading whitespace) follows a key without
/// spaces, and whose value (one leading space skipped) [`needs_quoting`],
/// becomes the line's text before that offset, right-trimmed, then
/// `: "`, the escaped trimmed value, and `"`. Other lines stay as they are.
pub open spec fn scalar_line(line: Seq<char>) -> Option<Seq<char>> {
    let t = trim_start(line);
    let c = index_of(t, ':');
    if c >= t.len() || t.take(c as int).contains(' ') {
        Some(line)
    } else {
        let value = t.skip(c as int + 1);
        let v2 = if value.len() > 0 && value[0] == ' ' { value.skip(1) } else { value };
        if !needs_quoting(v2) {
            Some(line)
        } else {
            match char_at_byte(line, byte_len(t.take(c as int))) {
                None => None,
                Some(p) => Some(
                    trim_end(line.take(p as int)) + seq![':', ' ', '"'] + escaped(trim(v2)) + seq!['"'],
                ),
            }
        }
    }
}

/// Every line quoted by [`scalar_line`]; `None` when one of them is.
pub open spec fn scalar_lines(lines: Seq<Seq<char>>) -> Option<Seq<Seq<char>>>
    decreases lines.len(),
{
    if lines.len() == 0 {
        Some(seq![])
    } else {
        match (scalar_lines(lines.drop_last()), scalar_line(lines.last())) {
            (Some(prev), Some(l)) => Some(prev.push(l)),
            _ => None,
        }
    }
}

/// The raw frontmatter with Obsidian scalars quoted, its lines joined with
/// line breaks.
pub open spec fn normalized_scalars(raw: Seq<char>) -> Option<Seq<char>> {
    match scalar_lines(lines_of(raw)) {
        Some(ls) => Some(join(ls, seq!['\n'])),
        None => None,
    }
}

/// `s` without trailing whitespace.
fn trim_end_chars(s: &[char]) -> (r: Vec<char>)
    ensures
        r@ == trim_end(s@),
{
    let mut k: usize = 0;
    while k < s.len() && is_whitespace(s[s.len() - 1 - k])
        invariant
            k <= s@.len(),
            forall|j: int| s@.len() - k <= j < s@.len() ==> is_ws(#[trigger] s@[j]),
        decreases s.len() - k,
    {
        k += 1;
    }
    proof {
        crate::text::unicode::lemma_trail_ws(s@, k as int);
    }
    copy_range(s, 0, s.len() - k)
}

fn scalar_line_chars(line: &[char]) -> (r: Option<Vec<char>>)
    ensures
        match r {
            Some(l) => scalar_line(line@) == Some(l@),
            None => scalar_line(line@) is None,
        },
{
    let (a, _) = trim_bounds(line);
    let t = copy_from(line, a);
    let mut c: usize = 0;
    while c < t.len() && t[c] != ':'
        invariant
            c <= t@.len(),
            forall|j: int| 0 <= j < c ==> #[trigger] t@[j] != ':',
        decreases t.len() - c,
    {
        c += 1;
    }
    proof {
        crate::text::unicode::lemma_index_of(t@, ':', c as int);
    }
    let whole = copy_range(line, 0, line.len());
    assert(whole@ =~= line@);
    if c >= t.len() {
        return Some(whole);
    }
    let key = copy_range(t.as_slice(), 0, c);
    assert(key@ =~= t@.take(c as int));
    if contains_from(key.as_slice(), 0, ' ') {
        proof {
            assert(key@.skip(0) =~= key@);
        }
        return Some(whole);
    }
    proof {
        assert(key@.skip(0) =~= key@);
    }
    let value = copy_from(t.as_slice(), c + 1);
    let v2 = if value.len() > 0 && value[0] == ' ' {
        copy_from(value.as_slice(), 1)
    } else {
        value
    };
    if !needs_quoting_chars(v2.as_slice()) {
        return Some(whole);
    }
    let colon = byte_len_chars(key.as_slice());
    let total = byte_len_chars(line);
    let pre = byte_prefix(line, total);
    let p = match char_index_at_byte(line, pre.as_slice(), colon) {
        None => {
            return None;
        },
        Some(p) => p,
    };
    let head = copy_range(line, 0, p);
    assert(head@ =~= line@.take(p as int));
    let mut out = trim_end_chars(head.as_slice());
    out.push(':');
    out.push(' ');
    out.push('"');
    let tv = trim_chars(v2.as_slice());
    let esc = escape_chars(tv.as_slice());
    push_all(&mut out, esc.as_slice());
    out.push('"');
    proof {
        assert(out@ =~= trim_end(line@.take(p as int)) + seq![':', ' ', '"'] + escaped(trim(v2@)) + seq!['"']);
    }
    Some(out)
}

/// Quotes Obsidian scalars in raw frontmatter (see [`scalar_line`]), or
/// `None` where a line's colon offset falls inside a character.
pub fn normalize_obsidian_scalars_checked(raw: &str) -> (r: Option<String>)
    ensures
        match r {
            Some(n) => normalized_scalars(raw@) == Some(n@),
            None => normalized_scalars(raw@) is None,
        },
{
    let cs = chars_of(raw);
    let lines = line_chars(cs.as_slice());
    let ghost ls = char_views(lines@);
    let mut out: Vec<Vec<char>> = Vec::new();
    let mut i: usize = 0;
    while i < lines.len()
        invariant
            i <= lines@.len(),
            ls == char_views(lines@),
            ls == lines_of(raw@),
            scalar_lines(ls.take(i as int)) == Some(char_views(out@)),
        decreases lines.len() - i,
    {
        proof {
            assert(ls.take(i + 1).drop_last() =~= ls.take(i as int));
            assert(ls.take(i + 1).last() == lines@[i as int]@);
        }
        match scalar_line_chars(lines[i].as_slice()) {
            None => {
                proof {
                    assert(scalar_lines(ls.take(i + 1)) is None);
                    lemma_scalar_lines_prefix(ls, i + 1);
                    assert(ls.take(ls.len() as int) =~= ls);
                }
                return None;
            },
            Some(l) => {
                let ghost before = out@;
                out.push(l);
                proof {
                    crate::text::unicode::lemma_char_views_push(before, l);
                }
            },
        }
        i += 1;
    }
    proof {
        assert(ls.take(ls.len() as int) =~= ls);
    }
    let sep: Vec<char> = vec!['\n'];
    assert(sep@ =~= seq!['\n']);
    let joined = join_chars(out.as_slice(), sep.as_slice());
    Some(string_of(joined.as_slice()))
}

/// A failing prefix makes the whole fail.
pub proof fn lemma_scalar_lines_prefix(lines: Seq<Seq<char>>, k: int)
    requires
        0 <= k <= lines.len(),
        scalar_lines(lines.take(k)) is None,
    ensures
        scalar_lines(lines) is None,
    decreases lines.len() - k,
{
    if k < lines.len() {
        assert(lines.take(k + 1).drop_last() =~= lines.take(k));
        lemma_scalar_lines_prefix(lines, k + 1);
    } else {
        assert(lines.take(k) =~= lines);
    }
}

/// Quotes Obsidian scalars in raw frontmatter (see [`scalar_line`]).
pub fn normalize_obsidian_scalars(raw: &str) -> (r: String)
    requires
        normalized_scalars(raw@) is Some,
    ensures
        normalized_scalars(raw@) == Some(r@),
{
    match normalize_obsidian_scalars_checked(raw) {
        Some(n) => n,
        None => {
            proof {
                assert(false);
            }
            String::new()
        },
    }
}

// ── Parsed values ───────────────────────────────────────────────────────────

/// A parsed YAML value, as the frontmatter logic reads it.
pub enum YamlValue {
    /// `null` (or an empty value).
    Null,
    /// A boolean.
    Bool(bool),
    /// A number, by its text (what `serde_yaml_ng::Number` displays).
    Number(String),
    /// A string, with what its trimmed text parses to as YAML when that
    /// text looks like a flow collection or a double-quoted scalar
    /// ([`looks_structured`]) and the parse succeeds.
    Str(String, Option<Box<YamlValue>>),
    /// A sequence.
    Sequence(Vec<YamlValue>),
    /// A mapping, by its values in order.
    Mapping(Vec<YamlValue>),
    /// A tagged value (`!Tag`).
    Tagged,
}

/// Whether a trimmed list string is parsed again as YAML: it starts with `{`
/// or `[`, or is wrapped in double quotes.
pub open spec fn looks_structured(t: Seq<char>) -> bool {
    t.len() > 0 && (t[0] == '{' || t[0] == '[' || (t[0] == '"' && t.last() == '"'))
}

/// Whether a list string is parsed again as YAML (see
/// [`looks_structured`]): the text to parse is its trimmed form.
pub fn is_structured_list_text(value: &str) -> (b: bool)
    ensures
        b == looks_structured(trim(value@)),
{
    let cs = chars_of(value);
    let t = trim_chars(cs.as_slice());
    t.len() > 0 && (t[0] == '{' || t[0] == '[' || (t[0] == '"' && t[t.len() - 1] == '"'))
}

/// The strings a value flattens to: a string's list items (or what its
/// structured text parses to, flattened), a number's or boolean's text, the
/// flattened items of a sequence or the values of a mapping; nothing for
/// `null` and tagged values.
pub open spec fn flatten_value(v: YamlValue) -> Seq<Seq<char>>
    decreases v,
{
    match v {
        YamlValue::Null => seq![],
        YamlValue::Tagged => seq![],
        YamlValue::Bool(b) => if b {
            seq![seq!['t', 'r', 'u', 'e']]
        } else {
            seq![seq!['f', 'a', 'l', 's', 'e']]
        },
        YamlValue::Number(n) => seq![n@],
        YamlValue::Str(s, nested) => {
            let t = trim(s@);
            if t.len() == 0 {
                seq![]
            } else {
                match nested {
                    Some(inner) => if looks_structured(t) {
                        flatten_value(*inner)
                    } else {
                        split_list(t)
                    },
                    None => split_list(t),
                }
            }
        },
        YamlValue::Sequence(items) => flatten_values(items@),
        YamlValue::Mapping(items) => flatten_values(items@),
    }
}

/// The values flattened in order.
pub open spec fn flatten_values(vs: Seq<YamlValue>) -> Seq<Seq<char>>
    decreases vs,
{
    if vs.len() == 0 {
        seq![]
    } else {
        flatten_values(vs.drop_last()) + flatten_value(vs.last())
    }
}

fn flatten_value_into(v: &YamlValue, out: &mut Vec<String>)
    ensures
        views(final(out)@) == views(old(out)@) + flatten_value(*v),
    decreases *v,
{
    match v {
        YamlValue::Null => {
            assert(views(out@) =~= views(out@) + Seq::<Seq<char>>::empty());
        },
        YamlValue::Tagged => {
            assert(views(out@) =~= views(out@) + Seq::<Seq<char>>::empty());
        },
        YamlValue::Bool(b) => {
            let text = if *b {
                vec!['t', 'r', 'u', 'e']
            } else {
                vec!['f', 'a', 'l', 's', 'e']
            };
            let s = string_of(text.as_slice());
            let ghost before = out@;
            out.push(s);
            proof {
                crate::text::unicode::lemma_views_push(before, s);
                assert(text@ =~= flatten_value(*v)[0]);
                assert(views(out@) =~= views(before) + flatten_value(*v));
            }
        },
        YamlValue::Number(n) => {
            let ghost before = out@;
            let s = n.clone();
            out.push(s);
            proof {
                crate::text::unicode::lemma_views_push(before, s);
                assert(views(out@) =~= views(before) + flatten_value(*v));
            }
        },
        YamlValue::Str(s, nested) => {
            let cs = chars_of(s.as_str());
            let t = trim_chars(cs.as_slice());
            if t.len() == 0 {
                assert(views(out@) =~= views(out@) + Seq::<Seq<char>>::empty());
                return;
            }
            let structured = t[0] == '{' || t[0] == '[' || (t[0] == '"' && t[t.len() - 1] == '"');
            match nested {
                Some(inner) => {
                    if structured {
                        flatten_value_into(&**inner, out);
                        return;
                    }
                },
                None => {},
            }
            let ts = string_of(t.as_slice());
            let items = split_list_text(ts.as_str());
            append_strings(out, &items);
        },
        YamlValue::Sequence(items) => {
            flatten_values_into(items.as_slice(), out);
        },
        YamlValue::Mapping(items) => {
            flatten_values_into(items.as_slice(), out);
        },
    }
}

fn flatten_values_into(values: &[YamlValue], out: &mut Vec<String>)
    ensures
        views(final(out)@) == views(old(out)@) + flatten_values(values@),
    decreases values@,
{
    let ghost start = views(out@);
    let mut i: usize = 0;
    proof {
        assert(values@.take(0) =~= Seq::<YamlValue>::empty());
        assert(start =~= start + Seq::<Seq<char>>::empty());
    }
    while i < values.len()
        invariant
            i <= values@.len(),
            views(out@) == start + flatten_values(values@.take(i as int)),
        decreases values.len() - i,
    {
        proof {
            assert(values@.take(i + 1).drop_last() =~= values@.take(i as int));
            assert(values@.take(i + 1).last() == values@[i as int]);
        }
        flatten_value_into(&values[i], out);
        proof {
            assert(views(out@) =~= start + flatten_values(values@.take(i + 1)));
        }
        i += 1;
    }
    proof {
        assert(values@.take(values@.len() as int) =~= values@);
    }
}

/// Appends copies of `items`.
fn append_strings(out: &mut Vec<String>, items: &Vec<String>)
    ensures
        views(final(out)@) == views(old(out)@) + views(items@),
{
    let ghost start = views(out@);
    let mut i: usize = 0;
    while i < items.len()
        invariant
            i <= items@.len(),
            views(out@) == start + views(items@).take(i as int),
        decreases items.len() - i,
    {
        let ghost before = out@;
        let s = items[i].clone();
        out.push(s);
        proof {
            crate::text::unicode::lemma_views_push(before, s);
            assert(views(items@).take(i + 1) =~= views(items@).take(i as int).push(items@[i as int]@));
            assert(views(out@) =~= start + views(items@).take(i + 1));
        }
        i += 1;
    }
    proof {
        assert(views(items@).take(items@.len() as int) =~= views(items@));
    }
}

/// Flattens parsed list values into strings (see [`flatten_value`]).
pub fn flatten_list_value(values: &[YamlValue]) -> (r: Vec<String>)
    ensures
        views(r@) == flatten_values(values@),
{
    let mut out: Vec<String> = Vec::new();
    flatten_values_into(values, &mut out);
    proof {
        assert(views(out@) =~= Seq::<Seq<char>>::empty() + flatten_values(values@));
    }
    out
}

// ── Dates ───────────────────────────────────────────────────────────────────

/// Whether `time::OffsetDateTime::parse` accepts `s` as an RFC 3339
/// date-time.
pub uninterp spec fn rfc3339_date_time(s: Seq<char>) -> bool;

/// Whether `time::Date::parse` accepts `s` in the format
/// `[year]-[month]-[day]`.
pub uninterp spec fn ymd_date(s: Seq<char>) -> bool;

/// Calls `time::OffsetDateTime::parse` with the well-known RFC 3339 format;
/// the contract claims only that the answer is the named one for this text.
#[verifier::external_body]
fn parses_rfc3339(value: &str) -> (b: bool)
    ensures
        b == rfc3339_date_time(value@),
{
    time::OffsetDateTime::parse(value, &time::format_description::well_known::Rfc3339).is_ok()
}

/// Calls `time::Date::parse` with the format description
/// `[year]-[month]-[day]` (built by `time::format_description::parse`,
/// which accepts that constant text); the contract claims only that the
/// answer is the named one for this text.
#[verifier::external_body]
fn parses_ymd_date(value: &str) -> (b: bool)
    ensures
        b == ymd_date(value@),
{
    match time::format_description::parse("[year]-[month]-[day]") {
        Ok(format) => time::Date::parse(value, &format).is_ok(),
        Err(_) => false,
    }
}

/// Whether a frontmatter string is a date: an RFC 3339 date-time or a
/// `YYYY-MM-DD` date.
pub open spec fn date_like(s: Seq<char>) -> bool {
    rfc3339_date_time(s) || ymd_date(s)
}

/// Whether a frontmatter string is a date (see [`date_like`]).
pub fn is_date_value(value: &str) -> (b: bool)
    ensures
        b == date_like(value@),
{
    parses_rfc3339(value) || parses_ymd_date(value)
}

// ── Aliases and tags ────────────────────────────────────────────────────────

/// The value stored under `key`, the first entry with that key.
pub open spec fn entry_of(entries: Seq<(String, YamlValue)>, key: Seq<char>) -> Option<YamlValue>
    decreases entries.len(),
{
    if entries.len() == 0 {
        None
    } else if entries[0].0@ == key {
        Some(entries[0].1)
    } else {
        entry_of(entries.drop_first(), key)
    }
}

/// The aliases a frontmatter value gives: a list's flattened items, or a
/// string's list items unless the string is a date; nothing otherwise.
pub open spec fn alias_items(v: Option<YamlValue>) -> Seq<Seq<char>> {
    match v {
        Some(YamlValue::Str(s, _)) => if date_like(s@) {
            seq![]
        } else {
            split_list(s@)
        },
        Some(YamlValue::Sequence(items)) => flatten_values(items@),
        Some(YamlValue::Mapping(items)) => flatten_values(items@),
        _ => seq![],
    }
}

/// The string items of a sequence, each split as list text.
pub open spec fn string_items(vs: Seq<YamlValue>) -> Seq<Seq<char>>
    decreases vs.len(),
{
    if vs.len() == 0 {
        seq![]
    } else {
        string_items(vs.drop_last()) + match vs.last() {
            YamlValue::Str(s, _) => split_list(s@),
            _ => seq![],
        }
    }
}

/// The tags a frontmatter value gives: a string's list items, or the list
/// items of each string in a sequence.
pub open spec fn tag_items(v: YamlValue) -> Seq<Seq<char>> {
    match v {
        YamlValue::Str(s, _) => split_list(s@),
        YamlValue::Sequence(items) => string_items(items@),
        _ => seq![],
    }
}

/// The tags of an optional frontmatter value.
pub open spec fn opt_tag_items(v: Option<YamlValue>) -> Seq<Seq<char>> {
    match v {
        Some(x) => tag_items(x),
        None => seq![],
    }
}

fn entry_value<'a>(entries: &'a [(String, YamlValue)], key: &str) -> (r: Option<&'a YamlValue>)
    ensures
        match r {
            Some(v) => entry_of(entries@, key@) == Some(*v),
            None => entry_of(entries@, key@) is None,
        },
{
    let kc = chars_of(key);
    let mut i: usize = 0;
    assert(entries@.skip(0) =~= entries@);
    while i < entries.len()
        invariant
            i <= entries@.len(),
            kc@ == key@,
            entry_of(entries@, key@) == entry_of(entries@.skip(i as int), key@),
        decreases entries.len() - i,
    {
        proof {
            assert(entries@.skip(i as int)[0] == entries@[i as int]);
            assert(entries@.skip(i as int).drop_first() =~= entries@.skip(i + 1));
        }
        let ec = chars_of(entries[i].0.as_str());
        if chars_eq(ec.as_slice(), kc.as_slice()) {
            return Some(&entries[i].1);
        }
        i += 1;
    }
    proof {
        assert(entries@.skip(i as int) =~= Seq::<(String, YamlValue)>::empty());
    }
    None
}

/// The tags of a frontmatter value given as a string or a sequence of
/// strings, each string split as list text.
pub fn extract_string_tags_from_yaml(value: &YamlValue) -> (r: Vec<String>)
    ensures
        views(r@) == tag_items(*value),
{
    match value {
        YamlValue::Str(s, _) => split_list_text(s.as_str()),
        YamlValue::Sequence(items) => {
            let mut out: Vec<String> = Vec::new();
            let mut i: usize = 0;
            proof {
                assert(items@.take(0) =~= Seq::<YamlValue>::empty());
                assert(views(out@) =~= Seq::<Seq<char>>::empty());
            }
            while i < items.len()
                invariant
                    i <= items@.len(),
                    views(out@) == string_items(items@.take(i as int)),
                decreases items.len() - i,
            {
                proof {
                    assert(items@.take(i + 1).drop_last() =~= items@.take(i as int));
                    assert(items@.take(i + 1).last() == items@[i as int]);
                }
                match &items[i] {
                    YamlValue::Str(s, _) => {
                        let parts = split_list_text(s.as_str());
                        append_strings(&mut out, &parts);
                    },
                    _ => {
                        assert(views(out@) =~= views(out@) + Seq::<Seq<char>>::empty());
                    },
                }
                i += 1;
            }
            proof {
                assert(items@.take(items@.len() as int) =~= items@);
            }
            out
        },
        _ => Vec::new(),
    }
}

fn alias_items_of(v: Option<&YamlValue>, out: &mut Vec<String>)
    ensures
        views(final(out)@) == views(old(out)@) + alias_items(
            match v {
                Some(x) => Some(*x),
                None => None,
            },
        ),
{
    match v {
        Some(YamlValue::Str(s, _)) => {
            if is_date_value(s.as_str()) {
                assert(views(out@) =~= views(out@) + Seq::<Seq<char>>::empty());
            } else {
                let parts = split_list_text(s.as_str());
                append_strings(out, &parts);
            }
        },
        Some(YamlValue::Sequence(items)) => {
            flatten_values_into(items.as_slice(), out);
        },
        Some(YamlValue::Mapping(items)) => {
            flatten_values_into(items.as_slice(), out);
        },
        _ => {
            assert(views(out@) =~= views(out@) + Seq::<Seq<char>>::empty());
        },
    }
}

/// The aliases of parsed frontmatter: the items of `aliases` then `alias`
/// ([`alias_items`]), each normalized keyword once.
pub open spec fn frontmatter_aliases(entries: Seq<(String, YamlValue)>) -> Seq<Seq<char>> {
    unique_values(
        alias_items(entry_of(entries, seq!['a', 'l', 'i', 'a', 's', 'e', 's'])) + alias_items(
            entry_of(entries, seq!['a', 'l', 'i', 'a', 's']),
        ),
    ).0
}

/// Extracts the aliases of parsed frontmatter (see
/// [`frontmatter_aliases`]).
pub fn extract_aliases(entries: &[(String, YamlValue)]) -> (r: Vec<String>)
    ensures
        views(r@) == frontmatter_aliases(entries@),
{
    let mut values: Vec<String> = Vec::new();
    let k1 = string_of(vec!['a', 'l', 'i', 'a', 's', 'e', 's'].as_slice());
    let k2 = string_of(vec!['a', 'l', 'i', 'a', 's'].as_slice());
    proof {
        assert(k1@ =~= seq!['a', 'l', 'i', 'a', 's', 'e', 's']);
        assert(k2@ =~= seq!['a', 'l', 'i', 'a', 's']);
    }
    alias_items_of(entry_value(entries, k1.as_str()), &mut values);
    alias_items_of(entry_value(entries, k2.as_str()), &mut values);
    proof {
        assert(views(values@) =~= alias_items(entry_of(entries@, k1@)) + alias_items(entry_of(entries@, k2@)));
    }
    normalize_unique_list(values, Vec::new())
}

/// The frontmatter tags of parsed frontmatter: the items of `tags` then
/// `tag` ([`tag_items`]); none when the frontmatter did not parse.
pub open spec fn frontmatter_tags(parsed: Option<Seq<(String, YamlValue)>>) -> Seq<Seq<char>> {
    match parsed {
        Some(entries) => opt_tag_items(entry_of(entries, seq!['t', 'a', 'g', 's'])) + opt_tag_items(
            entry_of(entries, seq!['t', 'a', 'g']),
        ),
        None => seq![],
    }
}

/// The frontmatter tags (see [`frontmatter_tags`]) and the inline tags of
/// the body.
pub fn extract_tags(parsed: Option<&[(String, YamlValue)]>, body: &str) -> (r: (Vec<String>, Vec<String>))
    ensures
        views(r.0@) == frontmatter_tags(
            match parsed {
                Some(es) => Some(es@),
                None => None,
            },
        ),
        views(r.1@) == crate::text::frontmatter::links::inline_tags(body@),
{
    let mut fm_tags: Vec<String> = Vec::new();
    match parsed {
        Some(entries) => {
            let k1 = string_of(vec!['t', 'a', 'g', 's'].as_slice());
            let k2 = string_of(vec!['t', 'a', 'g'].as_slice());
            proof {
                assert(k1@ =~= seq!['t', 'a', 'g', 's']);
                assert(k2@ =~= seq!['t', 'a', 'g']);
            }
            match entry_value(entries, k1.as_str()) {
                Some(v) => {
                    let t = extract_string_tags_from_yaml(v);
                    append_strings(&mut fm_tags, &t);
                },
                None => {},
            }
            let ghost mid = views(fm_tags@);
            match entry_value(entries, k2.as_str()) {
                Some(v) => {
                    let t = extract_string_tags_from_yaml(v);
                    append_strings(&mut fm_tags, &t);
                },
                None => {
                    assert(views(fm_tags@) =~= mid + Seq::<Seq<char>>::empty());
                },
            }
            proof {
                assert(views(fm_tags@) =~= opt_tag_items(entry_of(entries@, k1@)) + opt_tag_items(entry_of(entries@, k2@)));
            }
        },
        None => {
            assert(views(fm_tags@) =~= Seq::<Seq<char>>::empty());
        },
    }
    let inline = crate::text::frontmatter::links::extract_inline_tags(body);
    (fm_tags, inline)
}

// ── Faithful split ──────────────────────────────────────────────────────────

/// Whether `s` is made of whole lines: empty, or ending with a line break.
pub open spec fn whole_lines(s: Seq<char>) -> bool {
    s.len() == 0 || s.last() == '\n'
}

/// Whether the first line of `s` (up to its first line break) is blank.
pub open spec fn blank_first_line(s: Seq<char>) -> bool {
    forall|i: int| 0 <= i < index_of(s, '\n') ==> is_ws(#[trigger] s[i])
}

pub proof fn lemma_lines_of_append(a: Seq<char>, b: Seq<char>)
    requires
        whole_lines(a),
    ensures
        lines_of(a + b) == lines_of(a) + lines_of(b),
    decreases a.len(),
{
    if a.len() == 0 {
        assert(a + b =~= b);
        assert(lines_of(a) =~= Seq::<Seq<char>>::empty());
        assert(lines_of(a) + lines_of(b) =~= lines_of(b));
    } else {
        lemma_index_of_bounds(a, '\n');
        let p = index_of(a, '\n');
        if p >= a.len() {
            assert(a[a.len() - 1] == '\n');
            assert(false);
        }
        let ab = a + b;
        assert forall|j: int| 0 <= j < p implies #[trigger] ab[j] != '\n' by {
            assert(ab[j] == a[j]);
        }
        assert(ab[p as int] == a[p as int]);
        lemma_index_of(ab, '\n', p as int);
        assert(ab.take(p as int) =~= a.take(p as int));
        let rest = a.skip(p as int + 1);
        assert(ab.skip(p as int + 1) =~= rest + b);
        if rest.len() > 0 {
            assert(rest.last() == a.last());
        }
        lemma_lines_of_append(rest, b);
        assert(lines_of(ab) == seq![strip_cr(ab.take(p as int))] + lines_of(ab.skip(p as int + 1)));
        assert(lines_of(a) == seq![strip_cr(a.take(p as int))] + lines_of(rest));
        assert(lines_of(ab) =~= lines_of(a) + lines_of(b));
    }
}

pub proof fn lemma_closing_line_append(ls1: Seq<Seq<char>>, ls2: Seq<Seq<char>>)
    requires
        forall|j: int| 0 <= j < ls1.len() ==> !closes_block(#[trigger] ls1[j]),
    ensures
        closing_line(ls1 + ls2) == match closing_line(ls2) {
            Some(k) => Some(ls1.len() + k),
            None => None,
        },
    decreases ls1.len(),
{
    if ls1.len() == 0 {
        assert(ls1 + ls2 =~= ls2);
    } else {
        let d = ls1.drop_first();
        assert forall|j: int| 0 <= j < d.len() implies !closes_block(#[trigger] d[j]) by {
            assert(d[j] == ls1[j + 1]);
        }
        lemma_closing_line_append(d, ls2);
        assert((ls1 + ls2).drop_first() =~= d + ls2);
        assert((ls1 + ls2)[0] == ls1[0]);
        assert(!closes_block(ls1[0]));
    }
}

pub proof fn lemma_lines_offset_prefix(ls1: Seq<Seq<char>>, ls2: Seq<Seq<char>>, k: nat)
    requires
        k <= ls1.len(),
    ensures
        lines_offset(ls1 + ls2, k) == lines_offset(ls1, k),
    decreases k,
{
    if k > 0 {
        assert((ls1 + ls2).drop_first() =~= ls1.drop_first() + ls2);
        assert((ls1 + ls2)[0] == ls1[0]);
        lemma_lines_offset_prefix(ls1.drop_first(), ls2, (k - 1) as nat);
    }
}

/// All characters below `0x80` take one byte each.
pub proof fn lemma_byte_len_ascii(s: Seq<char>)
    requires
        forall|i: int| 0 <= i < s.len() ==> #[trigger] s[i] < '\u{80}',
    ensures
        byte_len(s) == s.len(),
    decreases s.len(),
{
    if s.len() > 0 {
        let t = s.drop_last();
        assert forall|i: int| 0 <= i < t.len() implies #[trigger] t[i] < '\u{80}' by {
            assert(t[i] == s[i]);
        }
        lemma_byte_len_ascii(t);
        lemma_byte_len_take(s, s.len() - 1);
        assert(s.take(s.len() - 1) =~= t);
        assert(s.take(s.len() as int) =~= s);
        lemma_ascii_width(s[s.len() - 1]);
    }
}

/// Whole lines without carriage returns: the offset past the last line is
/// the byte length.
pub proof fn lemma_lines_offset_whole(a: Seq<char>)
    requires
        whole_lines(a),
        !a.contains('\r'),
    ensures
        lines_offset(lines_of(a), lines_of(a).len()) == byte_len(a),
    decreases a.len(),
{
    if a.len() == 0 {
        assert(encode_utf8(a) =~= Seq::<u8>::empty());
    } else {
        lemma_index_of_bounds(a, '\n');
        let p = index_of(a, '\n');
        if p >= a.len() {
            assert(a[a.len() - 1] == '\n');
        }
        let first = a.take(p as int);
        let rest = a.skip(p as int + 1);
        if rest.len() > 0 {
            assert(rest.last() == a.last());
        }
        if rest.contains('\r') {
            let w = choose|i: int| 0 <= i < rest.len() && rest[i] == '\r';
            assert(a[p + 1 + w] == '\r');
        }
        lemma_lines_offset_whole(rest);
        if first.len() > 0 && first.last() == '\r' {
            assert(a[p - 1] == '\r');
        }
        assert(strip_cr(first) == first);
        let ls = lines_of(a);
        assert(ls == seq![first] + lines_of(rest));
        assert(ls.drop_first() =~= lines_of(rest));
        assert(ls.len() == 1 + lines_of(rest).len());
        assert(lines_offset(ls, ls.len()) == byte_len(first) + 1 + lines_offset(lines_of(rest), lines_of(rest).len()));
        assert(a =~= first + (seq!['\n'] + rest));
        lemma_encode_append(first, seq!['\n'] + rest);
        lemma_encode_append(seq!['\n'], rest);
        lemma_byte_len_single('\n');
    }
}

/// The first line of `---` followed by a blank rest closes the block.
pub proof fn lemma_dashes_line_closes(body: Seq<char>)
    requires
        blank_first_line(body),
    ensures
        lines_of(dashes() + body).len() > 0,
        closes_block(lines_of(dashes() + body)[0]),
{
    let b = dashes() + body;
    lemma_index_of_bounds(b, '\n');
    let q = index_of(b, '\n');
    assert forall|j: int| 0 <= j < 3 implies #[trigger] b[j] != '\n' by {
        assert(b[j] == '-');
    }
    if q < 3 {
        assert(b[q as int] == '-');
    }
    lemma_index_of_bounds(body, '\n');
    // the first line of `b` is `---` and then the first line of `body`
    assert forall|j: int| 0 <= j < q - 3 implies #[trigger] body[j] != '\n' by {
        assert(b[j + 3] == body[j]);
    }
    if q < b.len() {
        assert(b[q as int] == body[q - 3]);
    }
    lemma_index_of(body, '\n', q - 3);
    let line = if q < b.len() { strip_cr(b.take(q as int)) } else { strip_cr(b) };
    assert(lines_of(b)[0] == line);
    let raw_line = b.take(q as int);
    assert(q < b.len() ==> raw_line =~= b.take(q as int));
    assert(q >= b.len() ==> b.take(q as int) =~= b);
    // every character of the line after the dashes is whitespace
    assert(line.len() >= 3);
    assert forall|j: int| 3 <= j < line.len() implies is_ws(#[trigger] line[j]) by {
        assert(line[j] == b[j]);
        assert(b[j] == body[j - 3]);
    }
    assert(line[0] == '-' && line[1] == '-' && line[2] == '-');
    lemma_lead_ws(line, 0);
    assert(trim_start(line) =~= line);
    lemma_trail_ws(line, line.len() - 3);
    assert(trim(line) =~= dashes());
}

/// The split is faithful: a note made of `---`, a line break, whole lines
/// of frontmatter (without carriage returns, none of them closing the
/// block), `---`, and a body whose first line is blank, splits back into
/// exactly that body and that frontmatter text.
pub proof fn lemma_frontmatter_split_faithful(raw: Seq<char>, body: Seq<char>)
    requires
        whole_lines(raw),
        !raw.contains('\r'),
        forall|j: int| 0 <= j < lines_of(raw).len() ==> !closes_block(#[trigger] lines_of(raw)[j]),
        blank_first_line(body),
    ensures
        fm_split(seq!['-', '-', '-', '\n'] + raw + dashes() + body) == Some((body, raw)),
{
    let open = seq!['-', '-', '-', '\n'];
    let content = open + raw + dashes() + body;
    // the block opens at the start
    assert(content.subrange(0, 3) =~= dashes());
    assert(first_occurrence(content, dashes()) == Some(0nat));
    let a2 = raw + (dashes() + body);
    assert(skip_newline(content.skip(3)) =~= a2);
    lemma_lines_of_append(raw, dashes() + body);
    lemma_dashes_line_closes(body);
    let l1 = lines_of(raw);
    let l2 = lines_of(dashes() + body);
    assert(closing_line(l2) == Some(0nat));
    lemma_closing_line_append(l1, l2);
    assert(lines_of(a2) == l1 + l2);
    assert(closing_line(lines_of(a2)) == Some(l1.len()));
    lemma_lines_offset_prefix(l1, l2, l1.len());
    lemma_lines_offset_whole(raw);
    let e = byte_len(raw);
    assert(end_marker(a2) == Some(e));
    // the raw text ends at a character boundary
    assert(a2.take(raw.len() as int) =~= raw);
    let r = choose|i: int| 0 <= i <= a2.len() && byte_len(a2.take(i)) == e;
    crate::text::unicode::lemma_byte_len_prefix_unique(a2, r, raw.len() as int);
    assert(char_at_byte(a2, e) == Some(raw.len()));
    // and so does the body
    let n = (raw.len() + 7) as int;
    assert(content.take(0) =~= Seq::<char>::empty());
    assert(encode_utf8(Seq::<char>::empty()) =~= Seq::<u8>::empty());
    assert(content.take(n) =~= open + raw + dashes());
    assert forall|i: int| 0 <= i < open.len() implies #[trigger] open[i] < '\u{80}' by {}
    assert forall|i: int| 0 <= i < dashes().len() implies #[trigger] dashes()[i] < '\u{80}' by {}
    lemma_byte_len_ascii(open);
    lemma_byte_len_ascii(dashes());
    lemma_encode_append(open + raw, dashes());
    lemma_encode_append(open, raw);
    assert(byte_len(content.take(n)) == 7 + e);
    let b = choose|i: int| 0 <= i <= content.len() && byte_len(content.take(i)) == 7 + e;
    crate::text::unicode::lemma_byte_len_prefix_unique(content, b, n);
    assert(char_at_byte(content, (byte_len(content.take(0)) + 7 + e) as nat) == Some(n as nat));
    assert(content.skip(n) =~= body);
}

} // verus!
