//! Wikilink parsing helpers.

use vstd::prelude::*;

use super::unicode::{chars_of, index_of, lemma_index_of, string_of, trim, trim_chars, copy_range};


verus! {

/// Parsed components of a wikilink.
#[derive(Debug, Clone, PartialEq, Eq)]
pub struct ParsedWikiLink {
    /// Display alias (if `[[target|alias]]`).
    pub alias: Option<String>,
    /// Section heading anchor (if `[[target#heading]]`).
    pub heading: Option<String>,
    /// Raw target part before `|` or `#`.
    pub raw_target: String,
    /// The resolved target (without alias or heading).
    pub target: String,
}

/// A string option by its characters.
pub open spec fn opt_view(o: Option<String>) -> Option<Seq<char>> {
    match o {
        Some(s) => Some(s@),
        None => None,
    }
}

/// The part of `raw` before the first `|`.
pub open spec fn target_part(raw: Seq<char>) -> Seq<char> {
    raw.take(index_of(raw, '|') as int)
}

/// The part of `raw` after the first `|` (empty when there is none).
pub open spec fn alias_part(raw: Seq<char>) -> Seq<char> {
    if index_of(raw, '|') < raw.len() {
        raw.skip(index_of(raw, '|') as int + 1)
    } else {
        Seq::empty()
    }
}

/// The heading of a target part: the trimmed text after its first `#`, when
/// there is a `#` and that text is not blank.
pub open spec fn heading_of(tp: Seq<char>) -> Option<Seq<char>> {
    let h = index_of(tp, '#');
    if h < tp.len() && trim(tp.skip(h as int + 1)).len() > 0 {
        Some(trim(tp.skip(h as int + 1)))
    } else {
        None
    }
}

/// Index of the first `c` in `v`, or `v.len()` when there is none.
pub fn find_char(v: &[char], c: char) -> (k: usize)
    ensures
        k == index_of(v@, c),
        k <= v@.len(),
{
    let mut i: usize = 0;
    while i < v.len() && v[i] != c
        invariant
            i <= v@.len(),
            forall|j: int| 0 <= j < i ==> #[trigger] v@[j] != c,
        decreases v.len() - i,
    {
        i += 1;
    }
    proof {
        lemma_index_of(v@, c, i as int);
    }
    i
}

/// Parses a raw wikilink string into components.
///
/// Handles `[[target]]`, `[[target|alias]]`, and `[[target#heading]]`: the
/// alias follows the first `|`, the heading follows the first `#` before it.
pub fn parse_wikilink(raw: &str) -> (link: ParsedWikiLink)
    ensures
        link.raw_target@ == trim(target_part(raw@)),
        link.target@ == trim(target_part(raw@).take(index_of(target_part(raw@), '#') as int)),
        opt_view(link.heading) == heading_of(target_part(raw@)),
        opt_view(link.alias) == if alias_part(raw@).len() == 0 {
            None::<Seq<char>>
        } else {
            Some(trim(alias_part(raw@)))
        },
{
    let cs = chars_of(raw);
    let p = find_char(cs.as_slice(), '|');
    let tp = copy_range(cs.as_slice(), 0, p);
    let ap = if p < cs.len() { copy_range(cs.as_slice(), p + 1, cs.len()) } else { Vec::new() };
    proof {
        assert(tp@ =~= target_part(raw@));
        if p < cs@.len() {
            assert(ap@ =~= alias_part(raw@));
        } else {
            assert(ap@ =~= alias_part(raw@));
        }
    }
    let h = find_char(tp.as_slice(), '#');
    let t = copy_range(tp.as_slice(), 0, h);
    proof {
        assert(t@ =~= tp@.take(h as int));
    }
    let target = trim_chars(t.as_slice());
    let heading = if h < tp.len() {
        let after = copy_range(tp.as_slice(), h + 1, tp.len());
        proof {
            assert(after@ =~= tp@.skip(h + 1));
        }
        let ht = trim_chars(after.as_slice());
        if ht.len() == 0 {
            None
        } else {
            Some(string_of(ht.as_slice()))
        }
    } else {
        None
    };
    let alias = if ap.len() == 0 {
        None
    } else {
        let at = trim_chars(ap.as_slice());
        Some(string_of(at.as_slice()))
    };
    let rt = trim_chars(tp.as_slice());
    ParsedWikiLink {
        alias,
        heading,
        raw_target: string_of(rt.as_slice()),
        target: string_of(target.as_slice()),
    }
}

/// `s` trimmed, then stripped of one pair of matching outer quotes (`"` or `'`)
/// when it has at least two characters.
pub open spec fn unquoted(s: Seq<char>) -> Seq<char> {
    let t = trim(s);
    if t.len() >= 2 && (t[0] == '"' || t[0] == '\'') && t[0] == t.last() {
        t.subrange(1, t.len() - 1)
    } else {
        t
    }
}

/// Strips outer matching quotes from a string.
///
/// Only strips if the string starts and ends with the same quote character
/// (`"` or `'`) and has at least 2 characters after trimming.
pub fn strip_outer_quotes(value: &str) -> (r: String)
    ensures
        r@ == unquoted(value@),
{
    let cs = chars_of(value);
    let t = trim_chars(cs.as_slice());
    if t.len() >= 2 {
        let first = t[0];
        let last = t[t.len() - 1];
        if (first == '"' || first == '\'') && first == last {
            let inner = copy_range(t.as_slice(), 1, t.len() - 1);
            return string_of(inner.as_slice());
        }
    }
    string_of(t.as_slice())
}

} // verus!
