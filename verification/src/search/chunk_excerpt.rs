//! Focused excerpts of long chunks, centred on the best-weighted term match.

use vstd::prelude::*;

use crate::search::constants::DEFAULT_SNIPPET_LENGTH;
use crate::text::unicode::{chars_of, copy_range, lowercase, nfd, push_all, string_of, to_lowercase, to_nfd, views};

verus! {

/// Weight of a query term when choosing the excerpt anchor.
pub const CHUNK_QUERY_TERM_WEIGHT: u32 = 1;

/// Weight of an intent term when choosing the excerpt anchor.
pub const CHUNK_INTENT_TERM_WEIGHT: u32 = 5;

/// The first index at or after `i` where `p` occurs in `s` (`str::find`).
pub open spec fn occurrence_from(s: Seq<char>, p: Seq<char>, i: int) -> Option<nat>
    decreases s.len() + 1 - i,
{
    if i < 0 || i + p.len() > s.len() {
        None
    } else if s.subrange(i, i + p.len()) == p {
        Some(i as nat)
    } else {
        occurrence_from(s, p, i + 1)
    }
}

/// The first index where `p` occurs in `s`.
pub open spec fn first_occurrence(s: Seq<char>, p: Seq<char>) -> Option<nat> {
    occurrence_from(s, p, 0)
}

pub proof fn lemma_occurrence_from_bounds(s: Seq<char>, p: Seq<char>, i: int, r: int)
    requires
        r >= 0,
        occurrence_from(s, p, i) == Some(r as nat),
    ensures
        i <= r,
        r + p.len() <= s.len(),
        s.subrange(r, r + p.len()) == p,
    decreases s.len() + 1 - i,
{
    if !(i < 0 || i + p.len() > s.len()) && s.subrange(i, i + p.len()) != p {
        lemma_occurrence_from_bounds(s, p, i + 1, r);
    }
}

/// A first occurrence of `p` lies within `s` and is `p`.
pub proof fn lemma_first_occurrence_bounds(s: Seq<char>, p: Seq<char>, r: int)
    requires
        0 <= r,
        first_occurrence(s, p) == Some(r as nat),
    ensures
        r + p.len() <= s.len(),
        s.subrange(r, r + p.len()) == p,
{
    lemma_occurrence_from_bounds(s, p, 0, r);
}

/// Keeps `best` unless a match of weight `w` at `at` beats it: a higher
/// weight, or the same weight at an earlier index.
pub open spec fn consider(best: Option<(nat, nat)>, w: nat, at: nat) -> Option<(nat, nat)> {
    match best {
        Some((bw, bi)) => if w < bw || (w == bw && at >= bi) {
            best
        } else {
            Some((w, at))
        },
        None => Some((w, at)),
    }
}

/// `best` updated with the first match of each term in turn, each of weight `w`.
pub open spec fn fold_terms(
    norm: Seq<char>,
    terms: Seq<Seq<char>>,
    w: nat,
    best: Option<(nat, nat)>,
) -> Option<(nat, nat)>
    decreases terms.len(),
{
    if terms.len() == 0 {
        best
    } else {
        let b = fold_terms(norm, terms.drop_last(), w, best);
        match first_occurrence(norm, terms.last()) {
            Some(at) => consider(b, w, at),
            None => b,
        }
    }
}

/// The character index the excerpt is centred on: query terms are weighed
/// first, then intent terms, in the NFD-lowercased text.
pub open spec fn excerpt_anchor(
    text: Seq<char>,
    query_terms: Seq<Seq<char>>,
    intent_terms: Seq<Seq<char>>,
) -> Option<nat> {
    let norm = lowercase(nfd(text));
    let q = fold_terms(norm, query_terms, CHUNK_QUERY_TERM_WEIGHT as nat, None);
    match fold_terms(norm, intent_terms, CHUNK_INTENT_TERM_WEIGHT as nat, q) {
        Some((_, at)) => Some(at),
        None => None,
    }
}

/// `"..."`.
pub open spec fn ellipsis() -> Seq<char> {
    seq!['.', '.', '.']
}

/// The excerpt: the text itself when it fits the snippet length; its first
/// snippet-length characters when no term matches; else a window of snippet
/// length starting a third of a snippet before the anchor (but no later than
/// the last full window), with `...` marking each side that was cut.
pub open spec fn chunk_excerpt(
    text: Seq<char>,
    query_terms: Seq<Seq<char>>,
    intent_terms: Seq<Seq<char>>,
) -> Seq<char> {
    let n = text.len();
    let len = DEFAULT_SNIPPET_LENGTH as nat;
    if n <= len {
        text
    } else {
        match excerpt_anchor(text, query_terms, intent_terms) {
            None => text.take(len as int),
            Some(a) => {
                let back = if a >= len / 3 { a - len / 3 } else { 0 };
                let start = if back <= n - len { back } else { n - len };
                let end = start + len;
                (if start > 0 { ellipsis() } else { seq![] }) + text.subrange(start, end) + (if end
                    < n { ellipsis() } else { seq![] })
            },
        }
    }
}

/// The first index where `p` occurs in `s`.
pub(crate) fn find_sub(s: &[char], p: &[char]) -> (r: Option<usize>)
    ensures
        r matches Some(i) ==> first_occurrence(s@, p@) == Some(i as nat),
        r is None ==> first_occurrence(s@, p@) is None,
{
    if p.len() > s.len() {
        return None;
    }
    let last = s.len() - p.len();
    let mut i: usize = 0;
    while i <= last
        invariant
            last == s@.len() - p@.len(),
            s@.len() <= usize::MAX,
            i <= last + 1,
            occurrence_from(s@, p@, 0) == occurrence_from(s@, p@, i as int),
        decreases last + 1 - i,
    {
        let mut j: usize = 0;
        while j < p.len() && s[i + j] == p[j]
            invariant
                i <= last,
                i + p@.len() <= s@.len() <= usize::MAX,
                last == s@.len() - p@.len(),
                j <= p@.len(),
                forall|t: int| 0 <= t < j ==> s@[i + t] == p@[t],
            decreases p.len() - j,
        {
            j += 1;
        }
        if j == p.len() {
            assert(s@.subrange(i as int, i + p@.len()) =~= p@);
            return Some(i);
        }
        assert(s@.subrange(i as int, i + p@.len())[j as int] != p@[j as int]);
        i += 1;
    }
    None
}

/// The best anchor after weighing `terms` with weight `w`, starting from `best`.
fn fold_terms_exec(norm: &[char], terms: &[String], w: u32, best: Option<(u32, usize)>) -> (r: Option<(u32, usize)>)
    ensures
        opt_pair(r) == fold_terms(norm@, views(terms@), w as nat, opt_pair(best)),
{
    let mut b = best;
    let mut i: usize = 0;
    while i < terms.len()
        invariant
            i <= terms@.len(),
            opt_pair(b) == fold_terms(norm@, views(terms@).take(i as int), w as nat, opt_pair(best)),
        decreases terms.len() - i,
    {
        proof {
            let ts = views(terms@).take(i + 1);
            assert(ts.drop_last() =~= views(terms@).take(i as int));
            assert(ts.last() == terms@[i as int]@);
        }
        let term = chars_of(terms[i].as_str());
        match find_sub(norm, term.as_slice()) {
            Some(at) => {
                match b {
                    Some((bw, bi)) => {
                        if !(w < bw || (w == bw && at >= bi)) {
                            b = Some((w, at));
                        }
                    },
                    None => {
                        b = Some((w, at));
                    },
                }
            },
            None => {},
        }
        i += 1;
    }
    proof {
        assert(views(terms@).take(terms@.len() as int) =~= views(terms@));
    }
    b
}

/// A machine pair as a pair of naturals.
pub open spec fn opt_pair(o: Option<(u32, usize)>) -> Option<(nat, nat)> {
    match o {
        Some((w, i)) => Some((w as nat, i as nat)),
        None => None,
    }
}

/// The character index the excerpt is centred on, if any term matches.
fn best_excerpt_anchor(text: &str, query_terms: &[String], intent_terms: &[String]) -> (r: Option<usize>)
    ensures
        r matches Some(a) ==> excerpt_anchor(text@, views(query_terms@), views(intent_terms@)) == Some(a as nat),
        r is None ==> excerpt_anchor(text@, views(query_terms@), views(intent_terms@)) is None,
{
    let cs = chars_of(text);
    let d = to_nfd(cs.as_slice());
    let norm = to_lowercase(d.as_slice());
    let q = fold_terms_exec(norm.as_slice(), query_terms, CHUNK_QUERY_TERM_WEIGHT, None);
    let b = fold_terms_exec(norm.as_slice(), intent_terms, CHUNK_INTENT_TERM_WEIGHT, q);
    match b {
        Some((_, at)) => Some(at),
        None => None,
    }
}

/// A window of [`DEFAULT_SNIPPET_LENGTH`] characters of `text`, centred on
/// the best match of the intent terms (weighed above the query terms), with
/// `...` where the text was cut. Text that fits is returned whole.
pub fn focused_chunk_excerpt(text: &str, query_terms: &[String], intent_terms: &[String]) -> (r: String)
    ensures
        r@ == chunk_excerpt(text@, views(query_terms@), views(intent_terms@)),
{
    let cs = chars_of(text);
    let n = cs.len();
    let len = DEFAULT_SNIPPET_LENGTH as usize;
    if n <= len {
        return string_of(cs.as_slice());
    }
    match best_excerpt_anchor(text, query_terms, intent_terms) {
        None => {
            let head = copy_range(cs.as_slice(), 0, len);
            assert(head@ =~= cs@.take(len as int));
            string_of(head.as_slice())
        },
        Some(a) => {
            let back = if a >= len / 3 { a - len / 3 } else { 0 };
            let start = if back <= n - len { back } else { n - len };
            let end = start + len;
            let mut out: Vec<char> = Vec::new();
            if start > 0 {
                out.push('.');
                out.push('.');
                out.push('.');
            }
            let body = copy_range(cs.as_slice(), start, end);
            push_all(&mut out, body.as_slice());
            if end < n {
                out.push('.');
                out.push('.');
                out.push('.');
            }
            proof {
                let pre: Seq<char> = if start > 0 { ellipsis() } else { seq![] };
                let post: Seq<char> = if end < n { ellipsis() } else { seq![] };
                assert(out@ =~= pre + cs@.subrange(start as int, end as int) + post);
            }
            string_of(out.as_slice())
        },
    }
}

} // verus!
