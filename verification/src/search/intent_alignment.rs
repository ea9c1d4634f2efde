//! The counting side of intent alignment: how many intent terms a result's
//! text contains, whether an intent is operational, and whether a result
//! sits in an operational collection. The weighted scores built from these
//! counts are floating point and are computed beside this library.

use vstd::prelude::*;

use crate::search::chunk_excerpt::{find_sub, first_occurrence};
use crate::text::unicode::{
    char_views, chars_of, contains_chars, lowercase, nfd, push_all, starts_with, to_lowercase, to_nfd, views,
};

verus! {

/// The text intent terms are looked for in: the title, path and snippet on
/// separate lines, NFD-decomposed and lowercased.
pub open spec fn alignment_text(title: Seq<char>, path: Seq<char>, snippet: Seq<char>) -> Seq<char> {
    lowercase(nfd(title + seq!['\n'] + path + seq!['\n'] + snippet))
}

/// How many of `terms` occur in `text`.
pub open spec fn hit_count(text: Seq<char>, terms: Seq<Seq<char>>) -> nat
    decreases terms.len(),
{
    if terms.len() == 0 {
        0
    } else {
        hit_count(text, terms.drop_last()) + if first_occurrence(text, terms.last()) is Some {
            1nat
        } else {
            0nat
        }
    }
}

/// A count as a `u32`, saturating.
pub open spec fn saturated(n: nat) -> u32 {
    if n > u32::MAX {
        u32::MAX
    } else {
        n as u32
    }
}

/// The intent terms that occur in a result's text and the number of terms,
/// each saturated to `u32`: the alignment of the result is their quotient.
pub fn intent_hits(title: &str, path: &str, snippet: &str, intent_terms: &[String]) -> (r: (u32, u32))
    ensures
        r.0 == saturated(hit_count(alignment_text(title@, path@, snippet@), views(intent_terms@))),
        r.1 == saturated(intent_terms@.len()),
{
    let mut joined = chars_of(title);
    joined.push('\n');
    let pc = chars_of(path);
    push_all(&mut joined, pc.as_slice());
    joined.push('\n');
    let sc = chars_of(snippet);
    push_all(&mut joined, sc.as_slice());
    assert(joined@ =~= title@ + seq!['\n'] + path@ + seq!['\n'] + snippet@);
    let d = to_nfd(joined.as_slice());
    let text = to_lowercase(d.as_slice());
    let ghost ts = views(intent_terms@);
    let mut hits: u32 = 0;
    let mut i: usize = 0;
    while i < intent_terms.len()
        invariant
            i <= intent_terms@.len(),
            ts == views(intent_terms@),
            hits == saturated(hit_count(text@, ts.take(i as int))),
        decreases intent_terms.len() - i,
    {
        proof {
            assert(ts.take(i + 1).drop_last() =~= ts.take(i as int));
            assert(ts.take(i + 1).last() == intent_terms@[i as int]@);
        }
        let tc = chars_of(intent_terms[i].as_str());
        if find_sub(text.as_slice(), tc.as_slice()).is_some() {
            if hits < u32::MAX {
                hits = hits + 1;
            }
        }
        i += 1;
    }
    proof {
        assert(ts.take(ts.len() as int) =~= ts);
    }
    let count: u32 = if intent_terms.len() > 4294967295 {
        4294967295
    } else {
        intent_terms.len() as u32
    };
    (hits, count)
}

/// Intent terms that mark an operational (status/project) intent.
pub open spec fn operational_terms() -> Seq<Seq<char>> {
    seq![
        seq!['a', 'c', 't', 'i', 'v', 'e'],
        seq!['b', 'l', 'o', 'c', 'k', 'e', 'r'],
        seq!['b', 'l', 'o', 'c', 'k', 'e', 'r', 's'],
        seq!['c', 'h', 'e', 'c', 'k', 'l', 'i', 's', 't'],
        seq!['c', 'u', 'r', 'r', 'e', 'n', 't'],
        seq!['n', 'e', 'x', 't'],
        seq!['p', 'r', 'o', 'j', 'e', 'c', 't'],
        seq!['s', 't', 'a', 't', 'u', 's'],
    ]
}

fn operational_term_list() -> (r: Vec<Vec<char>>)
    ensures
        char_views(r@) == operational_terms(),
{
    let r = vec![
        vec!['a', 'c', 't', 'i', 'v', 'e'],
        vec!['b', 'l', 'o', 'c', 'k', 'e', 'r'],
        vec!['b', 'l', 'o', 'c', 'k', 'e', 'r', 's'],
        vec!['c', 'h', 'e', 'c', 'k', 'l', 'i', 's', 't'],
        vec!['c', 'u', 'r', 'r', 'e', 'n', 't'],
        vec!['n', 'e', 'x', 't'],
        vec!['p', 'r', 'o', 'j', 'e', 'c', 't'],
        vec!['s', 't', 'a', 't', 'u', 's'],
    ];
    proof {
        assert(r@[0]@ =~= seq!['a', 'c', 't', 'i', 'v', 'e']);
        assert(r@[1]@ =~= seq!['b', 'l', 'o', 'c', 'k', 'e', 'r']);
        assert(r@[2]@ =~= seq!['b', 'l', 'o', 'c', 'k', 'e', 'r', 's']);
        assert(r@[3]@ =~= seq!['c', 'h', 'e', 'c', 'k', 'l', 'i', 's', 't']);
        assert(r@[4]@ =~= seq!['c', 'u', 'r', 'r', 'e', 'n', 't']);
        assert(r@[5]@ =~= seq!['n', 'e', 'x', 't']);
        assert(r@[6]@ =~= seq!['p', 'r', 'o', 'j', 'e', 'c', 't']);
        assert(r@[7]@ =~= seq!['s', 't', 'a', 't', 'u', 's']);
        assert(char_views(r@) =~= operational_terms());
    }
    r
}

/// Whether any intent term is an operational term (status, project, ...).
pub fn is_operational_intent(intent_terms: &[String]) -> (b: bool)
    ensures
        b == exists|i: int| 0 <= i < intent_terms@.len() && operational_terms().contains(#[trigger] intent_terms@[i]@),
{
    let ops = operational_term_list();
    let mut i: usize = 0;
    while i < intent_terms.len()
        invariant
            i <= intent_terms@.len(),
            char_views(ops@) == operational_terms(),
            forall|j: int| 0 <= j < i ==> !operational_terms().contains(#[trigger] intent_terms@[j]@),
        decreases intent_terms.len() - i,
    {
        let cs = chars_of(intent_terms[i].as_str());
        if contains_chars(&ops, cs.as_slice()) {
            return true;
        }
        i += 1;
    }
    false
}


/// Whether a result's path lies in an operational collection: it starts
/// with `projects/` or `artifacts/`.
pub fn in_operational_collection(path: &str) -> (b: bool)
    ensures
        b == (path@.len() >= 9 && path@.take(9) == seq!['p', 'r', 'o', 'j', 'e', 'c', 't', 's', '/'])
            || (path@.len() >= 10 && path@.take(10) == seq!['a', 'r', 't', 'i', 'f', 'a', 'c', 't', 's', '/']),
{
    let pc = chars_of(path);
    let projects: Vec<char> = vec!['p', 'r', 'o', 'j', 'e', 'c', 't', 's', '/'];
    let artifacts: Vec<char> = vec!['a', 'r', 't', 'i', 'f', 'a', 'c', 't', 's', '/'];
    assert(projects@ =~= seq!['p', 'r', 'o', 'j', 'e', 'c', 't', 's', '/']);
    assert(artifacts@ =~= seq!['a', 'r', 't', 'i', 'f', 'a', 'c', 't', 's', '/']);
    starts_with(pc.as_slice(), projects.as_slice()) || starts_with(pc.as_slice(), artifacts.as_slice())
}

} // verus!
