//! Query variant helpers used by the hybrid search pipeline.

use vstd::prelude::*;

use crate::text::unicode::{
    char_views, chars_of, contains_chars, join, join_chars, lemma_char_views_push, lowercase, nfd,
    split_words, strings_of, to_lowercase, to_nfd, views, words,
};

verus! {

/// A variant with its whitespace collapsed: its words joined by single spaces.
pub open spec fn collapsed(v: Seq<char>) -> Seq<char> {
    join(words(v), seq![' '])
}

/// The case- and decomposition-insensitive comparison key of a variant.
pub open spec fn variant_key(v: Seq<char>) -> Seq<char> {
    lowercase(nfd(v))
}

/// The kept variants: collapsed forms, skipping empty ones and those whose
/// key equals the key of an earlier kept one.
pub open spec fn deduped(vs: Seq<Seq<char>>) -> Seq<Seq<char>>
    decreases vs.len(),
{
    if vs.len() == 0 {
        seq![]
    } else {
        let prev = deduped(vs.drop_last());
        let n = collapsed(vs.last());
        if n.len() == 0 || prev.map_values(|p: Seq<char>| variant_key(p)).contains(variant_key(n)) {
            prev
        } else {
            prev.push(n)
        }
    }
}

/// Trims, collapses whitespace in, and dedupes a list of query variants.
/// Empty strings are dropped. Order is preserved (first occurrence wins);
/// two variants are duplicates when their NFD-lowercased forms are equal.
pub fn dedupe_query_variants(variants: &[String]) -> (out: Vec<String>)
    ensures
        views(out@) == deduped(views(variants@)),
{
    let mut kept: Vec<Vec<char>> = Vec::new();
    let mut keys: Vec<Vec<char>> = Vec::new();
    let mut i: usize = 0;
    let space = vec![' '];
    assert(space@ =~= seq![' ']);
    while i < variants.len()
        invariant
            i <= variants@.len(),
            space@ == seq![' '],
            char_views(kept@) == deduped(views(variants@).take(i as int)),
            keys@.len() == kept@.len(),
            forall|j: int| 0 <= j < keys@.len() ==> keys@[j]@ == variant_key(#[trigger] kept@[j]@),
        decreases variants.len() - i,
    {
        let cs = chars_of(variants[i].as_str());
        let ws = split_words(cs.as_slice());
        let normalized = join_chars(ws.as_slice(), space.as_slice());
        let ghost vs = views(variants@).take(i + 1);
        proof {
            assert(vs.drop_last() =~= views(variants@).take(i as int));
            assert(vs.last() == variants@[i as int]@);
        }
        if normalized.len() > 0 {
            let d = to_nfd(normalized.as_slice());
            let key = to_lowercase(d.as_slice());
            let seen = contains_chars(&keys, key.as_slice());
            let ghost prev = char_views(kept@);
            proof {
                let pk = prev.map_values(|p: Seq<char>| variant_key(p));
                assert(pk =~= char_views(keys@));
            }
            if !seen {
                let ghost before_kept = kept@;
                let ghost before_keys = keys@;
                kept.push(normalized);
                keys.push(key);
                proof {
                    lemma_char_views_push(before_kept, kept@.last());
                    assert(kept@ == before_kept.push(kept@.last()));
                    assert forall|j: int| 0 <= j < keys@.len() implies keys@[j]@ == variant_key(#[trigger] kept@[j]@) by {
                        if j < before_keys.len() {
                            assert(keys@[j] == before_keys[j]);
                            assert(kept@[j] == before_kept[j]);
                        }
                    }
                }
            }
        }
        i += 1;
    }
    proof {
        assert(views(variants@).take(variants@.len() as int) =~= views(variants@));
    }
    strings_of(&kept)
}

/// Two kept variants never share a key, and none is empty.
pub proof fn lemma_deduped_distinct(vs: Seq<Seq<char>>)
    ensures
        forall|a: int, b: int|
            0 <= a < b < deduped(vs).len() ==> variant_key(#[trigger] deduped(vs)[a]) != variant_key(
                #[trigger] deduped(vs)[b],
            ),
        forall|a: int| 0 <= a < deduped(vs).len() ==> (#[trigger] deduped(vs)[a]).len() > 0,
    decreases vs.len(),
{
    if vs.len() > 0 {
        lemma_deduped_distinct(vs.drop_last());
        let prev = deduped(vs.drop_last());
        let n = collapsed(vs.last());
        let pk = prev.map_values(|p: Seq<char>| variant_key(p));
        if !(n.len() == 0 || pk.contains(variant_key(n))) {
            let d = deduped(vs);
            assert(d == prev.push(n));
            assert forall|a: int, b: int| 0 <= a < b < d.len() implies variant_key(#[trigger] d[a])
                != variant_key(#[trigger] d[b]) by {
                if b == d.len() - 1 {
                    assert(pk[a] == variant_key(prev[a]));
                    assert(d[a] == prev[a]);
                } else {
                    assert(d[a] == prev[a] && d[b] == prev[b]);
                }
            }
            assert forall|a: int| 0 <= a < d.len() implies (#[trigger] d[a]).len() > 0 by {
                if a < prev.len() {
                    assert(d[a] == prev[a]);
                }
            }
        }
    }
}

} // verus!
