//! Intent helpers for disambiguating ambiguous search queries.

use vstd::prelude::*;

use crate::text::unicode::{
    alnum, byte_len, char_views, chars_of, contains_chars, copy_range, is_alphanumeric,
    lemma_byte_len_take, len_utf8, lemma_char_views_push, lowercase, nfd, push_all, string_of,
    strings_of, to_lowercase, to_nfd, trim, trim_chars, views,
};

verus! {

/// Words dropped from intent text.
pub open spec fn intent_stop_words() -> Seq<Seq<char>> {
    seq![
        seq!['a', 'm'],
        seq!['a', 'n'],
        seq!['a', 's'],
        seq!['a', 't'],
        seq!['b', 'e'],
        seq!['b', 'y'],
        seq!['d', 'o'],
        seq!['h', 'e'],
        seq!['i', 'f'],
        seq!['i', 'n'],
        seq!['i', 's'],
        seq!['i', 't'],
        seq!['m', 'e'],
        seq!['m', 'y'],
        seq!['n', 'o'],
        seq!['o', 'f'],
        seq!['o', 'n'],
        seq!['o', 'r'],
        seq!['s', 'o'],
        seq!['t', 'o'],
        seq!['u', 'p'],
        seq!['u', 's'],
        seq!['w', 'e'],
        seq!['a', 'l', 'l'],
        seq!['a', 'n', 'd'],
        seq!['a', 'n', 'y'],
        seq!['a', 'r', 'e'],
        seq!['b', 'u', 't'],
        seq!['c', 'a', 'n'],
        seq!['d', 'i', 'd'],
        seq!['f', 'o', 'r'],
        seq!['g', 'e', 't'],
        seq!['h', 'a', 's'],
        seq!['h', 'e', 'r'],
        seq!['h', 'i', 'm'],
        seq!['h', 'i', 's'],
        seq!['h', 'o', 'w'],
        seq!['i', 't', 's'],
        seq!['l', 'e', 't'],
        seq!['m', 'a', 'y'],
        seq!['n', 'o', 't'],
        seq!['o', 'u', 'r'],
        seq!['o', 'u', 't'],
        seq!['t', 'h', 'e'],
        seq!['t', 'o', 'o'],
        seq!['w', 'a', 's'],
        seq!['w', 'h', 'o'],
        seq!['w', 'h', 'y'],
        seq!['y', 'o', 'u'],
        seq!['a', 'l', 's', 'o'],
        seq!['d', 'o', 'e', 's'],
        seq!['f', 'i', 'n', 'd'],
        seq!['f', 'r', 'o', 'm'],
        seq!['h', 'a', 'v', 'e'],
        seq!['i', 'n', 't', 'o'],
        seq!['m', 'o', 'r', 'e'],
        seq!['n', 'e', 'e', 'd'],
        seq!['s', 'h', 'o', 'w'],
        seq!['s', 'o', 'm', 'e'],
        seq!['t', 'e', 'l', 'l'],
        seq!['t', 'h', 'a', 't'],
        seq!['t', 'h', 'e', 'm'],
        seq!['t', 'h', 'i', 's'],
        seq!['w', 'a', 'n', 't'],
        seq!['w', 'h', 'a', 't'],
        seq!['w', 'h', 'e', 'n'],
        seq!['w', 'i', 'l', 'l'],
        seq!['w', 'i', 't', 'h'],
        seq!['y', 'o', 'u', 'r'],
        seq!['a', 'b', 'o', 'u', 't'],
        seq!['l', 'o', 'o', 'k', 'i', 'n', 'g'],
        seq!['n', 'o', 't', 'e', 's'],
        seq!['s', 'e', 'a', 'r', 'c', 'h'],
        seq!['w', 'h', 'e', 'r', 'e'],
        seq!['w', 'h', 'i', 'c', 'h'],
    ]
}

fn stop_word_list() -> (r: Vec<Vec<char>>)
    ensures
        char_views(r@) == intent_stop_words(),
{
    let r = vec![
        vec!['a', 'm'],
        vec!['a', 'n'],
        vec!['a', 's'],
        vec!['a', 't'],
        vec!['b', 'e'],
        vec!['b', 'y'],
        vec!['d', 'o'],
        vec!['h', 'e'],
        vec!['i', 'f'],
        vec!['i', 'n'],
        vec!['i', 's'],
        vec!['i', 't'],
        vec!['m', 'e'],
        vec!['m', 'y'],
        vec!['n', 'o'],
        vec!['o', 'f'],
        vec!['o', 'n'],
        vec!['o', 'r'],
        vec!['s', 'o'],
        vec!['t', 'o'],
        vec!['u', 'p'],
        vec!['u', 's'],
        vec!['w', 'e'],
        vec!['a', 'l', 'l'],
        vec!['a', 'n', 'd'],
        vec!['a', 'n', 'y'],
        vec!['a', 'r', 'e'],
        vec!['b', 'u', 't'],
        vec!['c', 'a', 'n'],
        vec!['d', 'i', 'd'],
        vec!['f', 'o', 'r'],
        vec!['g', 'e', 't'],
        vec!['h', 'a', 's'],
        vec!['h', 'e', 'r'],
        vec!['h', 'i', 'm'],
        vec!['h', 'i', 's'],
        vec!['h', 'o', 'w'],
        vec!['i', 't', 's'],
        vec!['l', 'e', 't'],
        vec!['m', 'a', 'y'],
        vec!['n', 'o', 't'],
        vec!['o', 'u', 'r'],
        vec!['o', 'u', 't'],
        vec!['t', 'h', 'e'],
        vec!['t', 'o', 'o'],
        vec!['w', 'a', 's'],
        vec!['w', 'h', 'o'],
        vec!['w', 'h', 'y'],
        vec!['y', 'o', 'u'],
        vec!['a', 'l', 's', 'o'],
        vec!['d', 'o', 'e', 's'],
        vec!['f', 'i', 'n', 'd'],
        vec!['f', 'r', 'o', 'm'],
        vec!['h', 'a', 'v', 'e'],
        vec!['i', 'n', 't', 'o'],
        vec!['m', 'o', 'r', 'e'],
        vec!['n', 'e', 'e', 'd'],
        vec!['s', 'h', 'o', 'w'],
        vec!['s', 'o', 'm', 'e'],
        vec!['t', 'e', 'l', 'l'],
        vec!['t', 'h', 'a', 't'],
        vec!['t', 'h', 'e', 'm'],
        vec!['t', 'h', 'i', 's'],
        vec!['w', 'a', 'n', 't'],
        vec!['w', 'h', 'a', 't'],
        vec!['w', 'h', 'e', 'n'],
        vec!['w', 'i', 'l', 'l'],
        vec!['w', 'i', 't', 'h'],
        vec!['y', 'o', 'u', 'r'],
        vec!['a', 'b', 'o', 'u', 't'],
        vec!['l', 'o', 'o', 'k', 'i', 'n', 'g'],
        vec!['n', 'o', 't', 'e', 's'],
        vec!['s', 'e', 'a', 'r', 'c', 'h'],
        vec!['w', 'h', 'e', 'r', 'e'],
        vec!['w', 'h', 'i', 'c', 'h'],
    ];
    proof {
        assert(r@[0]@ =~= seq!['a', 'm']);
        assert(r@[1]@ =~= seq!['a', 'n']);
        assert(r@[2]@ =~= seq!['a', 's']);
        assert(r@[3]@ =~= seq!['a', 't']);
        assert(r@[4]@ =~= seq!['b', 'e']);
        assert(r@[5]@ =~= seq!['b', 'y']);
        assert(r@[6]@ =~= seq!['d', 'o']);
        assert(r@[7]@ =~= seq!['h', 'e']);
        assert(r@[8]@ =~= seq!['i', 'f']);
        assert(r@[9]@ =~= seq!['i', 'n']);
        assert(r@[10]@ =~= seq!['i', 's']);
        assert(r@[11]@ =~= seq!['i', 't']);
        assert(r@[12]@ =~= seq!['m', 'e']);
        assert(r@[13]@ =~= seq!['m', 'y']);
        assert(r@[14]@ =~= seq!['n', 'o']);
        assert(r@[15]@ =~= seq!['o', 'f']);
        assert(r@[16]@ =~= seq!['o', 'n']);
        assert(r@[17]@ =~= seq!['o', 'r']);
        assert(r@[18]@ =~= seq!['s', 'o']);
        assert(r@[19]@ =~= seq!['t', 'o']);
        assert(r@[20]@ =~= seq!['u', 'p']);
        assert(r@[21]@ =~= seq!['u', 's']);
        assert(r@[22]@ =~= seq!['w', 'e']);
        assert(r@[23]@ =~= seq!['a', 'l', 'l']);
        assert(r@[24]@ =~= seq!['a', 'n', 'd']);
        assert(r@[25]@ =~= seq!['a', 'n', 'y']);
        assert(r@[26]@ =~= seq!['a', 'r', 'e']);
        assert(r@[27]@ =~= seq!['b', 'u', 't']);
        assert(r@[28]@ =~= seq!['c', 'a', 'n']);
        assert(r@[29]@ =~= seq!['d', 'i', 'd']);
        assert(r@[30]@ =~= seq!['f', 'o', 'r']);
        assert(r@[31]@ =~= seq!['g', 'e', 't']);
        assert(r@[32]@ =~= seq!['h', 'a', 's']);
        assert(r@[33]@ =~= seq!['h', 'e', 'r']);
        assert(r@[34]@ =~= seq!['h', 'i', 'm']);
        assert(r@[35]@ =~= seq!['h', 'i', 's']);
        assert(r@[36]@ =~= seq!['h', 'o', 'w']);
        assert(r@[37]@ =~= seq!['i', 't', 's']);
        assert(r@[38]@ =~= seq!['l', 'e', 't']);
        assert(r@[39]@ =~= seq!['m', 'a', 'y']);
        assert(r@[40]@ =~= seq!['n', 'o', 't']);
        assert(r@[41]@ =~= seq!['o', 'u', 'r']);
        assert(r@[42]@ =~= seq!['o', 'u', 't']);
        assert(r@[43]@ =~= seq!['t', 'h', 'e']);
        assert(r@[44]@ =~= seq!['t', 'o', 'o']);
        assert(r@[45]@ =~= seq!['w', 'a', 's']);
        assert(r@[46]@ =~= seq!['w', 'h', 'o']);
        assert(r@[47]@ =~= seq!['w', 'h', 'y']);
        assert(r@[48]@ =~= seq!['y', 'o', 'u']);
        assert(r@[49]@ =~= seq!['a', 'l', 's', 'o']);
        assert(r@[50]@ =~= seq!['d', 'o', 'e', 's']);
        assert(r@[51]@ =~= seq!['f', 'i', 'n', 'd']);
        assert(r@[52]@ =~= seq!['f', 'r', 'o', 'm']);
        assert(r@[53]@ =~= seq!['h', 'a', 'v', 'e']);
        assert(r@[54]@ =~= seq!['i', 'n', 't', 'o']);
        assert(r@[55]@ =~= seq!['m', 'o', 'r', 'e']);
        assert(r@[56]@ =~= seq!['n', 'e', 'e', 'd']);
        assert(r@[57]@ =~= seq!['s', 'h', 'o', 'w']);
        assert(r@[58]@ =~= seq!['s', 'o', 'm', 'e']);
        assert(r@[59]@ =~= seq!['t', 'e', 'l', 'l']);
        assert(r@[60]@ =~= seq!['t', 'h', 'a', 't']);
        assert(r@[61]@ =~= seq!['t', 'h', 'e', 'm']);
        assert(r@[62]@ =~= seq!['t', 'h', 'i', 's']);
        assert(r@[63]@ =~= seq!['w', 'a', 'n', 't']);
        assert(r@[64]@ =~= seq!['w', 'h', 'a', 't']);
        assert(r@[65]@ =~= seq!['w', 'h', 'e', 'n']);
        assert(r@[66]@ =~= seq!['w', 'i', 'l', 'l']);
        assert(r@[67]@ =~= seq!['w', 'i', 't', 'h']);
        assert(r@[68]@ =~= seq!['y', 'o', 'u', 'r']);
        assert(r@[69]@ =~= seq!['a', 'b', 'o', 'u', 't']);
        assert(r@[70]@ =~= seq!['l', 'o', 'o', 'k', 'i', 'n', 'g']);
        assert(r@[71]@ =~= seq!['n', 'o', 't', 'e', 's']);
        assert(r@[72]@ =~= seq!['s', 'e', 'a', 'r', 'c', 'h']);
        assert(r@[73]@ =~= seq!['w', 'h', 'e', 'r', 'e']);
        assert(r@[74]@ =~= seq!['w', 'h', 'i', 'c', 'h']);
        assert(char_views(r@) =~= intent_stop_words());
    }
    r
}


/// The pieces of `s` between characters that are not alphanumeric
/// (`str::split` with a predicate; empty pieces included).
pub open spec fn alnum_pieces(s: Seq<char>) -> Seq<Seq<char>>
    decreases s.len(),
{
    if s.len() == 0 {
        seq![seq![]]
    } else {
        let prev = alnum_pieces(s.drop_last());
        if alnum(s.last()) {
            prev.drop_last().push(prev.last().push(s.last()))
        } else {
            prev.push(seq![])
        }
    }
}

/// The pieces kept as terms: longer than one byte and not stop words.
pub open spec fn keep_terms(ps: Seq<Seq<char>>) -> Seq<Seq<char>>
    decreases ps.len(),
{
    if ps.len() == 0 {
        seq![]
    } else {
        let prev = keep_terms(ps.drop_last());
        let p = ps.last();
        if byte_len(p) > 1 && !intent_stop_words().contains(p) {
            prev.push(p)
        } else {
            prev
        }
    }
}

/// The terms of an intent: its NFD-lowercased form split at
/// non-alphanumeric characters, without one-byte pieces and stop words.
pub open spec fn intent_terms(intent: Seq<char>) -> Seq<Seq<char>> {
    keep_terms(alnum_pieces(lowercase(nfd(intent))))
}

pub proof fn lemma_alnum_pieces_nonempty(s: Seq<char>)
    ensures
        alnum_pieces(s).len() >= 1,
    decreases s.len(),
{
    if s.len() > 0 {
        lemma_alnum_pieces_nonempty(s.drop_last());
    }
}

/// Extracts meaningful lowercase terms from an intent string.
pub fn extract_terms(intent: &str) -> (terms: Vec<String>)
    ensures
        views(terms@) == intent_terms(intent@),
{
    let cs = chars_of(intent);
    let d = to_nfd(cs.as_slice());
    let low = to_lowercase(d.as_slice());
    let low_text = string_of(low.as_slice());
    let _total = crate::text::unicode::str_byte_len(low_text.as_str());
    let stop = stop_word_list();
    let mut out: Vec<Vec<char>> = Vec::new();
    let mut cur: Vec<char> = Vec::new();
    let mut cur_bytes: usize = 0;
    let mut i: usize = 0;
    let ghost s = low@;
    proof {
        assert(s.take(0) =~= Seq::<char>::empty());
        assert(vstd::utf8::encode_utf8(Seq::<char>::empty()) =~= Seq::<u8>::empty());
        assert(alnum_pieces(s.take(0)) == seq![Seq::<char>::empty()]);
        assert(alnum_pieces(s.take(0)).drop_last() =~= Seq::<Seq<char>>::empty());
    }
    while i < low.len()
        invariant
            s == low@,
            i <= s.len(),
            char_views(stop@) == intent_stop_words(),
            alnum_pieces(s.take(i as int)).len() >= 1,
            char_views(out@) == keep_terms(alnum_pieces(s.take(i as int)).drop_last()),
            cur@ == alnum_pieces(s.take(i as int)).last(),
            cur_bytes == byte_len(cur@),
            cur_bytes <= byte_len(s.take(i as int)),
            byte_len(s) <= usize::MAX,
        decreases low.len() - i,
    {
        let c = low[i];
        let ghost ps = alnum_pieces(s.take(i as int));
        proof {
            assert(s.take(i + 1).drop_last() =~= s.take(i as int));
            assert(s.take(i + 1).last() == c);
            lemma_byte_len_take(s, i as int);
            crate::text::unicode::lemma_byte_len_prefix(s, i + 1);
        }
        if is_alphanumeric(c) {
            proof {
                assert(cur@.push(c) =~= cur@ + seq![c]);
                crate::text::unicode::lemma_encode_append(cur@, seq![c]);
                crate::text::unicode::lemma_byte_len_single(c);
            }
            cur.push(c);
            cur_bytes = cur_bytes + len_utf8(c);
            proof {
                let ps2 = alnum_pieces(s.take(i + 1));
                assert(ps2.drop_last() =~= ps.drop_last());
            }
        } else {
            let ghost before = out@;
            if cur_bytes > 1 && !contains_chars(&stop, cur.as_slice()) {
                let piece = copy_range(cur.as_slice(), 0, cur.len());
                assert(piece@ =~= cur@);
                out.push(piece);
                proof {
                    lemma_char_views_push(before, piece);
                }
            }
            proof {
                let ps2 = alnum_pieces(s.take(i + 1));
                assert(ps2 == ps.push(seq![]));
                assert(ps2.drop_last() =~= ps);
                assert(ps == ps.drop_last().push(ps.last()));
                assert(vstd::utf8::encode_utf8(Seq::<char>::empty()) =~= Seq::<u8>::empty());
            }
            cur = Vec::new();
            cur_bytes = 0;
        }
        i += 1;
    }
    let ghost ps = alnum_pieces(s);
    proof {
        assert(s.take(s.len() as int) =~= s);
        assert(ps == ps.drop_last().push(ps.last()));
    }
    if cur_bytes > 1 && !contains_chars(&stop, cur.as_slice()) {
        let ghost before = out@;
        let piece = copy_range(cur.as_slice(), 0, cur.len());
        assert(piece@ =~= cur@);
        out.push(piece);
        proof {
            lemma_char_views_push(before, piece);
        }
    }
    strings_of(&out)
}

/// The trimmed intent, when it is not blank.
pub open spec fn normalized_intent(intent: Seq<char>) -> Option<Seq<char>> {
    if trim(intent).len() == 0 {
        None
    } else {
        Some(trim(intent))
    }
}

pub open spec fn intent_label() -> Seq<char> {
    seq!['I', 'n', 't', 'e', 'n', 't', ':', ' ']
}

pub open spec fn query_label() -> Seq<char> {
    seq!['\n', '\n', 'Q', 'u', 'e', 'r', 'y', ':', ' ']
}

/// Prepends intent context to a sidecar query string when present:
/// `"Intent: {intent}\n\nQuery: {query}"` for a non-blank intent.
pub fn prefix_query(intent: Option<&str>, query: &str) -> (r: String)
    ensures
        r@ == match intent {
            Some(i) => match normalized_intent(i@) {
                Some(t) => intent_label() + t + query_label() + query@,
                None => query@,
            },
            None => query@,
        },
{
    let qs = chars_of(query);
    match intent {
        Some(i) => {
            let cs = chars_of(i);
            let t = trim_chars(cs.as_slice());
            if t.len() == 0 {
                return string_of(qs.as_slice());
            }
            let mut out: Vec<char> = vec!['I', 'n', 't', 'e', 'n', 't', ':', ' '];
            let ghost o0 = out@;
            push_all(&mut out, t.as_slice());
            let label = vec!['\n', '\n', 'Q', 'u', 'e', 'r', 'y', ':', ' '];
            push_all(&mut out, label.as_slice());
            push_all(&mut out, qs.as_slice());
            proof {
                assert(o0 =~= intent_label());
                assert(label@ =~= query_label());
            }
            string_of(out.as_slice())
        },
        None => string_of(qs.as_slice()),
    }
}

/// Trims and normalizes optional intent text.
pub fn normalize_optional(intent: Option<String>) -> (r: Option<String>)
    ensures
        match intent {
            Some(i) => match r {
                Some(x) => normalized_intent(i@) == Some(x@),
                None => normalized_intent(i@).is_none(),
            },
            None => r.is_none(),
        },
{
    match intent {
        Some(value) => normalize(value.as_str()),
        None => None,
    }
}

/// The trimmed intent, or `None` when blank.
fn normalize(intent: &str) -> (r: Option<String>)
    ensures
        match r {
            Some(x) => normalized_intent(intent@) == Some(x@),
            None => normalized_intent(intent@).is_none(),
        },
{
    let cs = chars_of(intent);
    let t = trim_chars(cs.as_slice());
    if t.len() == 0 {
        None
    } else {
        Some(string_of(t.as_slice()))
    }
}

} // verus!
