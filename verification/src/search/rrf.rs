//! Reciprocal Rank Fusion: the list identifiers, and the choice of the row
//! that supplies each fused result's metadata.

use vstd::prelude::*;

use crate::text::unicode::{chars_of, contains_chars, views, char_views, lemma_char_views_push};

verus! {

/// Logical RRF list identifier.
#[derive(Debug, Clone, Copy, PartialEq, Eq, Structural, Hash, PartialOrd, Ord)]
pub enum RrfList {
    /// BM25 lexical retrieval list.
    Bm25,
    /// Exact-alias retrieval list.
    ExactAlias,
    /// Fuzzy title/alias retrieval list.
    Fuzzy,
    /// Semantic (vector) retrieval list.
    Semantic,
}

/// The paths of each result list, as character sequences.
pub open spec fn list_views(lists: Seq<Vec<String>>) -> Seq<Seq<Seq<char>>> {
    lists.map_values(|v: Vec<String>| views(v@))
}

/// The rows of one list, each tagged with the list's position and its rank.
pub open spec fn row_entries(row: Seq<Seq<char>>, l: nat) -> Seq<(Seq<char>, nat, nat)> {
    Seq::new(row.len(), |i: int| (row[i], l, i as nat))
}

/// The rows of all lists in priority order: the first list's rows by rank,
/// then the second's, and so on; each tagged with its list and rank.
pub open spec fn entries_of(lists: Seq<Seq<Seq<char>>>) -> Seq<(Seq<char>, nat, nat)>
    decreases lists.len(),
{
    if lists.len() == 0 {
        seq![]
    } else {
        entries_of(lists.drop_last()) + row_entries(lists.last(), (lists.len() - 1) as nat)
    }
}

/// The paths of a sequence of tagged rows.
pub open spec fn hit_paths(h: Seq<(Seq<char>, nat, nat)>) -> Seq<Seq<char>> {
    h.map_values(|e: (Seq<char>, nat, nat)| e.0)
}

/// Of the tagged rows `es`, the first row of each path, in the order in which
/// the paths first occur.
pub open spec fn first_hits(es: Seq<(Seq<char>, nat, nat)>) -> Seq<(Seq<char>, nat, nat)>
    decreases es.len(),
{
    if es.len() == 0 {
        seq![]
    } else {
        let h = first_hits(es.drop_last());
        if hit_paths(h).contains(es.last().0) {
            h
        } else {
            h.push(es.last())
        }
    }
}

/// A hit `(path, list, rank)` as plain values.
pub open spec fn hit_views(h: Seq<(String, usize, usize)>) -> Seq<(Seq<char>, nat, nat)> {
    h.map_values(|e: (String, usize, usize)| (e.0@, e.1 as nat, e.2 as nat))
}

proof fn lemma_entries_step(lv: Seq<Seq<Seq<char>>>, l: int)
    requires
        0 <= l < lv.len(),
    ensures
        entries_of(lv.take(l + 1)) == entries_of(lv.take(l)) + row_entries(lv[l], l as nat),
{
    assert(lv.take(l + 1).drop_last() =~= lv.take(l));
}

proof fn lemma_hit_views_push(h: Seq<(String, usize, usize)>, x: (String, usize, usize))
    ensures
        hit_views(h.push(x)) == hit_views(h).push((x.0@, x.1 as nat, x.2 as nat)),
{
    assert(hit_views(h.push(x)) =~= hit_views(h).push((x.0@, x.1 as nat, x.2 as nat)));
}

proof fn lemma_hit_paths_push(h: Seq<(Seq<char>, nat, nat)>, x: (Seq<char>, nat, nat))
    ensures
        hit_paths(h.push(x)) == hit_paths(h).push(x.0),
{
    assert(hit_paths(h.push(x)) =~= hit_paths(h).push(x.0));
}

/// For each path found in `lists` (the result lists in priority order), the
/// list and rank of its first occurrence: the row that supplies the fused
/// result's title, snippet and chunk metadata. Paths come in the order in
/// which they first occur.
pub fn first_hit_by_path(lists: &[Vec<String>]) -> (hits: Vec<(String, usize, usize)>)
    ensures
        hit_views(hits@) == first_hits(entries_of(list_views(lists@))),
{
    let ghost lv = list_views(lists@);
    let mut hits: Vec<(String, usize, usize)> = Vec::new();
    let mut seen: Vec<Vec<char>> = Vec::new();
    let mut l: usize = 0;
    while l < lists.len()
        invariant
            l <= lists@.len(),
            lv == list_views(lists@),
            hit_views(hits@) == first_hits(entries_of(lv.take(l as int))),
            char_views(seen@) == hit_paths(hit_views(hits@)),
        decreases lists.len() - l,
    {
        let row = &lists[l];
        proof {
            lemma_entries_step(lv, l as int);
            assert(lv[l as int] == views(row@));
        }
        let ghost base = entries_of(lv.take(l as int));
        let ghost re = row_entries(lv[l as int], l as nat);
        assert(base + re.take(0) =~= base);
        let mut i: usize = 0;
        while i < row.len()
            invariant
                i <= row@.len(),
                l < lists@.len(),
                lv == list_views(lists@),
                row@ == lists@[l as int]@,
                re == row_entries(lv[l as int], l as nat),
                lv[l as int] == views(row@),
                hit_views(hits@) == first_hits(base + re.take(i as int)),
                char_views(seen@) == hit_paths(hit_views(hits@)),
            decreases row.len() - i,
        {
            let p = chars_of(row[i].as_str());
            let found = contains_chars(&seen, p.as_slice());
            proof {
                assert((base + re.take(i + 1)).drop_last() =~= base + re.take(i as int));
                assert((base + re.take(i + 1)).last() == re[i as int]);
                assert(re[i as int] == (row@[i as int]@, l as nat, i as nat));
            }
            if !found {
                let ghost hb = hits@;
                let ghost sb = seen@;
                let entry = (row[i].clone(), l, i);
                hits.push(entry);
                seen.push(p);
                proof {
                    lemma_hit_views_push(hb, entry);
                    lemma_char_views_push(sb, p);
                    lemma_hit_paths_push(hit_views(hb), (entry.0@, l as nat, i as nat));
                }
            }
            i += 1;
        }
        proof {
            assert(re.take(re.len() as int) =~= re);
        }
        l += 1;
    }
    proof {
        assert(lv.take(lists@.len() as int) =~= lv);
    }
    hits
}

/// Where list `l`'s rows start among [`entries_of`]: the sum of the lengths
/// of the lists before it.
pub open spec fn offset(lists: Seq<Seq<Seq<char>>>, l: int) -> nat
    decreases l,
{
    if l <= 0 {
        0
    } else {
        offset(lists, l - 1) + lists[l - 1].len()
    }
}

proof fn lemma_offset_prefix(lists: Seq<Seq<Seq<char>>>, l: int)
    requires
        0 <= l < lists.len(),
    ensures
        offset(lists.drop_last(), l) == offset(lists, l),
    decreases l,
{
    if l > 0 {
        lemma_offset_prefix(lists, l - 1);
    }
}

proof fn lemma_offset_mono(lists: Seq<Seq<Seq<char>>>, a: int, b: int)
    requires
        0 <= a <= b,
    ensures
        offset(lists, a) <= offset(lists, b),
    decreases b - a,
{
    if a < b {
        lemma_offset_mono(lists, a, b - 1);
    }
}

proof fn lemma_entries_shape(lists: Seq<Seq<Seq<char>>>)
    ensures
        entries_of(lists).len() == offset(lists, lists.len() as int),
        forall|l: int, i: int|
            0 <= l < lists.len() && 0 <= i < lists[l].len() ==> entries_of(lists)[offset(lists, l) + i]
                == (lists[l][i], l as nat, i as nat),
        forall|j: int|
            0 <= j < entries_of(lists).len() ==> {
                let e = #[trigger] entries_of(lists)[j];
                &&& e.1 < lists.len()
                &&& e.2 < lists[e.1 as int].len()
                &&& lists[e.1 as int][e.2 as int] == e.0
                &&& j == offset(lists, e.1 as int) + e.2
            },
    decreases lists.len(),
{
    if lists.len() > 0 {
        let n = lists.len() - 1;
        let prev = lists.drop_last();
        lemma_entries_shape(prev);
        assert forall|l: int| 0 <= l < n implies offset(prev, l) == offset(lists, l) by {
            lemma_offset_prefix(lists, l);
        }
        lemma_offset_prefix(lists, n);
        assert(offset(prev, n) == offset(lists, n));
        let es = entries_of(lists);
        let pe = entries_of(prev);
        let re = row_entries(lists.last(), n as nat);
        assert(es == pe + re);
        assert forall|l: int, i: int|
            0 <= l < lists.len() && 0 <= i < lists[l].len() implies es[offset(lists, l) + i] == (
            lists[l][i],
            l as nat,
            i as nat,
        ) by {
            if l < n {
                lemma_offset_mono(lists, l + 1, n);
                assert(prev[l] == lists[l]);
                assert(pe[offset(prev, l) + i] == (prev[l][i], l as nat, i as nat));
            } else {
                assert(es[offset(lists, l) + i] == re[i]);
            }
        }
        assert forall|j: int| 0 <= j < es.len() implies {
            let e = #[trigger] es[j];
            &&& e.1 < lists.len()
            &&& e.2 < lists[e.1 as int].len()
            &&& lists[e.1 as int][e.2 as int] == e.0
            &&& j == offset(lists, e.1 as int) + e.2
        } by {
            if j < pe.len() {
                let e = pe[j];
                assert(es[j] == e);
                assert(prev[e.1 as int] == lists[e.1 as int]);
                assert(offset(prev, e.1 as int) == offset(lists, e.1 as int));
            } else {
                assert(es[j] == re[j - pe.len()]);
            }
        }
    }
}

/// Where path `p` first occurs among the tagged rows `es` (`es.len()` when
/// it does not occur).
pub open spec fn pos_of(es: Seq<(Seq<char>, nat, nat)>, p: Seq<char>) -> nat
    decreases es.len(),
{
    if es.len() == 0 {
        0
    } else {
        let q = pos_of(es.drop_last(), p);
        if q < es.len() - 1 {
            q
        } else if es.last().0 == p {
            (es.len() - 1) as nat
        } else {
            es.len()
        }
    }
}

proof fn lemma_pos_of(es: Seq<(Seq<char>, nat, nat)>, p: Seq<char>)
    ensures
        pos_of(es, p) <= es.len(),
        forall|j: int| 0 <= j < pos_of(es, p) ==> (#[trigger] es[j]).0 != p,
        pos_of(es, p) < es.len() ==> es[pos_of(es, p) as int].0 == p,
    decreases es.len(),
{
    if es.len() > 0 {
        lemma_pos_of(es.drop_last(), p);
        assert forall|j: int| 0 <= j < pos_of(es, p) implies (#[trigger] es[j]).0 != p by {
            if j < es.len() - 1 {
                assert(es[j] == es.drop_last()[j]);
            }
        }
    }
}

proof fn lemma_first_hits(es: Seq<(Seq<char>, nat, nat)>)
    ensures
        forall|k1: int, k2: int|
            0 <= k1 < k2 < first_hits(es).len() ==> (#[trigger] first_hits(es)[k1]).0 != (
            #[trigger] first_hits(es)[k2]).0,
        forall|k: int|
            0 <= k < first_hits(es).len() ==> pos_of(es, (#[trigger] first_hits(es)[k]).0) < es.len()
                && es[pos_of(es, first_hits(es)[k].0) as int] == first_hits(es)[k],
        forall|j: int| 0 <= j < es.len() ==> hit_paths(first_hits(es)).contains((#[trigger] es[j]).0),
    decreases es.len(),
{
    if es.len() > 0 {
        let prev = es.drop_last();
        let h0 = first_hits(prev);
        lemma_first_hits(prev);
        let x = es.last();
        let h = first_hits(es);
        assert forall|k: int| 0 <= k < h0.len() implies pos_of(es, (#[trigger] h0[k]).0) == pos_of(
            prev,
            h0[k].0,
        ) by {}
        if hit_paths(h0).contains(x.0) {
            assert(h == h0);
            let w = choose|k: int| 0 <= k < hit_paths(h0).len() && hit_paths(h0)[k] == x.0;
            assert(h0[w].0 == x.0);
            assert forall|j: int| 0 <= j < es.len() implies hit_paths(h).contains((#[trigger] es[j]).0) by {
                if j < prev.len() {
                    assert(prev[j] == es[j]);
                } else {
                    assert(hit_paths(h)[w] == x.0);
                }
            }
        } else {
            assert(h == h0.push(x));
            lemma_pos_of(prev, x.0);
            assert forall|j: int| 0 <= j < prev.len() implies (#[trigger] prev[j]).0 != x.0 by {
                assert(hit_paths(h0).contains(prev[j].0));
            }
            if pos_of(prev, x.0) < prev.len() {
                assert(prev[pos_of(prev, x.0) as int].0 == x.0);
            }
            assert(pos_of(prev, x.0) == prev.len());
            assert(pos_of(es, x.0) == es.len() - 1);
            assert forall|k1: int, k2: int| 0 <= k1 < k2 < h.len() implies (#[trigger] h[k1]).0 != (
            #[trigger] h[k2]).0 by {
                if k2 == h0.len() {
                    assert(hit_paths(h0)[k1] == h0[k1].0);
                } else {
                    assert(h[k1] == h0[k1] && h[k2] == h0[k2]);
                }
            }
            assert forall|k: int| 0 <= k < h.len() implies pos_of(es, (#[trigger] h[k]).0) < es.len()
                && es[pos_of(es, h[k].0) as int] == h[k] by {
                if k < h0.len() {
                    assert(h[k] == h0[k]);
                }
            }
            assert forall|j: int| 0 <= j < es.len() implies hit_paths(h).contains((#[trigger] es[j]).0) by {
                if j < prev.len() {
                    assert(prev[j] == es[j]);
                    let w = choose|k: int| 0 <= k < hit_paths(h0).len() && hit_paths(h0)[k] == es[j].0;
                    assert(hit_paths(h)[w] == es[j].0);
                } else {
                    assert(hit_paths(h)[h0.len() as int] == x.0);
                }
            }
        }
    }
}

/// First hit wins: of the result lists in priority order, each fused path
/// takes its row from its first occurrence (no earlier list, and no better
/// rank in the same list, holds that path); every path of every list has
/// exactly one such row.
pub proof fn lemma_first_hit_wins(lists: Seq<Seq<Seq<char>>>)
    ensures
        forall|k: int|
            0 <= k < first_hits(entries_of(lists)).len() ==> {
                let e = #[trigger] first_hits(entries_of(lists))[k];
                &&& e.1 < lists.len()
                &&& e.2 < lists[e.1 as int].len()
                &&& lists[e.1 as int][e.2 as int] == e.0
            },
        forall|k: int, l: int, i: int|
            #![trigger first_hits(entries_of(lists))[k], lists[l][i]]
            0 <= k < first_hits(entries_of(lists)).len() && 0 <= l < lists.len() && 0 <= i
                < lists[l].len() && lists[l][i] == first_hits(entries_of(lists))[k].0 ==> {
                let e = first_hits(entries_of(lists))[k];
                e.1 < l || (e.1 == l && e.2 <= i)
            },
        forall|k1: int, k2: int|
            0 <= k1 < k2 < first_hits(entries_of(lists)).len() ==> (#[trigger] first_hits(
                entries_of(lists),
            )[k1]).0 != (#[trigger] first_hits(entries_of(lists))[k2]).0,
        forall|l: int, i: int|
            0 <= l < lists.len() && 0 <= i < lists[l].len() ==> hit_paths(
                first_hits(entries_of(lists)),
            ).contains(#[trigger] lists[l][i]),
{
    let es = entries_of(lists);
    let h = first_hits(es);
    lemma_entries_shape(lists);
    lemma_first_hits(es);
    assert forall|k: int| 0 <= k < h.len() implies {
        let e = #[trigger] h[k];
        &&& e.1 < lists.len()
        &&& e.2 < lists[e.1 as int].len()
        &&& lists[e.1 as int][e.2 as int] == e.0
    } by {
        let j = pos_of(es, h[k].0) as int;
        assert(es[j] == h[k]);
    }
    assert forall|k: int, l: int, i: int|
        #![trigger h[k], lists[l][i]]
        0 <= k < h.len() && 0 <= l < lists.len() && 0 <= i < lists[l].len() && lists[l][i]
            == h[k].0 implies {
        let e = h[k];
        e.1 < l || (e.1 == l && e.2 <= i)
    } by {
        let p = h[k].0;
        let j = pos_of(es, p) as int;
        assert(es[j] == h[k]);
        lemma_pos_of(es, p);
        let j2 = offset(lists, l) + i;
        lemma_offset_mono(lists, l + 1, lists.len() as int);
        assert(es[j2] == (lists[l][i], l as nat, i as nat));
        assert(!(j2 < j));
        let e = h[k];
        assert(j == offset(lists, e.1 as int) + e.2);
        if (e.1 as int) > l {
            lemma_offset_mono(lists, l + 1, e.1 as int);
        }
    }
    assert forall|l: int, i: int| 0 <= l < lists.len() && 0 <= i < lists[l].len() implies hit_paths(
        h,
    ).contains(#[trigger] lists[l][i]) by {
        let j = offset(lists, l) + i;
        lemma_offset_mono(lists, l + 1, lists.len() as int);
        assert(es[j] == (lists[l][i], l as nat, i as nat));
    }
}

} // verus!
