//! Ordered string sets and maps from strings to ordered string sets.
//!
//! Strings are ordered as `String`'s `Ord` orders them: lexicographically by
//! their UTF-8 bytes, which is the lexicographic order of their characters.

use vstd::prelude::*;

use crate::text::unicode::{chars_eq, chars_of, views};

verus! {

/// `a` sorts strictly before `b`.
pub open spec fn lex_lt(a: Seq<char>, b: Seq<char>) -> bool
    decreases a.len(),
{
    if a.len() == 0 {
        b.len() > 0
    } else if b.len() == 0 {
        false
    } else if a[0] != b[0] {
        a[0] < b[0]
    } else {
        lex_lt(a.drop_first(), b.drop_first())
    }
}

pub proof fn lemma_lex_irreflexive(a: Seq<char>)
    ensures
        !lex_lt(a, a),
    decreases a.len(),
{
    if a.len() > 0 {
        lemma_lex_irreflexive(a.drop_first());
    }
}

pub proof fn lemma_lex_transitive(a: Seq<char>, b: Seq<char>, c: Seq<char>)
    requires
        lex_lt(a, b),
        lex_lt(b, c),
    ensures
        lex_lt(a, c),
    decreases a.len(),
{
    if a.len() > 0 && b.len() > 0 && c.len() > 0 && a[0] == b[0] && b[0] == c[0] {
        lemma_lex_transitive(a.drop_first(), b.drop_first(), c.drop_first());
    }
}

pub proof fn lemma_lex_total(a: Seq<char>, b: Seq<char>)
    requires
        a != b,
    ensures
        lex_lt(a, b) || lex_lt(b, a),
    decreases a.len(),
{
    if a.len() > 0 && b.len() > 0 && a[0] == b[0] {
        if a.drop_first() =~= b.drop_first() {
            assert forall|i: int| 0 <= i < a.len() implies a[i] == b[i] by {
                if i > 0 {
                    assert(a[i] == a.drop_first()[i - 1]);
                    assert(b[i] == b.drop_first()[i - 1]);
                }
            }
            assert(a =~= b);
        } else {
            lemma_lex_total(a.drop_first(), b.drop_first());
        }
    } else if a.len() == 0 && b.len() == 0 {
        assert(a =~= b);
    } else if a.len() > 0 && b.len() > 0 {
        assert(a[0] < b[0] || b[0] < a[0]);
    }
}

pub proof fn lemma_lex_asymmetric(a: Seq<char>, b: Seq<char>)
    requires
        lex_lt(a, b),
    ensures
        !lex_lt(b, a),
{
    if lex_lt(b, a) {
        lemma_lex_transitive(a, b, a);
        lemma_lex_irreflexive(a);
    }
}

/// Strictly increasing, hence free of duplicates.
pub open spec fn strictly_sorted(v: Seq<Seq<char>>) -> bool {
    forall|i: int, j: int| 0 <= i < j < v.len() ==> lex_lt(#[trigger] v[i], #[trigger] v[j])
}

/// Whether `a` sorts strictly before `b` (`String`'s `<`).
pub fn lex_less(a: &[char], b: &[char]) -> (r: bool)
    ensures
        r == lex_lt(a@, b@),
{
    let mut i: usize = 0;
    proof {
        assert(a@.skip(0) =~= a@);
        assert(b@.skip(0) =~= b@);
    }
    while i < a.len() && i < b.len() && a[i] == b[i]
        invariant
            i <= a@.len(),
            i <= b@.len(),
            lex_lt(a@, b@) == lex_lt(a@.skip(i as int), b@.skip(i as int)),
        decreases a.len() - i,
    {
        proof {
            let x = a@.skip(i as int);
            let y = b@.skip(i as int);
            assert(x[0] == a@[i as int]);
            assert(y[0] == b@[i as int]);
            assert(x.drop_first() =~= a@.skip(i + 1));
            assert(y.drop_first() =~= b@.skip(i + 1));
        }
        i += 1;
    }
    let ghost x = a@.skip(i as int);
    let ghost y = b@.skip(i as int);
    if i == a.len() {
        assert(x.len() == 0);
        i < b.len()
    } else if i == b.len() {
        assert(y.len() == 0);
        false
    } else {
        assert(x[0] == a@[i as int]);
        assert(y[0] == b@[i as int]);
        a[i] < b[i]
    }
}

/// Whether `a` sorts strictly before `b`.
pub fn string_less(a: &String, b: &String) -> (r: bool)
    ensures
        r == lex_lt(a@, b@),
{
    let ac = chars_of(a.as_str());
    let bc = chars_of(b.as_str());
    lex_less(ac.as_slice(), bc.as_slice())
}

/// Inserts `x` into the sorted `v`, keeping it sorted and free of duplicates.
pub fn insert_sorted(v: &mut Vec<String>, x: String)
    requires
        strictly_sorted(views(old(v)@)),
    ensures
        strictly_sorted(views(final(v)@)),
        forall|s: Seq<char>| #[trigger] views(final(v)@).contains(s) <==> views(old(v)@).contains(s) || s == x@,
{
    let xc = chars_of(x.as_str());
    let ghost vs = views(v@);
    let mut i: usize = 0;
    while i < v.len() && string_less(&v[i], &x)
        invariant
            vs == views(v@),
            xc@ == x@,
            i <= v@.len(),
            forall|j: int| 0 <= j < i ==> lex_lt(#[trigger] vs[j], x@),
        decreases v.len() - i,
    {
        i += 1;
    }
    if i < v.len() {
        let vc = chars_of(v[i].as_str());
        if chars_eq(vc.as_slice(), xc.as_slice()) {
            proof {
                assert(vs[i as int] == x@);
                assert forall|s: Seq<char>| #[trigger] vs.contains(s) <==> vs.contains(s) || s == x@ by {
                    if s == x@ {
                        assert(vs[i as int] == s);
                    }
                }
            }
            return;
        }
        proof {
            lemma_lex_total(vs[i as int], x@);
            assert(lex_lt(x@, vs[i as int]));
        }
    }
    let ghost xv = x@;
    v.insert(i, x);
    proof {
        let nv = views(v@);
        assert(nv =~= vs.insert(i as int, xv));
        assert forall|a: int, b: int| 0 <= a < b < nv.len() implies lex_lt(#[trigger] nv[a], #[trigger] nv[b]) by {
            if b < i {
            } else if a < i && b == i {
            } else if a < i && b > i {
                assert(nv[b] == vs[b - 1]);
                if i < vs.len() {
                    if b - 1 > i {
                        lemma_lex_transitive(xv, vs[i as int], vs[b - 1]);
                    }
                    lemma_lex_transitive(vs[a], xv, vs[b - 1]);
                }
            } else if a == i {
                assert(nv[b] == vs[b - 1]);
                if b - 1 > i {
                    lemma_lex_transitive(xv, vs[i as int], vs[b - 1]);
                }
            } else {
                assert(nv[a] == vs[a - 1]);
                assert(nv[b] == vs[b - 1]);
            }
        }
        assert forall|s: Seq<char>| #[trigger] nv.contains(s) <==> vs.contains(s) || s == xv by {
            if nv.contains(s) {
                let k = choose|k: int| 0 <= k < nv.len() && #[trigger] nv[k] == s;
                if k < i {
                    assert(vs[k] == s);
                } else if k > i {
                    assert(vs[k - 1] == s);
                }
            }
            if vs.contains(s) {
                let k = choose|k: int| 0 <= k < vs.len() && #[trigger] vs[k] == s;
                if k < i {
                    assert(nv[k] == s);
                } else {
                    assert(nv[k + 1] == s);
                }
            }
            if s == xv {
                assert(nv[i as int] == s);
            }
        }
    }
}

/// A map from strings to ordered string sets, both ordered by key.
#[derive(Debug)]
pub struct StringSetMap {
    entries: Vec<(String, Vec<String>)>,
}

/// The keys of the entries, in order.
pub open spec fn entry_keys(e: Seq<(String, Vec<String>)>) -> Seq<Seq<char>> {
    e.map_values(|p: (String, Vec<String>)| p.0@)
}

/// The members of the entries' sets, in order.
pub open spec fn entry_sets(e: Seq<(String, Vec<String>)>) -> Seq<Seq<Seq<char>>> {
    e.map_values(|p: (String, Vec<String>)| views(p.1@))
}

/// Keys strictly sorted, every set strictly sorted.
pub open spec fn entries_wf(e: Seq<(String, Vec<String>)>) -> bool {
    &&& strictly_sorted(entry_keys(e))
    &&& forall|i: int| 0 <= i < e.len() ==> strictly_sorted(#[trigger] entry_sets(e)[i])
}

/// The position of the entry with key `k`.
pub open spec fn key_index(e: Seq<(String, Vec<String>)>, k: Seq<char>) -> int {
    choose|i: int| 0 <= i < e.len() && entry_keys(e)[i] == k
}

/// The map the entries stand for: each key to its ordered set.
pub open spec fn entries_map(e: Seq<(String, Vec<String>)>) -> Map<Seq<char>, Seq<Seq<char>>> {
    Map::new(|k: Seq<char>| entry_keys(e).contains(k), |k: Seq<char>| entry_sets(e)[key_index(e, k)])
}

proof fn lemma_entries_map_at(e: Seq<(String, Vec<String>)>, i: int)
    requires
        entries_wf(e),
        0 <= i < e.len(),
    ensures
        entries_map(e).dom().contains(entry_keys(e)[i]),
        entries_map(e)[entry_keys(e)[i]] == entry_sets(e)[i],
{
    let k = entry_keys(e)[i];
    assert(entry_keys(e)[i] == k);
    assert(entry_keys(e).contains(k));
    let j = key_index(e, k);
    assert(0 <= j < e.len() && entry_keys(e)[j] == k);
    if j != i {
        if j < i {
            assert(lex_lt(entry_keys(e)[j], entry_keys(e)[i]));
        } else {
            assert(lex_lt(entry_keys(e)[i], entry_keys(e)[j]));
        }
        lemma_lex_irreflexive(k);
    }
}

proof fn lemma_all_sets_sorted(e: Seq<(String, Vec<String>)>)
    requires
        entries_wf(e),
    ensures
        forall|k: Seq<char>| #[trigger] entries_map(e).dom().contains(k) ==> strictly_sorted(entries_map(e)[k]),
{
    assert forall|k: Seq<char>| #[trigger] entries_map(e).dom().contains(k) implies strictly_sorted(entries_map(e)[k]) by {
        let i = choose|i: int| 0 <= i < e.len() && entry_keys(e)[i] == k;
        lemma_entries_map_at(e, i);
    }
}

impl StringSetMap {
    #[verifier::type_invariant]
    spec fn wf(self) -> bool {
        entries_wf(self.entries@)
    }

    /// The map from each key to the ordered members of its set.
    pub closed spec fn map(self) -> Map<Seq<char>, Seq<Seq<char>>> {
        entries_map(self.entries@)
    }

    /// The empty map.
    pub fn new() -> (r: Self)
        ensures
            r.map() == Map::<Seq<char>, Seq<Seq<char>>>::empty(),
    {
        let r = StringSetMap { entries: Vec::new() };
        assert(r.map() =~= Map::<Seq<char>, Seq<Seq<char>>>::empty());
        r
    }

    /// The index of `key`'s entry, or where it would be inserted.
    fn position(&self, key: &[char]) -> (r: (usize, bool))
        ensures
            r.0 <= self.entries@.len(),
            r.1 ==> r.0 < self.entries@.len() && entry_keys(self.entries@)[r.0 as int] == key@,
            !r.1 ==> (forall|j: int| 0 <= j < r.0 ==> lex_lt(#[trigger] entry_keys(self.entries@)[j], key@))
                && (r.0 < self.entries@.len() ==> lex_lt(key@, entry_keys(self.entries@)[r.0 as int])),
            !r.1 ==> !entry_keys(self.entries@).contains(key@),
    {
        proof {
            use_type_invariant(self);
        }
        let ghost ks = entry_keys(self.entries@);
        let kstr = crate::text::unicode::string_of(key);
        let mut i: usize = 0;
        while i < self.entries.len() && string_less(&self.entries[i].0, &kstr)
            invariant
                ks == entry_keys(self.entries@),
                kstr@ == key@,
                strictly_sorted(ks),
                i <= self.entries@.len(),
                forall|j: int| 0 <= j < i ==> lex_lt(#[trigger] ks[j], key@),
            decreases self.entries.len() - i,
        {
            i += 1;
        }
        if i < self.entries.len() {
            let kc = chars_of(self.entries[i].0.as_str());
            if chars_eq(kc.as_slice(), key) {
                return (i, true);
            }
            proof {
                lemma_lex_total(ks[i as int], key@);
            }
        }
        proof {
            assert forall|j: int| 0 <= j < ks.len() implies ks[j] != key@ by {
                if j < i {
                    lemma_lex_irreflexive(key@);
                } else {
                    if j > i {
                        lemma_lex_transitive(key@, ks[i as int], ks[j]);
                    }
                    lemma_lex_irreflexive(key@);
                }
            }
        }
        (i, false)
    }

    /// The ordered set of `key`, if it has an entry.
    pub fn get(&self, key: &str) -> (r: Option<&Vec<String>>)
        ensures
            r is Some <==> self.map().dom().contains(key@),
            r matches Some(v) ==> views(v@) == self.map()[key@],
            r matches Some(v) ==> strictly_sorted(views(v@)),
    {
        proof {
            use_type_invariant(self);
            lemma_all_sets_sorted(self.entries@);
        }
        let kc = chars_of(key);
        let (i, found) = self.position(kc.as_slice());
        if found {
            proof {
                lemma_entries_map_at(self.entries@, i as int);
                assert(entry_sets(self.entries@)[i as int] == views(self.entries@[i as int].1@));
            }
            Some(&self.entries[i].1)
        } else {
            None
        }
    }

    /// Adds `member` to the set of `key`, creating the entry when needed.
    pub fn insert(&mut self, key: String, member: String)
        ensures
            final(self).map().dom() == old(self).map().dom().insert(key@),
            forall|k: Seq<char>| k != key@ && #[trigger] old(self).map().dom().contains(k) ==> final(self).map()[k] == old(self).map()[k],
            forall|s: Seq<char>| #[trigger] final(self).map()[key@].contains(s) <==> s == member@ || (old(self).map().dom().contains(key@) && old(self).map()[key@].contains(s)),
            forall|k: Seq<char>| #[trigger] final(self).map().dom().contains(k) ==> strictly_sorted(final(self).map()[k]),
    {
        proof {
            use_type_invariant(&*self);
        }
        let ghost e0 = self.entries@;
        let kc = chars_of(key.as_str());
        let (i, found) = self.position(kc.as_slice());
        let ghost kv = key@;
        let ghost mv = member@;
        if found {
            let mut entries: Vec<(String, Vec<String>)> = Vec::new();
            std::mem::swap(&mut entries, &mut self.entries);
            let (k, mut set) = entries.remove(i);
            proof {
                assert(entries_wf(e0));
                assert(entry_sets(e0)[i as int] == views(set@));
            }
            insert_sorted(&mut set, member);
            let ghost sv = views(set@);
            entries.insert(i, (k, set));
            proof {
                let e1 = entries@;
                assert(e1 =~= e0.update(i as int, (e0[i as int].0, set)));
                assert(entry_keys(e1) =~= entry_keys(e0));
                assert forall|j: int| 0 <= j < e1.len() implies strictly_sorted(#[trigger] entry_sets(e1)[j]) by {
                    if j != i {
                        assert(entry_sets(e1)[j] == entry_sets(e0)[j]);
                    }
                }
                assert(entries_wf(e1));
                lemma_entries_map_at(e0, i as int);
                lemma_entries_map_at(e1, i as int);
                assert(entries_map(e1).dom() =~= entries_map(e0).dom().insert(kv));
                assert forall|k2: Seq<char>| k2 != kv && #[trigger] entries_map(e0).dom().contains(k2) implies entries_map(e1)[k2] == entries_map(e0)[k2] by {
                    let j = choose|j: int| 0 <= j < e0.len() && entry_keys(e0)[j] == k2;
                    lemma_entries_map_at(e0, j);
                    lemma_entries_map_at(e1, j);
                }
            }
            proof {
                lemma_all_sets_sorted(entries@);
            }
            self.entries = entries;
        } else {
            let mut set: Vec<String> = Vec::new();
            set.push(member);
            proof {
                assert(views(set@) =~= seq![mv]);
            }
            let mut entries: Vec<(String, Vec<String>)> = Vec::new();
            std::mem::swap(&mut entries, &mut self.entries);
            entries.insert(i, (key, set));
            proof {
                let e1 = entries@;
                let ks0 = entry_keys(e0);
                let ks1 = entry_keys(e1);
                assert(ks1 =~= ks0.insert(i as int, kv));
                assert forall|a: int, b: int| 0 <= a < b < ks1.len() implies lex_lt(#[trigger] ks1[a], #[trigger] ks1[b]) by {
                    if b < i {
                    } else if a < i && b == i {
                    } else if a < i && b > i {
                        if b - 1 > i {
                            lemma_lex_transitive(kv, ks0[i as int], ks0[b - 1]);
                        }
                        lemma_lex_transitive(ks0[a], kv, ks0[b - 1]);
                    } else if a == i {
                        if b - 1 > i {
                            lemma_lex_transitive(kv, ks0[i as int], ks0[b - 1]);
                        }
                    } else {
                        assert(ks1[a] == ks0[a - 1]);
                        assert(ks1[b] == ks0[b - 1]);
                    }
                }
                assert forall|j: int| 0 <= j < e1.len() implies strictly_sorted(#[trigger] entry_sets(e1)[j]) by {
                    if j < i {
                        assert(entry_sets(e1)[j] == entry_sets(e0)[j]);
                    } else if j > i {
                        assert(entry_sets(e1)[j] == entry_sets(e0)[j - 1]);
                    } else {
                        assert(entry_sets(e1)[j] == seq![mv]);
                    }
                }
                assert(entries_wf(e1));
                lemma_entries_map_at(e1, i as int);
                assert forall|k2: Seq<char>| #[trigger] entries_map(e1).dom().contains(k2) <==> entries_map(e0).dom().insert(kv).contains(k2) by {
                    if ks1.contains(k2) {
                        let j = choose|j: int| 0 <= j < ks1.len() && ks1[j] == k2;
                        if j < i {
                            assert(ks0[j] == k2);
                        } else if j > i {
                            assert(ks0[j - 1] == k2);
                        }
                    }
                    if ks0.contains(k2) {
                        let j = choose|j: int| 0 <= j < ks0.len() && ks0[j] == k2;
                        if j < i {
                            assert(ks1[j] == k2);
                        } else {
                            assert(ks1[j + 1] == k2);
                        }
                    }
                }
                assert(entries_map(e1).dom() =~= entries_map(e0).dom().insert(kv));
                assert forall|k2: Seq<char>| k2 != kv && #[trigger] entries_map(e0).dom().contains(k2) implies entries_map(e1)[k2] == entries_map(e0)[k2] by {
                    let j = choose|j: int| 0 <= j < e0.len() && ks0[j] == k2;
                    lemma_entries_map_at(e0, j);
                    if j < i {
                        lemma_entries_map_at(e1, j);
                        assert(entry_sets(e1)[j] == entry_sets(e0)[j]);
                    } else {
                        lemma_entries_map_at(e1, j + 1);
                        assert(entry_sets(e1)[j + 1] == entry_sets(e0)[j]);
                    }
                }
                assert forall|s: Seq<char>| #[trigger] entries_map(e1)[kv].contains(s) <==> s == mv by {
                    if s == mv {
                        assert(seq![mv][0] == s);
                    }
                }
            }
            proof {
                lemma_all_sets_sorted(entries@);
            }
            self.entries = entries;
        }
    }
}

/// A copy of `v`.
pub(crate) fn copy_strings(v: &Vec<String>) -> (r: Vec<String>)
    ensures
        views(r@) == views(v@),
{
    let mut r: Vec<String> = Vec::new();
    let mut i: usize = 0;
    while i < v.len()
        invariant
            i <= v@.len(),
            views(r@) == views(v@.take(i as int)),
        decreases v.len() - i,
    {
        let ghost before = r@;
        r.push(v[i].clone());
        proof {
            assert(views(r@) =~= views(before).push(v@[i as int]@));
            assert(views(v@.take(i + 1)) =~= views(v@.take(i as int)).push(v@[i as int]@));
        }
        i += 1;
    }
    assert(v@.take(v@.len() as int) =~= v@);
    r
}

impl Clone for StringSetMap {
    fn clone(&self) -> (r: Self)
        ensures
            r.map() == self.map(),
    {
        proof {
            use_type_invariant(self);
        }
        let ghost e0 = self.entries@;
        let mut entries: Vec<(String, Vec<String>)> = Vec::new();
        let mut i: usize = 0;
        while i < self.entries.len()
            invariant
                e0 == self.entries@,
                i <= e0.len(),
                entry_keys(entries@) == entry_keys(e0.take(i as int)),
                entry_sets(entries@) == entry_sets(e0.take(i as int)),
            decreases self.entries.len() - i,
        {
            let k = self.entries[i].0.clone();
            let set = copy_strings(&self.entries[i].1);
            let ghost before = entries@;
            entries.push((k, set));
            proof {
                assert(entry_keys(entries@) =~= entry_keys(before).push(e0[i as int].0@));
                assert(entry_keys(e0.take(i + 1)) =~= entry_keys(e0.take(i as int)).push(e0[i as int].0@));
                assert(entry_sets(entries@) =~= entry_sets(before).push(views(e0[i as int].1@)));
                assert(entry_sets(e0.take(i + 1)) =~= entry_sets(e0.take(i as int)).push(views(e0[i as int].1@)));
            }
            i += 1;
        }
        proof {
            assert(e0.take(e0.len() as int) =~= e0);
            assert(entries@.len() == e0.len());
            assert(entries_map(entries@) =~= entries_map(e0));
        }
        StringSetMap { entries }
    }
}

} // verus!
