//! Frontmatter store types, keyword normalization and reverse indexes.
//!
//! Wikilink and inline-tag extraction live in [`links`]; the text-level
//! helpers of YAML frontmatter extraction live in [`parse`].

use vstd::prelude::*;

use super::unicode::{
    chars_of, is_whitespace, is_ws, lowercase, nfc, nfd, string_of, to_lowercase, to_nfc, to_nfd,
    trim, trim_chars, views,
};

pub mod links;

pub mod parse;

pub mod sorted;

pub use links::extract_wikilinks;
use sorted::{copy_strings, strictly_sorted, StringSetMap};

verus! {

/// A single wikilink extracted from markdown content.
#[derive(Debug, Clone, PartialEq, Eq)]
pub struct WikiLink {
    /// Display alias (if `[[target|alias]]`).
    pub alias: Option<String>,
    /// Character offset where the link ends (exclusive).
    pub char_end: usize,
    /// Character offset where the link starts.
    pub char_start: usize,
    /// Section heading anchor (if `[[target#heading]]`).
    pub heading: Option<String>,
    /// Line number where the link ends (1-indexed).
    pub line_end: u32,
    /// Line number where the link starts (1-indexed).
    pub line_start: u32,
    /// Raw target part before `|` or `#`.
    pub raw_target: String,
    /// The link text (`[[...]]` full match).
    pub text: String,
    /// The resolved target (without alias or heading).
    pub target: String,
}

/// Frontmatter entry stored in the database.
#[derive(Debug, Clone, PartialEq, Eq)]
pub struct FrontmatterEntry {
    /// Vault-relative path of the note.
    pub path: String,
    /// Frontmatter key.
    pub key: String,
    /// Frontmatter value type.
    pub value_type: FrontmatterValueType,
    /// String representation of the value.
    pub value: String,
}

/// Frontmatter value type for database storage.
#[derive(Debug, Clone, Copy, PartialEq, Eq, Structural)]
pub enum FrontmatterValueType {
    String,
    Number,
    Bool,
    Date,
    List,
}

/// `s` without its whitespace characters.
pub open spec fn without_ws(s: Seq<char>) -> Seq<char>
    decreases s.len(),
{
    if s.len() == 0 {
        seq![]
    } else {
        without_ws(s.drop_last()) + if is_ws(s.last()) {
            seq![]
        } else {
            seq![s.last()]
        }
    }
}

/// A keyword as compared in frontmatter: trimmed, NFD-decomposed,
/// lowercased, recomposed to NFC, and stripped of all whitespace.
pub open spec fn fm_keyword(v: Seq<char>) -> Seq<char> {
    without_ws(nfc(lowercase(nfd(trim(v)))))
}

fn remove_whitespace(s: &[char]) -> (r: Vec<char>)
    ensures
        r@ == without_ws(s@),
{
    let mut r: Vec<char> = Vec::new();
    let mut i: usize = 0;
    while i < s.len()
        invariant
            i <= s@.len(),
            r@ == without_ws(s@.take(i as int)),
        decreases s.len() - i,
    {
        if !is_whitespace(s[i]) {
            r.push(s[i]);
        }
        proof {
            let t = s@.take(i + 1);
            assert(t.drop_last() =~= s@.take(i as int));
            assert(t.last() == s@[i as int]);
            assert(r@ =~= without_ws(t));
        }
        i += 1;
    }
    assert(s@.take(s@.len() as int) =~= s@);
    r
}

fn keyword_chars(value: &str) -> (r: Vec<char>)
    ensures
        r@ == fm_keyword(value@),
{
    let cs = chars_of(value);
    let t = trim_chars(cs.as_slice());
    let d = to_nfd(t.as_slice());
    let l = to_lowercase(d.as_slice());
    let c = to_nfc(l.as_slice());
    remove_whitespace(c.as_slice())
}

/// Normalizes a keyword for comparison: trimmed, NFD-decomposed, lowercased
/// and recomposed (so that NFC and NFD spellings compare equal and come out
/// composed), with all whitespace removed.
pub fn normalize_keyword(value: &str) -> (r: String)
    ensures
        r@ == fm_keyword(value@),
{
    let k = keyword_chars(value);
    string_of(k.as_slice())
}

/// A vault path with backslashes turned into slashes, NFD-normalized and
/// lowercased.
pub open spec fn fm_vault_path(v: Seq<char>) -> Seq<char> {
    lowercase(nfd(super::processing::replace_char(v, '\\', '/')))
}

/// Normalizes a vault path: backslashes to forward slashes, NFD
/// normalization, lowercase.
pub fn normalize_vault_path(value: &str) -> (r: String)
    ensures
        r@ == fm_vault_path(value@),
{
    let cs = chars_of(value);
    let slashed = super::processing::replace_chars(cs.as_slice(), '\\', '/');
    let d = to_nfd(slashed.as_slice());
    let l = to_lowercase(d.as_slice());
    string_of(l.as_slice())
}

// ── Reverse indexes ─────────────────────────────────────────────────────────

/// Every set of the map is strictly sorted (a `BTreeSet` in order).
pub open spec fn sets_sorted(m: Map<Seq<char>, Seq<Seq<char>>>) -> bool {
    forall|k: Seq<char>| #[trigger] m.dom().contains(k) ==> strictly_sorted(m[k])
}

/// `after` is `before` with `member` added to the set of `key`.
pub open spec fn added(
    before: Map<Seq<char>, Seq<Seq<char>>>,
    after: Map<Seq<char>, Seq<Seq<char>>>,
    key: Seq<char>,
    member: Seq<char>,
) -> bool {
    &&& after.dom() == before.dom().insert(key)
    &&& forall|k: Seq<char>| k != key && #[trigger] before.dom().contains(k) ==> after[k] == before[k]
    &&& forall|s: Seq<char>| #[trigger] after[key].contains(s) <==> s == member || (
        before.dom().contains(key) && before[key].contains(s))
    &&& sets_sorted(after)
}

/// The composite index key of a frontmatter pair: `key:value`, both sides
/// normalized as keywords.
pub open spec fn composite_key(key: Seq<char>, value: Seq<char>) -> Seq<char> {
    fm_keyword(key) + seq![':'] + fm_keyword(value)
}

/// Reverse index: maps normalized `key:value` frontmatter pairs to the paths
/// that carry them, and each normalized key to the paths that carry any
/// value of it.
#[derive(Debug, Clone)]
pub struct FrontmatterReverseIndex {
    index: StringSetMap,
    by_key: StringSetMap,
}

impl View for FrontmatterReverseIndex {
    type V = Map<Seq<char>, Seq<Seq<char>>>;

    closed spec fn view(&self) -> Map<Seq<char>, Seq<Seq<char>>> {
        self.index.map()
    }
}

impl FrontmatterReverseIndex {
    /// The paths of each normalized key, whatever its value.
    pub closed spec fn key_paths(self) -> Map<Seq<char>, Seq<Seq<char>>> {
        self.by_key.map()
    }
}

impl Default for FrontmatterReverseIndex {
    fn default() -> (r: Self)
        ensures
            r@ == Map::<Seq<char>, Seq<Seq<char>>>::empty(),
            r.key_paths() == Map::<Seq<char>, Seq<Seq<char>>>::empty(),
    {
        FrontmatterReverseIndex { index: StringSetMap::new(), by_key: StringSetMap::new() }
    }
}

impl FrontmatterReverseIndex {
    /// Adds a frontmatter entry to the reverse index.
    pub fn insert(&mut self, path: &str, key: &str, value: &str)
        ensures
            added(old(self)@, final(self)@, composite_key(key@, value@), path@),
            added(old(self).key_paths(), final(self).key_paths(), fm_keyword(key@), path@),
    {
        let k = keyword_chars(key);
        let mut composite = keyword_chars(key);
        composite.push(':');
        let v = keyword_chars(value);
        crate::text::unicode::push_all(&mut composite, v.as_slice());
        let ghost c = composite@;
        assert(c =~= composite_key(key@, value@));
        let p = string_of(chars_of(path).as_slice());
        self.index.insert(string_of(composite.as_slice()), p);
        let p2 = string_of(chars_of(path).as_slice());
        self.by_key.insert(string_of(k.as_slice()), p2);
    }

    /// Looks up the paths recorded under the normalized `key:value`.
    pub fn lookup(&self, key: &str, value: &str) -> (r: Option<&Vec<String>>)
        ensures
            r is Some <==> self@.dom().contains(composite_key(key@, value@)),
            r matches Some(v) ==> views(v@) == self@[composite_key(key@, value@)],
    {
        let mut composite = keyword_chars(key);
        composite.push(':');
        let v = keyword_chars(value);
        crate::text::unicode::push_all(&mut composite, v.as_slice());
        assert(composite@ =~= composite_key(key@, value@));
        let c = string_of(composite.as_slice());
        self.index.get(c.as_str())
    }

    /// Looks up the paths recorded under any value of `key` (the key
    /// normalized as a keyword), in order and without duplicates.
    pub fn lookup_key(&self, key: &str) -> (r: Vec<String>)
        ensures
            self.key_paths().dom().contains(fm_keyword(key@)) ==> views(r@) == self.key_paths()[fm_keyword(key@)],
            !self.key_paths().dom().contains(fm_keyword(key@)) ==> r@.len() == 0,
            strictly_sorted(views(r@)),
    {
        let k = keyword_chars(key);
        let ks = string_of(k.as_slice());
        match self.by_key.get(ks.as_str()) {
            Some(v) => copy_strings(v),
            None => Vec::new(),
        }
    }
}

/// Reverse-source index: maps a path to all paths that reference it in
/// frontmatter.
#[derive(Debug, Clone)]
pub struct ReverseSourceIndex {
    sources: StringSetMap,
}

impl View for ReverseSourceIndex {
    type V = Map<Seq<char>, Seq<Seq<char>>>;

    closed spec fn view(&self) -> Map<Seq<char>, Seq<Seq<char>>> {
        self.sources.map()
    }
}

impl Default for ReverseSourceIndex {
    fn default() -> (r: Self)
        ensures
            r@ == Map::<Seq<char>, Seq<Seq<char>>>::empty(),
    {
        ReverseSourceIndex { sources: StringSetMap::new() }
    }
}

impl ReverseSourceIndex {
    /// Records that `source` references `target`.
    pub fn insert(&mut self, source: String, target: String)
        ensures
            added(old(self)@, final(self)@, target@, source@),
    {
        self.sources.insert(target, source);
    }

    /// Gets all sources that reference a target path.
    pub fn get(&self, target: &str) -> (r: Option<&Vec<String>>)
        ensures
            r is Some <==> self@.dom().contains(target@),
            r matches Some(v) ==> views(v@) == self@[target@],
    {
        self.sources.get(target)
    }
}

/// A lookup after an insert finds what was inserted: once `path` is added
/// under `key: value`, the paths of `key: value` and the paths of `key` both
/// hold it, and the paths of every other normalized key are unchanged.
pub proof fn lemma_reverse_index_read_after_write(
    before: Map<Seq<char>, Seq<Seq<char>>>,
    after: Map<Seq<char>, Seq<Seq<char>>>,
    before_keys: Map<Seq<char>, Seq<Seq<char>>>,
    after_keys: Map<Seq<char>, Seq<Seq<char>>>,
    path: Seq<char>,
    key: Seq<char>,
    value: Seq<char>,
)
    requires
        added(before, after, composite_key(key, value), path),
        added(before_keys, after_keys, fm_keyword(key), path),
    ensures
        after.dom().contains(composite_key(key, value)),
        after[composite_key(key, value)].contains(path),
        after_keys.dom().contains(fm_keyword(key)),
        after_keys[fm_keyword(key)].contains(path),
        forall|k: Seq<char>|
            k != fm_keyword(key) ==> (#[trigger] after_keys.dom().contains(k) <==> before_keys.dom().contains(k)),
        forall|k: Seq<char>|
            k != fm_keyword(key) && #[trigger] before_keys.dom().contains(k) ==> after_keys[k] == before_keys[k],
{
    assert(after[composite_key(key, value)].contains(path));
    assert(after_keys[fm_keyword(key)].contains(path));
}

/// The per-key map `m` holds exactly what the inserts `ins` put under each
/// normalized key.
pub open spec fn collects(m: Map<Seq<char>, Seq<Seq<char>>>, ins: Seq<(Seq<char>, Seq<char>, Seq<char>)>) -> bool {
    forall|k: Seq<char>, s: Seq<char>|
        (#[trigger] m.dom().contains(k) && #[trigger] m[k].contains(s)) <==> inserted_under(ins, k, s)
}

/// Whether one of the inserts `(path, key, value)` put `s` under a key whose
/// normalized form is `k`.
pub open spec fn inserted_under(ins: Seq<(Seq<char>, Seq<char>, Seq<char>)>, k: Seq<char>, s: Seq<char>) -> bool {
    exists|i: int| 0 <= i < ins.len() && (#[trigger] ins[i]).0 == s && fm_keyword(ins[i].1) == k
}

proof fn lemma_key_paths_step(
    before: Map<Seq<char>, Seq<Seq<char>>>,
    after: Map<Seq<char>, Seq<Seq<char>>>,
    pi: Seq<(Seq<char>, Seq<char>, Seq<char>)>,
    x: (Seq<char>, Seq<char>, Seq<char>),
)
    requires
        added(before, after, fm_keyword(x.1), x.0),
        collects(before, pi),
    ensures
        collects(after, pi.push(x)),
{
    let ins = pi.push(x);
    let n = pi.len() as int;
    let kk = fm_keyword(x.1);
    assert(ins[n] == x);
    assert forall|k: Seq<char>, s: Seq<char>| after.dom().contains(k) && #[trigger] after[k].contains(s) implies inserted_under(
        ins,
        k,
        s,
    ) by {
        lemma_collects_at(before, pi, k, s);
        if k == kk && s == x.0 {
            assert(ins[n].0 == s && fm_keyword(ins[n].1) == k);
        } else {
            assert(before.dom().contains(k) && before[k].contains(s));
            let i = choose|i: int| 0 <= i < pi.len() && (#[trigger] pi[i]).0 == s && fm_keyword(pi[i].1) == k;
            assert(ins[i] == pi[i]);
        }
    }
    assert forall|k: Seq<char>, s: Seq<char>| #[trigger] inserted_under(ins, k, s) implies after.dom().contains(k)
        && after[k].contains(s) by {
        lemma_collects_at(before, pi, k, s);
        let i = choose|i: int| 0 <= i < ins.len() && (#[trigger] ins[i]).0 == s && fm_keyword(ins[i].1) == k;
        if i == n {
            assert(after[kk].contains(s));
        } else {
            assert(pi[i] == ins[i]);
            assert(inserted_under(pi, k, s));
            assert(before.dom().contains(k) && before[k].contains(s));
        }
    }
    assert forall|k: Seq<char>, s: Seq<char>|
        (#[trigger] after.dom().contains(k) && #[trigger] after[k].contains(s)) <==> inserted_under(ins, k, s) by {
        if inserted_under(ins, k, s) {
            assert(after.dom().contains(k) && after[k].contains(s));
        }
        if after.dom().contains(k) && after[k].contains(s) {
            assert(inserted_under(ins, k, s));
        }
    }
    assert(collects(after, ins));
}

/// A key lookup collects the paths of every value of that key: in an index
/// built from empty by the inserts `ins` (whose per-key maps are `states`),
/// the paths of normalized key `k` are exactly the paths inserted under a
/// key that normalizes to `k`.
#[verifier::spinoff_prover]
pub proof fn lemma_key_paths_of_inserts(
    states: Seq<Map<Seq<char>, Seq<Seq<char>>>>,
    ins: Seq<(Seq<char>, Seq<char>, Seq<char>)>,
)
    requires
        states.len() == ins.len() + 1,
        states[0] == Map::<Seq<char>, Seq<Seq<char>>>::empty(),
        forall|i: int| 0 <= i < ins.len() ==> added(#[trigger] states[i], states[i + 1], fm_keyword(ins[i].1), ins[i].0),
    ensures
        collects(states.last(), ins),
    decreases ins.len(),
{
    if ins.len() == 0 {
        assert(states.last() == states[0]);
    } else {
        let n = ins.len() - 1;
        let ps = states.drop_last();
        let pi = ins.drop_last();
        assert forall|i: int| 0 <= i < pi.len() implies added(#[trigger] ps[i], ps[i + 1], fm_keyword(pi[i].1), pi[i].0) by {
            assert(ps[i] == states[i] && ps[i + 1] == states[i + 1] && pi[i] == ins[i]);
            assert(added(states[i], states[i + 1], fm_keyword(ins[i].1), ins[i].0));
        }
        lemma_key_paths_of_inserts(ps, pi);
        assert(ps.last() == states[n]);
        assert(added(states[n], states[n + 1], fm_keyword(ins[n].1), ins[n].0));
        assert(ins == pi.push(ins[n]));
        lemma_key_paths_step(states[n], states.last(), pi, ins[n]);
    }
}

/// What an insert adds it keeps: entries of other keys, and every path
/// already recorded under the same key, survive an insert.
pub proof fn lemma_reverse_index_insert_keeps(
    before: Map<Seq<char>, Seq<Seq<char>>>,
    after: Map<Seq<char>, Seq<Seq<char>>>,
    key: Seq<char>,
    member: Seq<char>,
    k: Seq<char>,
    s: Seq<char>,
)
    requires
        added(before, after, key, member),
        before.dom().contains(k),
        before[k].contains(s),
    ensures
        after.dom().contains(k),
        after[k].contains(s),
{
}

proof fn lemma_collects_at(before: Map<Seq<char>, Seq<Seq<char>>>, pi: Seq<(Seq<char>, Seq<char>, Seq<char>)>, k: Seq<char>, s: Seq<char>)
    requires
        collects(before, pi),
    ensures
        (before.dom().contains(k) && before[k].contains(s)) <==> inserted_under(pi, k, s),
{
}
} // verus!
