//! Character-level helpers shared by the text and search modules.
//!
//! Strings are handled as sequences of Unicode scalar values (`Seq<char>`,
//! the view of `str`/`String`). Whitespace, trimming and UTF-8 widths are
//! defined here exactly; case folding, canonical decomposition and the
//! alphanumeric class come from std and `unicode-normalization`.

use unicode_normalization::UnicodeNormalization;
use vstd::prelude::*;
use vstd::std_specs::iter::IteratorSpec;
use vstd::utf8::*;

verus! {

/// Unicode `White_Space`, the set that `char::is_whitespace` tests.
pub open spec fn is_ws(c: char) -> bool {
    let u = c as u32;
    ||| 0x9 <= u <= 0xD
    ||| u == 0x20
    ||| u == 0x85
    ||| u == 0xA0
    ||| u == 0x1680
    ||| 0x2000 <= u <= 0x200A
    ||| u == 0x2028
    ||| u == 0x2029
    ||| u == 0x202F
    ||| u == 0x205F
    ||| u == 0x3000
}

/// Whether `c` is Unicode whitespace.
pub fn is_whitespace(c: char) -> (b: bool)
    ensures
        b == is_ws(c),
{
    let u = c as u32;
    (0x9 <= u && u <= 0xD) || u == 0x20 || u == 0x85 || u == 0xA0 || u == 0x1680 || (0x2000 <= u
        && u <= 0x200A) || u == 0x2028 || u == 0x2029 || u == 0x202F || u == 0x205F || u == 0x3000
}

/// Number of leading whitespace characters of `s`.
pub open spec fn lead_ws(s: Seq<char>) -> nat
    decreases s.len(),
{
    if s.len() > 0 && is_ws(s[0]) {
        1 + lead_ws(s.drop_first())
    } else {
        0
    }
}

/// Number of trailing whitespace characters of `s`.
pub open spec fn trail_ws(s: Seq<char>) -> nat
    decreases s.len(),
{
    if s.len() > 0 && is_ws(s.last()) {
        1 + trail_ws(s.drop_last())
    } else {
        0
    }
}

/// `s` without leading whitespace (`str::trim_start`).
pub open spec fn trim_start(s: Seq<char>) -> Seq<char> {
    s.skip(lead_ws(s) as int)
}

/// `s` without trailing whitespace (`str::trim_end`).
pub open spec fn trim_end(s: Seq<char>) -> Seq<char> {
    s.take(s.len() - trail_ws(s))
}

/// `s` without leading and trailing whitespace (`str::trim`).
pub open spec fn trim(s: Seq<char>) -> Seq<char> {
    trim_end(trim_start(s))
}

pub proof fn lemma_lead_ws(s: Seq<char>, i: int)
    requires
        0 <= i <= s.len(),
        forall|j: int| 0 <= j < i ==> is_ws(#[trigger] s[j]),
        i == s.len() || !is_ws(s[i]),
    ensures
        lead_ws(s) == i,
    decreases i,
{
    if i > 0 {
        let t = s.drop_first();
        assert forall|j: int| 0 <= j < i - 1 implies is_ws(#[trigger] t[j]) by {
            assert(t[j] == s[j + 1]);
        }
        if i < s.len() {
            assert(t[i - 1] == s[i]);
        }
        lemma_lead_ws(t, i - 1);
    }
}

pub proof fn lemma_trail_ws(s: Seq<char>, k: int)
    requires
        0 <= k <= s.len(),
        forall|j: int| s.len() - k <= j < s.len() ==> is_ws(#[trigger] s[j]),
        k == s.len() || !is_ws(s[s.len() - k - 1]),
    ensures
        trail_ws(s) == k,
    decreases k,
{
    if k > 0 {
        let t = s.drop_last();
        assert forall|j: int| t.len() - (k - 1) <= j < t.len() implies is_ws(#[trigger] t[j]) by {
            assert(t[j] == s[j]);
        }
        if k < s.len() {
            assert(t[t.len() - (k - 1) - 1] == s[s.len() - k - 1]);
        }
        lemma_trail_ws(t, k - 1);
    }
}

pub proof fn lemma_trail_ws_bounds(s: Seq<char>)
    ensures
        trail_ws(s) <= s.len(),
        forall|j: int| s.len() - trail_ws(s) <= j < s.len() ==> is_ws(#[trigger] s[j]),
        trail_ws(s) < s.len() ==> !is_ws(s[s.len() - trail_ws(s) - 1]),
    decreases s.len(),
{
    if s.len() > 0 && is_ws(s.last()) {
        let t = s.drop_last();
        lemma_trail_ws_bounds(t);
        assert forall|j: int| s.len() - trail_ws(s) <= j < s.len() implies is_ws(#[trigger] s[j]) by {
            if j < s.len() - 1 {
                assert(s[j] == t[j]);
            }
        }
        if trail_ws(s) < s.len() {
            assert(s[s.len() - trail_ws(s) - 1] == t[t.len() - trail_ws(t) - 1]);
        }
    }
}

/// Trimming twice is trimming once.
pub proof fn lemma_trim_idempotent(s: Seq<char>)
    ensures
        trim(trim(s)) == trim(s),
{
    let u = trim_start(s);
    lemma_lead_ws_bounds(s);
    lemma_trail_ws_bounds(u);
    let t = trim(s);
    if u.len() == 0 {
        assert(t.len() == 0);
        lemma_lead_ws(t, 0);
        lemma_trail_ws(t.skip(0), 0);
        assert(trim(t) =~= t);
    } else {
        assert(u[0] == s[lead_ws(s) as int]);
        let tl = trail_ws(u);
        if tl == u.len() {
            assert(is_ws(u[0]));
        }
        assert(t =~= u.take(u.len() - tl));
        assert(t[0] == u[0]);
        assert(t[t.len() - 1] == u[u.len() - tl - 1]);
        lemma_lead_ws(t, 0);
        assert(trim_start(t) =~= t);
        lemma_trail_ws(t, 0);
        assert(trim(t) =~= t);
    }
}

/// Bounds `(a, b)` such that `s[a..b]` is `trim(s)`.
pub fn trim_bounds(s: &[char]) -> (r: (usize, usize))
    ensures
        r.0 <= r.1 <= s@.len(),
        s@.subrange(r.0 as int, r.1 as int) == trim(s@),
        r.0 == lead_ws(s@),
{
    let n = s.len();
    let mut a: usize = 0;
    while a < n && is_whitespace(s[a])
        invariant
            a <= n == s@.len(),
            forall|j: int| 0 <= j < a ==> is_ws(#[trigger] s@[j]),
        decreases n - a,
    {
        a += 1;
    }
    proof {
        lemma_lead_ws(s@, a as int);
    }
    let ghost t = s@.skip(a as int);
    let mut b: usize = n;
    while b > a && is_whitespace(s[b - 1])
        invariant
            a <= b <= n == s@.len(),
            t == s@.skip(a as int),
            forall|j: int| b <= j < n ==> is_ws(#[trigger] s@[j]),
        decreases b,
    {
        b -= 1;
    }
    proof {
        let k = n - b;
        assert forall|j: int| t.len() - k <= j < t.len() implies is_ws(#[trigger] t[j]) by {
            assert(t[j] == s@[j + a]);
        }
        if k < t.len() {
            assert(t[t.len() - k - 1] == s@[b - 1]);
        }
        lemma_trail_ws(t, k as int);
        assert(s@.subrange(a as int, b as int) =~= t.take(t.len() - k));
    }
    (a, b)
}

/// Number of bytes in the UTF-8 encoding of `s` (what `str::len` returns).
pub open spec fn byte_len(s: Seq<char>) -> nat {
    encode_utf8(s).len()
}

/// Number of bytes in the UTF-8 encoding of `c` (what `char::len_utf8` returns).
pub open spec fn char_width(c: char) -> nat {
    let u = c as u32;
    if u < 0x80 {
        1
    } else if u < 0x800 {
        2
    } else if u < 0x10000 {
        3
    } else {
        4
    }
}

pub proof fn lemma_encode_append(a: Seq<char>, b: Seq<char>)
    ensures
        encode_utf8(a + b) == encode_utf8(a) + encode_utf8(b),
    decreases a.len(),
{
    if a.len() == 0 {
        assert(a + b =~= b);
        assert(encode_utf8(a) =~= Seq::<u8>::empty());
        assert(encode_utf8(a) + encode_utf8(b) =~= encode_utf8(b));
    } else {
        assert((a + b).drop_first() =~= a.drop_first() + b);
        assert((a + b)[0] == a[0]);
        lemma_encode_append(a.drop_first(), b);
        assert(encode_utf8(a + b) =~= encode_utf8(a) + encode_utf8(b));
    }
}

pub proof fn lemma_byte_len_single(c: char)
    ensures
        byte_len(seq![c]) == char_width(c),
{
    broadcast use char_is_scalar;

    let s = seq![c];
    assert(s.drop_first() =~= Seq::<char>::empty());
    assert(encode_utf8(s.drop_first()) =~= Seq::<u8>::empty());
    assert(is_scalar(c as u32));
    assert(encode_utf8(s) =~= encode_scalar(c as u32));
}

/// Byte length of a prefix grows by the width of the next character.
pub proof fn lemma_byte_len_take(s: Seq<char>, i: int)
    requires
        0 <= i < s.len(),
    ensures
        byte_len(s.take(i + 1)) == byte_len(s.take(i)) + char_width(s[i]),
{
    assert(s.take(i + 1) =~= s.take(i) + seq![s[i]]);
    lemma_encode_append(s.take(i), seq![s[i]]);
    lemma_byte_len_single(s[i]);
}

/// A prefix is never longer in bytes than the whole.
pub proof fn lemma_byte_len_prefix(s: Seq<char>, i: int)
    requires
        0 <= i <= s.len(),
    ensures
        byte_len(s.take(i)) <= byte_len(s),
{
    assert(s =~= s.take(i) + s.skip(i));
    lemma_encode_append(s.take(i), s.skip(i));
}

/// `pre[i]` is the byte length of the first `i` characters of `cs`.
pub open spec fn is_byte_prefix(cs: Seq<char>, pre: Seq<usize>) -> bool {
    &&& pre.len() == cs.len() + 1
    &&& forall|i: int| 0 <= i <= cs.len() ==> #[trigger] pre[i] == byte_len(cs.take(i))
}

/// The byte offset of every character position of `cs`.
pub fn byte_prefix(cs: &[char], total: usize) -> (pre: Vec<usize>)
    requires
        total == byte_len(cs@),
    ensures
        is_byte_prefix(cs@, pre@),
        cs@.len() < usize::MAX,
{
    let mut pre: Vec<usize> = vec![0];
    let mut b: usize = 0;
    let mut i: usize = 0;
    proof {
        assert(cs@.take(0) =~= Seq::<char>::empty());
        assert(encode_utf8(Seq::<char>::empty()) =~= Seq::<u8>::empty());
    }
    while i < cs.len()
        invariant
            i <= cs@.len(),
            total == byte_len(cs@),
            b == byte_len(cs@.take(i as int)),
            pre@.len() == i + 1,
            forall|j: int| 0 <= j <= i ==> #[trigger] pre@[j] == byte_len(cs@.take(j)),
        decreases cs.len() - i,
    {
        proof {
            lemma_byte_len_take(cs@, i as int);
            lemma_byte_len_prefix(cs@, i + 1);
        }
        b = b + len_utf8(cs[i]);
        pre.push(b);
        i += 1;
    }
    let l = pre.len();
    assert(l == cs@.len() + 1);
    pre
}

/// The character position whose byte offset in `s` is `b`, when `b` is a
/// character boundary of `s` (what `str::get(..b)` accepts).
pub open spec fn char_at_byte(s: Seq<char>, b: nat) -> Option<nat> {
    if exists|i: int| 0 <= i <= s.len() && byte_len(s.take(i)) == b {
        Some((choose|i: int| 0 <= i <= s.len() && byte_len(s.take(i)) == b) as nat)
    } else {
        None
    }
}

/// Finds the character position at byte offset `b` (see [`char_at_byte`]).
pub fn char_index_at_byte(cs: &[char], pre: &[usize], b: usize) -> (r: Option<usize>)
    requires
        is_byte_prefix(cs@, pre@),
    ensures
        r matches Some(j) ==> j <= cs@.len() && char_at_byte(cs@, b as nat) == Some(j as nat),
        r is None ==> char_at_byte(cs@, b as nat) is None,
{
    let mut i: usize = 0;
    while i < pre.len()
        invariant
            is_byte_prefix(cs@, pre@),
            i <= pre@.len(),
            forall|j: int| 0 <= j < i ==> byte_len(cs@.take(j)) != b,
        decreases pre.len() - i,
    {
        if pre[i] == b {
            proof {
                let c = choose|j: int| 0 <= j <= cs@.len() && byte_len(cs@.take(j)) == b;
                lemma_byte_len_prefix_unique(cs@, c, i as int);
            }
            return Some(i);
        }
        i += 1;
    }
    None
}

/// No character boundary lies beyond the end of `s`.
pub proof fn lemma_char_at_byte_beyond(s: Seq<char>, b: nat)
    requires
        b > byte_len(s),
    ensures
        char_at_byte(s, b) is None,
{
    assert forall|i: int| 0 <= i <= s.len() implies byte_len(s.take(i)) != b by {
        lemma_byte_len_prefix(s, i);
    }
}

/// Byte offsets grow strictly with character positions.
pub proof fn lemma_byte_len_strict(s: Seq<char>, i: int, j: int)
    requires
        0 <= i < j <= s.len(),
    ensures
        byte_len(s.take(i)) < byte_len(s.take(j)),
    decreases j - i,
{
    lemma_byte_len_take(s, j - 1);
    assert(char_width(s[j - 1]) >= 1);
    if i < j - 1 {
        lemma_byte_len_strict(s, i, j - 1);
    }
}

/// Two character positions with the same byte offset are the same.
pub proof fn lemma_byte_len_prefix_unique(s: Seq<char>, i: int, j: int)
    requires
        0 <= i <= s.len(),
        0 <= j <= s.len(),
        byte_len(s.take(i)) == byte_len(s.take(j)),
    ensures
        i == j,
{
    if i < j {
        lemma_byte_len_strict(s, i, j);
    } else if j < i {
        lemma_byte_len_strict(s, j, i);
    }
}

/// The byte offset of position `j` is that of `i` plus the bytes between.
pub proof fn lemma_byte_len_split(s: Seq<char>, i: int, j: int)
    requires
        0 <= i <= j <= s.len(),
    ensures
        byte_len(s.take(j)) == byte_len(s.take(i)) + byte_len(s.subrange(i, j)),
{
    assert(s.take(j) =~= s.take(i) + s.subrange(i, j));
    lemma_encode_append(s.take(i), s.subrange(i, j));
}

/// A one-byte character: below U+0080.
pub proof fn lemma_ascii_width(c: char)
    requires
        c < '\u{80}',
    ensures
        char_width(c) == 1,
{
    broadcast use char_is_scalar;

    assert((c as u32) < 0x80);
}

/// `char::len_utf8`.
pub fn len_utf8(c: char) -> (w: usize)
    ensures
        w == char_width(c),
{
    let u = c as u32;
    if u < 0x80 {
        1
    } else if u < 0x800 {
        2
    } else if u < 0x10000 {
        3
    } else {
        4
    }
}

/// Byte length of the string, with its specification.
pub fn str_byte_len(s: &str) -> (n: usize)
    ensures
        n == byte_len(s@),
{
    let bytes = s.as_bytes();
    bytes.len()
}

/// Index of the first `c` in `s`, or `s.len()` when there is none.
pub open spec fn index_of(s: Seq<char>, c: char) -> nat
    decreases s.len(),
{
    if s.len() == 0 {
        0
    } else if s[0] == c {
        0
    } else {
        1 + index_of(s.drop_first(), c)
    }
}

pub proof fn lemma_index_of(s: Seq<char>, c: char, k: int)
    requires
        0 <= k <= s.len(),
        forall|j: int| 0 <= j < k ==> #[trigger] s[j] != c,
        k == s.len() || s[k] == c,
    ensures
        index_of(s, c) == k,
    decreases k,
{
    if k > 0 {
        let t = s.drop_first();
        assert forall|j: int| 0 <= j < k - 1 implies #[trigger] t[j] != c by {
            assert(t[j] == s[j + 1]);
        }
        if k < s.len() {
            assert(t[k - 1] == s[k]);
        }
        lemma_index_of(t, c, k - 1);
    }
}

pub proof fn lemma_index_of_bounds(s: Seq<char>, c: char)
    ensures
        index_of(s, c) <= s.len(),
        index_of(s, c) < s.len() ==> s[index_of(s, c) as int] == c,
        forall|j: int| 0 <= j < index_of(s, c) ==> #[trigger] s[j] != c,
    decreases s.len(),
{
    if s.len() > 0 && s[0] != c {
        let t = s.drop_first();
        lemma_index_of_bounds(t, c);
        assert forall|j: int| 0 <= j < index_of(s, c) implies #[trigger] s[j] != c by {
            if j > 0 {
                assert(s[j] == t[j - 1]);
            }
        }
    }
}

/// Number of leading copies of `c` in `s`.
pub open spec fn lead_char(s: Seq<char>, c: char) -> nat
    decreases s.len(),
{
    if s.len() > 0 && s[0] == c {
        1 + lead_char(s.drop_first(), c)
    } else {
        0
    }
}

/// Number of trailing copies of `c` in `s`.
pub open spec fn trail_char(s: Seq<char>, c: char) -> nat
    decreases s.len(),
{
    if s.len() > 0 && s.last() == c {
        1 + trail_char(s.drop_last(), c)
    } else {
        0
    }
}

pub proof fn lemma_lead_char(s: Seq<char>, c: char, i: int)
    requires
        0 <= i <= s.len(),
        forall|j: int| 0 <= j < i ==> #[trigger] s[j] == c,
        i == s.len() || s[i] != c,
    ensures
        lead_char(s, c) == i,
    decreases i,
{
    if i > 0 {
        let t = s.drop_first();
        assert forall|j: int| 0 <= j < i - 1 implies #[trigger] t[j] == c by {
            assert(t[j] == s[j + 1]);
        }
        if i < s.len() {
            assert(t[i - 1] == s[i]);
        }
        lemma_lead_char(t, c, i - 1);
    }
}

pub proof fn lemma_trail_char(s: Seq<char>, c: char, k: int)
    requires
        0 <= k <= s.len(),
        forall|j: int| s.len() - k <= j < s.len() ==> #[trigger] s[j] == c,
        k == s.len() || s[s.len() - k - 1] != c,
    ensures
        trail_char(s, c) == k,
    decreases k,
{
    if k > 0 {
        let t = s.drop_last();
        assert forall|j: int| t.len() - (k - 1) <= j < t.len() implies #[trigger] t[j] == c by {
            assert(t[j] == s[j]);
        }
        if k < s.len() {
            assert(t[t.len() - (k - 1) - 1] == s[s.len() - k - 1]);
        }
        lemma_trail_char(t, c, k - 1);
    }
}

/// Number of copies of `c` at the start of `v[from..]`.
pub fn count_lead_char(v: &[char], from: usize, c: char) -> (n: usize)
    requires
        from <= v@.len(),
    ensures
        n == lead_char(v@.skip(from as int), c),
        from + n <= v@.len(),
{
    let mut i = from;
    while i < v.len() && v[i] == c
        invariant
            from <= i <= v@.len(),
            forall|j: int| from <= j < i ==> #[trigger] v@[j] == c,
        decreases v.len() - i,
    {
        i += 1;
    }
    proof {
        let t = v@.skip(from as int);
        assert forall|j: int| 0 <= j < i - from implies #[trigger] t[j] == c by {
            assert(t[j] == v@[j + from]);
        }
        if i < v@.len() {
            assert(t[i - from] == v@[i as int]);
        }
        lemma_lead_char(t, c, i - from);
    }
    i - from
}

/// Number of copies of `c` at the end of `v[..to]`.
pub fn count_trail_char(v: &[char], to: usize, c: char) -> (n: usize)
    requires
        to <= v@.len(),
    ensures
        n == trail_char(v@.take(to as int), c),
        n <= to,
{
    let mut i = to;
    while i > 0 && v[i - 1] == c
        invariant
            i <= to <= v@.len(),
            forall|j: int| i <= j < to ==> #[trigger] v@[j] == c,
        decreases i,
    {
        i -= 1;
    }
    proof {
        let t = v@.take(to as int);
        assert forall|j: int| t.len() - (to - i) <= j < t.len() implies #[trigger] t[j] == c by {
            assert(t[j] == v@[j]);
        }
        if to - i < t.len() {
            assert(t[t.len() - (to - i) - 1] == v@[i - 1]);
        }
        lemma_trail_char(t, c, (to - i) as int);
    }
    to - i
}

/// Whether `c` occurs in `v[from..]`.
pub fn contains_from(v: &[char], from: usize, c: char) -> (b: bool)
    requires
        from <= v@.len(),
    ensures
        b == v@.skip(from as int).contains(c),
{
    let mut i = from;
    while i < v.len()
        invariant
            from <= i <= v@.len(),
            forall|j: int| from <= j < i ==> #[trigger] v@[j] != c,
        decreases v.len() - i,
    {
        if v[i] == c {
            assert(v@.skip(from as int)[i - from] == c);
            return true;
        }
        i += 1;
    }
    proof {
        let t = v@.skip(from as int);
        assert forall|j: int| 0 <= j < t.len() implies t[j] != c by {
            assert(t[j] == v@[j + from]);
        }
    }
    false
}

/// A copy of `v[a..b]`.
pub fn copy_range(v: &[char], a: usize, b: usize) -> (r: Vec<char>)
    requires
        a <= b <= v@.len(),
    ensures
        r@ == v@.subrange(a as int, b as int),
{
    let mut r: Vec<char> = Vec::new();
    let mut i = a;
    while i < b
        invariant
            a <= i <= b <= v@.len(),
            r@ == v@.subrange(a as int, i as int),
        decreases b - i,
    {
        r.push(v[i]);
        assert(r@ =~= v@.subrange(a as int, i + 1));
        i += 1;
    }
    r
}

/// The string made of `v[a..b]`.
pub fn string_range(v: &[char], a: usize, b: usize) -> (s: String)
    requires
        a <= b <= v@.len(),
    ensures
        s@ == v@.subrange(a as int, b as int),
{
    let r = copy_range(v, a, b);
    string_of(r.as_slice())
}

/// Appends `w` to `v`.
pub fn push_all(v: &mut Vec<char>, w: &[char])
    ensures
        final(v)@ == old(v)@ + w@,
{
    let mut i: usize = 0;
    while i < w.len()
        invariant
            i <= w@.len(),
            v@ == old(v)@ + w@.take(i as int),
        decreases w.len() - i,
    {
        v.push(w[i]);
        assert(w@.take(i + 1) =~= w@.take(i as int).push(w@[i as int]));
        i += 1;
    }
    assert(w@.take(w@.len() as int) =~= w@);
}

/// `s` with the whitespace at both ends removed (`str::trim`).
pub fn trim_chars(s: &[char]) -> (r: Vec<char>)
    ensures
        r@ == trim(s@),
{
    let (a, b) = trim_bounds(s);
    copy_range(s, a, b)
}

/// Number of leading characters of `s` that satisfy `p`.
pub open spec fn lead_count(s: Seq<char>, p: spec_fn(char) -> bool) -> nat
    decreases s.len(),
{
    if s.len() > 0 && p(s[0]) {
        1 + lead_count(s.drop_first(), p)
    } else {
        0
    }
}

/// Number of trailing characters of `s` that satisfy `p`.
pub open spec fn trail_count(s: Seq<char>, p: spec_fn(char) -> bool) -> nat
    decreases s.len(),
{
    if s.len() > 0 && p(s.last()) {
        1 + trail_count(s.drop_last(), p)
    } else {
        0
    }
}

pub proof fn lemma_lead_count(s: Seq<char>, p: spec_fn(char) -> bool, i: int)
    requires
        0 <= i <= s.len(),
        forall|j: int| 0 <= j < i ==> p(#[trigger] s[j]),
        i == s.len() || !p(s[i]),
    ensures
        lead_count(s, p) == i,
    decreases i,
{
    if i > 0 {
        let t = s.drop_first();
        assert forall|j: int| 0 <= j < i - 1 implies p(#[trigger] t[j]) by {
            assert(t[j] == s[j + 1]);
        }
        if i < s.len() {
            assert(t[i - 1] == s[i]);
        }
        lemma_lead_count(t, p, i - 1);
    }
}

pub proof fn lemma_lead_count_bounds(s: Seq<char>, p: spec_fn(char) -> bool)
    ensures
        lead_count(s, p) <= s.len(),
        forall|j: int| 0 <= j < lead_count(s, p) ==> p(#[trigger] s[j]),
        lead_count(s, p) < s.len() ==> !p(s[lead_count(s, p) as int]),
    decreases s.len(),
{
    if s.len() > 0 && p(s[0]) {
        let t = s.drop_first();
        lemma_lead_count_bounds(t, p);
        assert forall|j: int| 0 <= j < lead_count(s, p) implies p(#[trigger] s[j]) by {
            if j > 0 {
                assert(s[j] == t[j - 1]);
            }
        }
    }
}

pub proof fn lemma_trail_count(s: Seq<char>, p: spec_fn(char) -> bool, k: int)
    requires
        0 <= k <= s.len(),
        forall|j: int| s.len() - k <= j < s.len() ==> p(#[trigger] s[j]),
        k == s.len() || !p(s[s.len() - k - 1]),
    ensures
        trail_count(s, p) == k,
    decreases k,
{
    if k > 0 {
        let t = s.drop_last();
        assert forall|j: int| t.len() - (k - 1) <= j < t.len() implies p(#[trigger] t[j]) by {
            assert(t[j] == s[j]);
        }
        if k < s.len() {
            assert(t[t.len() - (k - 1) - 1] == s[s.len() - k - 1]);
        }
        lemma_trail_count(t, p, k - 1);
    }
}

pub proof fn lemma_lead_ws_bounds(s: Seq<char>)
    ensures
        lead_ws(s) <= s.len(),
        forall|j: int| 0 <= j < lead_ws(s) ==> is_ws(#[trigger] s[j]),
        lead_ws(s) < s.len() ==> !is_ws(s[lead_ws(s) as int]),
    decreases s.len(),
{
    if s.len() > 0 && is_ws(s[0]) {
        let t = s.drop_first();
        lemma_lead_ws_bounds(t);
        assert forall|j: int| 0 <= j < lead_ws(s) implies is_ws(#[trigger] s[j]) by {
            if j > 0 {
                assert(s[j] == t[j - 1]);
            }
        }
    }
}

/// The characters that are not whitespace.
pub open spec fn non_ws() -> spec_fn(char) -> bool {
    |c: char| !is_ws(c)
}

/// The whitespace-separated words of `s` (`str::split_whitespace`).
pub open spec fn words(s: Seq<char>) -> Seq<Seq<char>>
    decreases s.len(),
{
    let t = trim_start(s);
    let k = lead_count(t, non_ws());
    if t.len() == 0 || k == 0 || lead_ws(s) + k > s.len() {
        seq![]
    } else {
        seq![t.take(k as int)] + words(t.skip(k as int))
    }
}

/// The parts joined with `sep` between consecutive parts (`slice::join`).
pub open spec fn join(parts: Seq<Seq<char>>, sep: Seq<char>) -> Seq<char>
    decreases parts.len(),
{
    if parts.len() == 0 {
        seq![]
    } else if parts.len() == 1 {
        parts[0]
    } else {
        join(parts.drop_last(), sep) + sep + parts.last()
    }
}

/// The views of a vector of strings.
pub open spec fn views(v: Seq<String>) -> Seq<Seq<char>> {
    v.map_values(|s: String| s@)
}

/// The views of a vector of character vectors.
pub open spec fn char_views(v: Seq<Vec<char>>) -> Seq<Seq<char>> {
    v.map_values(|s: Vec<char>| s@)
}

/// `str::split_whitespace`, each word as a character vector.
pub fn split_words(v: &[char]) -> (r: Vec<Vec<char>>)
    ensures
        char_views(r@) == words(v@),
        forall|i: int| 0 <= i < r@.len() ==> (#[trigger] r@[i])@.len() > 0,
{
    let n = v.len();
    let mut r: Vec<Vec<char>> = Vec::new();
    let mut i: usize = 0;
    proof {
        assert(v@.skip(0) =~= v@);
    }
    while i < n
        invariant
            n == v@.len(),
            i <= n,
            char_views(r@) + words(v@.skip(i as int)) == words(v@),
            forall|j: int| 0 <= j < r@.len() ==> (#[trigger] r@[j])@.len() > 0,
        decreases n - i,
    {
        let ghost s = v@.skip(i as int);
        let mut a = i;
        while a < n && is_whitespace(v[a])
            invariant
                i <= a <= n == v@.len(),
                s == v@.skip(i as int),
                forall|j: int| i <= j < a ==> is_ws(#[trigger] v@[j]),
            decreases n - a,
        {
            a += 1;
        }
        proof {
            assert forall|j: int| 0 <= j < a - i implies is_ws(#[trigger] s[j]) by {
                assert(s[j] == v@[j + i]);
            }
            if a < n {
                assert(s[a - i] == v@[a as int]);
            }
            lemma_lead_ws(s, a - i);
            assert(trim_start(s) =~= v@.skip(a as int));
        }
        if a == n {
            proof {
                assert(words(s) =~= Seq::<Seq<char>>::empty());
                assert(v@.skip(n as int) =~= Seq::<char>::empty());
                assert(words(v@.skip(n as int)) =~= Seq::<Seq<char>>::empty());
                assert(char_views(r@) + words(v@.skip(n as int)) =~= char_views(r@) + words(s));
            }
            i = n;
        } else {
            let ghost t = v@.skip(a as int);
            let mut b = a;
            while b < n && !is_whitespace(v[b])
                invariant
                    a <= b <= n == v@.len(),
                    t == v@.skip(a as int),
                    forall|j: int| a <= j < b ==> !is_ws(#[trigger] v@[j]),
                decreases n - b,
            {
                b += 1;
            }
            proof {
                assert forall|j: int| 0 <= j < b - a implies non_ws()(#[trigger] t[j]) by {
                    assert(t[j] == v@[j + a]);
                }
                if b < n {
                    assert(t[b - a] == v@[b as int]);
                }
                lemma_lead_count(t, non_ws(), b - a);
                assert(t.len() > 0);
                assert(!is_ws(t[0]));
                assert(b - a >= 1);
            }
            let w = copy_range(v, a, b);
            let ghost before = r@;
            r.push(w);
            proof {
                assert(t.take(b - a) =~= v@.subrange(a as int, b as int));
                assert(t.skip(b - a) =~= v@.skip(b as int));
                assert(words(s) == seq![t.take(b - a)] + words(t.skip(b - a)));
                assert(char_views(r@) =~= char_views(before).push(w@));
                assert(char_views(r@) + words(v@.skip(b as int)) =~= char_views(before) + words(s));
            }
            i = b;
        }
    }
    proof {
        assert(v@.skip(n as int) =~= Seq::<char>::empty());
        assert(words(v@.skip(n as int)) =~= Seq::<Seq<char>>::empty());
        assert(char_views(r@) =~= char_views(r@) + words(v@.skip(n as int)));
    }
    r
}

/// The parts joined with `sep` (`slice::join`).
pub fn join_chars(parts: &[Vec<char>], sep: &[char]) -> (r: Vec<char>)
    ensures
        r@ == join(char_views(parts@), sep@),
{
    let mut r: Vec<char> = Vec::new();
    let mut i: usize = 0;
    while i < parts.len()
        invariant
            i <= parts@.len(),
            r@ == join(char_views(parts@.take(i as int)), sep@),
        decreases parts.len() - i,
    {
        let ghost before = r@;
        if i > 0 {
            push_all(&mut r, sep);
        }
        push_all(&mut r, parts[i].as_slice());
        proof {
            let ps = char_views(parts@.take(i + 1));
            assert(ps.drop_last() =~= char_views(parts@.take(i as int)));
            assert(ps.last() == parts@[i as int]@);
            if i == 0 {
                assert(ps.len() == 1);
                assert(r@ =~= ps[0]);
            } else {
                assert(r@ =~= before + sep@ + parts@[i as int]@);
            }
        }
        i += 1;
    }
    assert(parts@.take(parts@.len() as int) =~= parts@);
    r
}

/// `l` without one trailing `'\r'`.
pub open spec fn strip_cr(l: Seq<char>) -> Seq<char> {
    if l.len() > 0 && l.last() == '\r' {
        l.drop_last()
    } else {
        l
    }
}

/// The lines of `s` (`str::lines`): split at `'\n'`, one trailing `'\r'`
/// removed from each line, and no empty line after a final `'\n'`.
pub open spec fn lines_of(s: Seq<char>) -> Seq<Seq<char>>
    decreases s.len(),
{
    if s.len() == 0 {
        seq![]
    } else {
        let k = index_of(s, '\n');
        if k < s.len() {
            seq![strip_cr(s.take(k as int))] + lines_of(s.skip(k as int + 1))
        } else {
            seq![strip_cr(s)]
        }
    }
}

/// The lines of `v` (`str::lines`), each as a character vector.
pub fn line_chars(v: &[char]) -> (r: Vec<Vec<char>>)
    ensures
        char_views(r@) == lines_of(v@),
{
    let n = v.len();
    let mut r: Vec<Vec<char>> = Vec::new();
    let mut i: usize = 0;
    proof {
        assert(v@.skip(0) =~= v@);
    }
    while i < n
        invariant
            n == v@.len(),
            i <= n,
            char_views(r@) + lines_of(v@.skip(i as int)) == lines_of(v@),
        decreases n - i,
    {
        let ghost s = v@.skip(i as int);
        let mut j = i;
        while j < n && v[j] != '\n'
            invariant
                i <= j <= n == v@.len(),
                forall|t: int| i <= t < j ==> #[trigger] v@[t] != '\n',
            decreases n - j,
        {
            j += 1;
        }
        proof {
            assert forall|t: int| 0 <= t < j - i implies #[trigger] s[t] != '\n' by {
                assert(s[t] == v@[t + i]);
            }
            if j < n {
                assert(s[j - i] == v@[j as int]);
            }
            lemma_index_of(s, '\n', j - i);
        }
        let mut e = j;
        if e > i && v[e - 1] == '\r' {
            e = e - 1;
        }
        let line = copy_range(v, i, e);
        let ghost before = r@;
        r.push(line);
        proof {
            lemma_char_views_push(before, line);
            assert(s.take(j - i) =~= v@.subrange(i as int, j as int));
            assert(line@ =~= strip_cr(s.take(j - i)));
        }
        if j < n {
            proof {
                assert(s.skip(j - i + 1) =~= v@.skip(j + 1));
                assert(lines_of(s) == seq![strip_cr(s.take(j - i))] + lines_of(s.skip(j - i + 1)));
                assert(char_views(r@) + lines_of(v@.skip(j + 1)) =~= char_views(before) + lines_of(s));
            }
            i = j + 1;
        } else {
            proof {
                assert(s.take(j - i) =~= s);
                assert(v@.skip(n as int) =~= Seq::<char>::empty());
                assert(lines_of(v@.skip(n as int)) =~= Seq::<Seq<char>>::empty());
                assert(char_views(r@) + lines_of(v@.skip(n as int)) =~= char_views(before) + lines_of(s));
            }
            i = n;
        }
    }
    proof {
        assert(v@.skip(n as int) =~= Seq::<char>::empty());
        assert(char_views(r@) + lines_of(v@.skip(n as int)) =~= char_views(r@));
    }
    r
}

/// `s` with the prefix `p` removed, when `s` starts with `p`.
pub open spec fn strip_prefix(s: Seq<char>, p: Seq<char>) -> Option<Seq<char>> {
    if s.len() >= p.len() && s.take(p.len() as int) == p {
        Some(s.skip(p.len() as int))
    } else {
        None
    }
}

/// Whether `v` starts with `p` (`str::starts_with`).
pub fn starts_with(v: &[char], p: &[char]) -> (b: bool)
    ensures
        b == (v@.len() >= p@.len() && v@.take(p@.len() as int) == p@),
{
    if v.len() < p.len() {
        return false;
    }
    let mut i: usize = 0;
    while i < p.len()
        invariant
            i <= p@.len() <= v@.len(),
            forall|j: int| 0 <= j < i ==> v@[j] == p@[j],
        decreases p.len() - i,
    {
        if v[i] != p[i] {
            assert(v@.take(p@.len() as int)[i as int] != p@[i as int]);
            return false;
        }
        i += 1;
    }
    assert(v@.take(p@.len() as int) =~= p@);
    true
}

/// Whether `v` ends with `p` (`str::ends_with`).
pub fn ends_with(v: &[char], p: &[char]) -> (b: bool)
    ensures
        b == (v@.len() >= p@.len() && v@.skip(v@.len() - p@.len()) == p@),
{
    if v.len() < p.len() {
        return false;
    }
    let off = v.len() - p.len();
    let mut k: usize = off;
    while k < v.len()
        invariant
            off <= k <= v@.len(),
            off == v@.len() - p@.len(),
            forall|j: int| 0 <= j < k - off ==> v@[off + j] == p@[j],
        decreases v.len() - k,
    {
        if v[k] != p[k - off] {
            assert(v@.skip(off as int)[k - off] != p@[k - off]);
            return false;
        }
        k += 1;
    }
    assert(v@.skip(off as int) =~= p@);
    true
}

/// A copy of `v[a..]`.
pub fn copy_from(v: &[char], a: usize) -> (r: Vec<char>)
    requires
        a <= v@.len(),
    ensures
        r@ == v@.skip(a as int),
{
    let r = copy_range(v, a, v.len());
    assert(r@ =~= v@.skip(a as int));
    r
}

pub proof fn lemma_views_push(r: Seq<String>, x: String)
    ensures
        views(r.push(x)) == views(r).push(x@),
{
    assert(views(r.push(x)) =~= views(r).push(x@));
}

pub proof fn lemma_char_views_push(r: Seq<Vec<char>>, x: Vec<char>)
    ensures
        char_views(r.push(x)) == char_views(r).push(x@),
{
    assert(char_views(r.push(x)) =~= char_views(r).push(x@));
}

pub proof fn lemma_take_push<A>(s: Seq<A>, i: int)
    requires
        0 <= i < s.len(),
    ensures
        s.take(i + 1) == s.take(i).push(s[i]),
{
    assert(s.take(i + 1) =~= s.take(i).push(s[i]));
}

/// Whether two character slices are equal.
pub fn chars_eq(a: &[char], b: &[char]) -> (r: bool)
    ensures
        r == (a@ == b@),
{
    if a.len() != b.len() {
        return false;
    }
    let mut i: usize = 0;
    while i < a.len()
        invariant
            i <= a@.len() == b@.len(),
            forall|j: int| 0 <= j < i ==> a@[j] == b@[j],
        decreases a.len() - i,
    {
        if a[i] != b[i] {
            return false;
        }
        i += 1;
    }
    assert(a@ =~= b@);
    true
}

/// Whether `v` contains a vector equal to `x`.
pub fn contains_chars(v: &Vec<Vec<char>>, x: &[char]) -> (r: bool)
    ensures
        r == char_views(v@).contains(x@),
{
    let mut i: usize = 0;
    while i < v.len()
        invariant
            i <= v@.len(),
            forall|j: int| 0 <= j < i ==> v@[j]@ != x@,
        decreases v.len() - i,
    {
        if chars_eq(v[i].as_slice(), x) {
            assert(char_views(v@)[i as int] == x@);
            return true;
        }
        i += 1;
    }
    assert forall|j: int| 0 <= j < char_views(v@).len() implies char_views(v@)[j] != x@ by {
        assert(char_views(v@)[j] == v@[j]@);
    }
    false
}

/// A vector of strings from character vectors.
pub fn strings_of(v: &Vec<Vec<char>>) -> (r: Vec<String>)
    ensures
        views(r@) == char_views(v@),
{
    let mut r: Vec<String> = Vec::new();
    let mut i: usize = 0;
    while i < v.len()
        invariant
            i <= v@.len(),
            views(r@) == char_views(v@.take(i as int)),
        decreases v.len() - i,
    {
        let ghost before = r@;
        let x = string_of(v[i].as_slice());
        r.push(x);
        proof {
            lemma_views_push(before, x);
            lemma_take_push(v@, i as int);
            lemma_char_views_push(v@.take(i as int), v@[i as int]);
        }
        i += 1;
    }
    assert(v@.take(v@.len() as int) =~= v@);
    r
}

/// The characters of `s`.
pub(crate) fn chars_of(s: &str) -> (v: Vec<char>)
    ensures
        v@ == s@,
{
    let mut it = s.chars();
    let mut v: Vec<char> = Vec::new();
    assert(v@ + it.remaining() =~= s@);
    loop
        invariant
            v@ + it.remaining() == s@,
            it.obeys_prophetic_iter_laws(),
        ensures
            v@ == s@,
        decreases s@.len() - v@.len(),
    {
        let ghost before = it;
        match it.next() {
            Some(c) => {
                proof {
                    assert(before.remaining().len() > 0);
                }
                let ghost vb = v@;
                v.push(c);
                proof {
                    assert(v@ + it.remaining() =~= vb + before.remaining());
                }
            },
            None => {
                proof {
                    assert(it.remaining().len() == 0);
                    assert(v@ =~= s@);
                }
                break;
            },
        }
    }
    v
}

/// The string made of the characters `v`.
#[verifier::external_body]
pub(crate) fn string_of(v: &[char]) -> (s: String)
    ensures
        s@ == v@,
{
    v.iter().collect()
}

/// What `str::to_lowercase` returns for a string with these characters.
pub uninterp spec fn lowercase(s: Seq<char>) -> Seq<char>;

/// Calls `str::to_lowercase`; the result is named by [`lowercase`].
#[verifier::external_body]
pub(crate) fn to_lowercase(s: &[char]) -> (r: Vec<char>)
    ensures
        r@ == lowercase(s@),
{
    let text: String = s.iter().collect();
    text.to_lowercase().chars().collect()
}

/// What `unicode_normalization::UnicodeNormalization::nfd` yields for these
/// characters (canonical decomposition, Unicode Normalization Form D).
pub uninterp spec fn nfd(s: Seq<char>) -> Seq<char>;

/// Calls `UnicodeNormalization::nfd`; the result is named by [`nfd`]. Facts
/// of Unicode canonical decomposition that the crate's tables follow:
/// Form D is a normal form (decomposing its output again changes nothing);
/// ASCII characters have no decomposition and combining class 0, so an
/// ASCII text is its own decomposition; `\` and `/` are starters without a
/// decomposition that occur in no decomposition, so turning every `\` into
/// `/` before or after decomposing gives the same text.
#[verifier::external_body]
pub(crate) fn to_nfd(s: &[char]) -> (r: Vec<char>)
    ensures
        r@ == nfd(s@),
        nfd(r@) == r@,
        all_ascii(s@) ==> r@ == s@,
        nfd(crate::text::processing::replace_char(s@, '\\', '/')) == crate::text::processing::replace_char(
            r@,
            '\\',
            '/',
        ),
{
    s.iter().copied().nfd().collect()
}

/// What `unicode_normalization::UnicodeNormalization::nfc` yields for these
/// characters (canonical decomposition then composition, Normalization Form C).
pub uninterp spec fn nfc(s: Seq<char>) -> Seq<char>;

/// Calls `UnicodeNormalization::nfc`; the result is named by [`nfc`]. Form C
/// is canonically equivalent to its input, so both decompose (Form D) to
/// the same text.
#[verifier::external_body]
pub(crate) fn to_nfc(s: &[char]) -> (r: Vec<char>)
    ensures
        r@ == nfc(s@),
        nfd(r@) == nfd(s@),
{
    s.iter().copied().nfc().collect()
}

/// Every character of `s` is ASCII (below U+0080).
pub open spec fn all_ascii(s: Seq<char>) -> bool {
    forall|i: int| 0 <= i < s.len() ==> s[i] < '\u{80}'
}

/// What `char::is_alphanumeric` returns (`Alphabetic` or `Numeric`).
pub uninterp spec fn alnum(c: char) -> bool;

/// Calls `char::is_alphanumeric`; the result is named by [`alnum`].
#[verifier::external_body]
pub(crate) fn is_alphanumeric(c: char) -> (b: bool)
    ensures
        b == alnum(c),
{
    c.is_alphanumeric()
}

} // verus!
