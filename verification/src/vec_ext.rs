//! The `vec_chunks` vector table: reading its schema back and planning its
//! (re)creation.
//!
//! The statements themselves run against the database beside this library;
//! what is decided here is how the stored `CREATE` statement is read and what
//! must happen for a requested embedding dimension.

use vstd::prelude::*;

use crate::error::TalonError;
use crate::text::unicode::{
    chars_of, copy_range, index_of, is_ws, lemma_index_of, lemma_lead_ws, lemma_trail_ws, push_all, string_of, trim,
    trim_bounds, trim_end, trim_start,
};

verus! {

/// Storage type of the embedding column.
#[derive(Debug, Clone, Copy, PartialEq, Eq, Structural)]
pub enum VecEmbeddingStorage {
    /// 32-bit floats.
    Float,
    /// 8-bit integers.
    Int8,
}

/// Dimension and storage of the `vec_chunks` table.
#[derive(Debug, Clone, Copy, PartialEq, Eq, Structural)]
pub struct VecChunksSchema {
    /// Embedding dimension.
    pub dimensions: u32,
    /// Embedding storage type.
    pub storage: VecEmbeddingStorage,
}

// ── Case-insensitive ASCII matching ─────────────────────────────────────────

/// The upper-case ASCII letter of a lower-case one; any other character
/// stands for itself.
pub open spec fn ascii_upper(w: char) -> char {
    match w {
        'a' => 'A', 'b' => 'B', 'c' => 'C', 'd' => 'D', 'e' => 'E', 'f' => 'F', 'g' => 'G',
        'h' => 'H', 'i' => 'I', 'j' => 'J', 'k' => 'K', 'l' => 'L', 'm' => 'M', 'n' => 'N',
        'o' => 'O', 'p' => 'P', 'q' => 'Q', 'r' => 'R', 's' => 'S', 't' => 'T', 'u' => 'U',
        'v' => 'V', 'w' => 'W', 'x' => 'X', 'y' => 'Y', 'z' => 'Z', _ => w,
    }
}

fn upper_of(w: char) -> (u: char)
    ensures
        u == ascii_upper(w),
{
    match w {
        'a' => 'A', 'b' => 'B', 'c' => 'C', 'd' => 'D', 'e' => 'E', 'f' => 'F', 'g' => 'G',
        'h' => 'H', 'i' => 'I', 'j' => 'J', 'k' => 'K', 'l' => 'L', 'm' => 'M', 'n' => 'N',
        'o' => 'O', 'p' => 'P', 'q' => 'Q', 'r' => 'R', 's' => 'S', 't' => 'T', 'u' => 'U',
        'v' => 'V', 'w' => 'W', 'x' => 'X', 'y' => 'Y', 'z' => 'Z', _ => w,
    }
}

/// `s` has, at `p`, the lower-case ASCII word `w` once ASCII letters are
/// lowercased.
pub open spec fn ci_match_at(s: Seq<char>, p: int, w: Seq<char>) -> bool {
    0 <= p && p + w.len() <= s.len() && forall|k: int|
        0 <= k < w.len() ==> #[trigger] s[p + k] == w[k] || s[p + k] == ascii_upper(w[k])
}

/// The first position from `p` on where `w` occurs in the ASCII-lowercased `s`.
pub open spec fn ci_find_from(s: Seq<char>, w: Seq<char>, p: int) -> Option<nat>
    decreases s.len() + 1 - p,
{
    if p < 0 || p + w.len() > s.len() {
        None
    } else if ci_match_at(s, p, w) {
        Some(p as nat)
    } else {
        ci_find_from(s, w, p + 1)
    }
}

fn ci_match_exec(s: &[char], p: usize, w: &[char]) -> (b: bool)
    requires
        p <= s@.len(),
    ensures
        b == ci_match_at(s@, p as int, w@),
{
    if w.len() > s.len() - p {
        return false;
    }
    let mut k: usize = 0;
    while k < w.len()
        invariant
            p + w@.len() <= s@.len() <= usize::MAX,
            k <= w@.len(),
            forall|j: int| 0 <= j < k ==> #[trigger] s@[p + j] == w@[j] || s@[p + j] == ascii_upper(w@[j]),
        decreases w.len() - k,
    {
        let c = s[p + k];
        if !(c == w[k] || c == upper_of(w[k])) {
            return false;
        }
        k += 1;
    }
    true
}

fn ci_find(s: &[char], w: &[char]) -> (r: Option<usize>)
    ensures
        r matches Some(p) ==> ci_find_from(s@, w@, 0) == Some(p as nat),
        r is None ==> ci_find_from(s@, w@, 0) is None,
{
    let mut p: usize = 0;
    while p <= s.len()
        invariant
            ci_find_from(s@, w@, 0) == ci_find_from(s@, w@, p as int),
        decreases s.len() + 1 - p,
    {
        if w.len() > s.len() - p {
            return None;
        }
        if ci_match_exec(s, p, w) {
            return Some(p);
        }
        p += 1;
    }
    None
}

// ── Decimal numbers ─────────────────────────────────────────────────────────

/// The value of an ASCII digit.
pub open spec fn digit_value(c: char) -> nat {
    match c {
        '1' => 1, '2' => 2, '3' => 3, '4' => 4, '5' => 5, '6' => 6, '7' => 7, '8' => 8,
        '9' => 9, _ => 0,
    }
}

/// An ASCII digit.
pub open spec fn is_digit(c: char) -> bool {
    '0' <= c && c <= '9'
}

/// The value of the decimal digits `s`.
pub open spec fn digits_value(s: Seq<char>) -> nat
    decreases s.len(),
{
    if s.len() == 0 {
        0
    } else {
        digits_value(s.drop_last()) * 10 + digit_value(s.last())
    }
}

/// `s` without one leading `+`.
pub open spec fn plus_stripped(s: Seq<char>) -> Seq<char> {
    if s.len() > 0 && s[0] == '+' {
        s.drop_first()
    } else {
        s
    }
}

/// Every character of `d` is an ASCII digit.
pub open spec fn all_digits(d: Seq<char>) -> bool {
    forall|i: int| 0 <= i < d.len() ==> is_digit(#[trigger] d[i])
}

/// What `str::parse::<u32>` gives: an optional `+`, at least one digit and
/// nothing else, with a value that fits.
pub open spec fn parse_u32(s: Seq<char>) -> Option<u32> {
    let d = plus_stripped(s);
    if d.len() > 0 && all_digits(d) && digits_value(d) <= u32::MAX {
        Some(digits_value(d) as u32)
    } else {
        None
    }
}

fn digit_of(c: char) -> (v: u64)
    ensures
        v == digit_value(c),
{
    match c {
        '1' => 1, '2' => 2, '3' => 3, '4' => 4, '5' => 5, '6' => 6, '7' => 7, '8' => 8,
        '9' => 9, _ => 0,
    }
}

proof fn lemma_digits_value_grows(s: Seq<char>, i: int)
    requires
        0 <= i <= s.len(),
    ensures
        digits_value(s.take(i)) <= digits_value(s),
    decreases s.len(),
{
    if i < s.len() {
        assert(s.drop_last().take(i) =~= s.take(i));
        lemma_digits_value_grows(s.drop_last(), i);
    } else {
        assert(s.take(i) =~= s);
    }
}

/// `str::parse::<u32>`.
fn parse_u32_chars(s: &[char]) -> (r: Option<u32>)
    ensures
        r == parse_u32(s@),
{
    let start: usize = if s.len() > 0 && s[0] == '+' { 1 } else { 0 };
    let ghost d = plus_stripped(s@);
    proof {
        assert(d =~= s@.skip(start as int));
    }
    if start == s.len() {
        return None;
    }
    let mut value: u64 = 0;
    let mut i = start;
    while i < s.len()
        invariant
            start <= i <= s@.len(),
            d == s@.skip(start as int),
            d == plus_stripped(s@),
            forall|j: int| 0 <= j < i - start ==> is_digit(#[trigger] d[j]),
            value == digits_value(d.take(i - start)),
            value <= u32::MAX,
        decreases s.len() - i,
    {
        let c = s[i];
        proof {
            assert(d[i - start] == c);
        }
        if !('0' <= c && c <= '9') {
            proof {
                assert(!is_digit(d[i - start]));
            }
            return None;
        }
        let next = value * 10 + digit_of(c);
        proof {
            let t = d.take(i - start + 1);
            assert(t.drop_last() =~= d.take(i - start));
            assert(t.last() == c);
        }
        if next > 4294967295 {
            proof {
                assert(digits_value(d.take(i - start + 1)) == next);
                lemma_digits_value_grows(d, i - start + 1);
            }
            return None;
        }
        value = next;
        i += 1;
    }
    proof {
        assert(d.take(d.len() as int) =~= d);
    }
    Some(value as u32)
}

/// The ASCII digit of a value below ten.
pub open spec fn digit_char(d: nat) -> char {
    if d == 0 {
        '0'
    } else if d == 1 {
        '1'
    } else if d == 2 {
        '2'
    } else if d == 3 {
        '3'
    } else if d == 4 {
        '4'
    } else if d == 5 {
        '5'
    } else if d == 6 {
        '6'
    } else if d == 7 {
        '7'
    } else if d == 8 {
        '8'
    } else {
        '9'
    }
}

/// The decimal digits of `n`, without leading zeros.
pub open spec fn decimal(n: nat) -> Seq<char>
    decreases n,
{
    if n < 10 {
        seq![digit_char(n)]
    } else {
        decimal(n / 10) + seq![digit_char(n % 10)]
    }
}

fn digit_char_of(d: u32) -> (c: char)
    requires
        d < 10,
    ensures
        c == digit_char(d as nat),
{
    match d {
        0 => '0', 1 => '1', 2 => '2', 3 => '3', 4 => '4', 5 => '5', 6 => '6', 7 => '7', 8 => '8',
        _ => '9',
    }
}

/// The decimal digits of `n`.
fn decimal_chars(n: u32) -> (r: Vec<char>)
    ensures
        r@ == decimal(n as nat),
    decreases n,
{
    if n < 10 {
        let r = vec![digit_char_of(n)];
        assert(r@ =~= decimal(n as nat));
        r
    } else {
        let mut r = decimal_chars(n / 10);
        r.push(digit_char_of(n % 10));
        assert(r@ =~= decimal(n as nat));
        r
    }
}

// ── Schema parsing ───────────────────────────────────────────────────────────

/// The schema that a `vec_chunks` `CREATE` statement declares: after the
/// first `embedding` (ignoring ASCII case), a `float[` or `int8[` column
/// type, and the trimmed text between the first `[` and the first `]` after
/// it read as a `u32`.
pub open spec fn schema_of(sql: Seq<char>) -> Option<VecChunksSchema> {
    match ci_find_from(sql, "embedding"@, 0) {
        None => None,
        Some(start) => {
            let after = sql.skip(start as int + 9);
            let t = trim_start(after);
            let storage = if ci_match_at(t, 0, "float["@) {
                Some(VecEmbeddingStorage::Float)
            } else if ci_match_at(t, 0, "int8["@) {
                Some(VecEmbeddingStorage::Int8)
            } else {
                None
            };
            let open = index_of(after, '[');
            let close = index_of(after, ']');
            match storage {
                None => None,
                Some(st) => if open >= after.len() || close >= after.len() || close <= open {
                    None
                } else {
                    match parse_u32(trim(after.subrange(open as int + 1, close as int))) {
                        None => None,
                        Some(d) => Some(VecChunksSchema { dimensions: d, storage: st }),
                    }
                },
            }
        },
    }
}

/// Reads the embedding dimension and storage type out of the `vec_chunks`
/// table's `CREATE` statement.
pub fn parse_schema_from_create_sql(sql: &str) -> (r: Option<VecChunksSchema>)
    ensures
        r == schema_of(sql@),
{
    let cs = chars_of(sql);
    let key = chars_of("embedding");
    proof {
        reveal_strlit("embedding");
    }
    let start = match ci_find(cs.as_slice(), key.as_slice()) {
        Some(p) => p,
        None => return None,
    };
    proof {
        assert(start + 9 <= cs@.len()) by {
            crate::vec_ext::lemma_ci_find_bounds(cs@, key@, 0, start as int);
        }
    }
    let after = crate::text::unicode::copy_from(cs.as_slice(), start + 9);
    let (a, _) = trim_bounds(after.as_slice());
    let t = crate::text::unicode::copy_from(after.as_slice(), a);
    let float_w = chars_of("float[");
    let int8_w = chars_of("int8[");
    let storage = if ci_match_exec(t.as_slice(), 0, float_w.as_slice()) {
        VecEmbeddingStorage::Float
    } else if ci_match_exec(t.as_slice(), 0, int8_w.as_slice()) {
        VecEmbeddingStorage::Int8
    } else {
        return None;
    };
    let open = crate::text::processing_wikilink::find_char(after.as_slice(), '[');
    let close = crate::text::processing_wikilink::find_char(after.as_slice(), ']');
    if open >= after.len() || close >= after.len() || close <= open {
        return None;
    }
    let inner = copy_range(after.as_slice(), open + 1, close);
    let trimmed = crate::text::unicode::trim_chars(inner.as_slice());
    match parse_u32_chars(trimmed.as_slice()) {
        Some(d) => Some(VecChunksSchema { dimensions: d, storage }),
        None => None,
    }
}

proof fn lemma_ci_find_bounds(s: Seq<char>, w: Seq<char>, p: int, r: int)
    requires
        r >= 0,
        ci_find_from(s, w, p) == Some(r as nat),
    ensures
        p <= r,
        r + w.len() <= s.len(),
    decreases s.len() + 1 - p,
{
    if !(p < 0 || p + w.len() > s.len()) && !ci_match_at(s, p, w) {
        lemma_ci_find_bounds(s, w, p + 1, r);
    }
}

/// Reads the embedding dimension out of the `vec_chunks` table's `CREATE`
/// statement.
pub fn parse_dimensions_from_create_sql(sql: &str) -> (r: Option<u32>)
    ensures
        r == match schema_of(sql@) {
            Some(s) => Some(s.dimensions),
            None => None,
        },
{
    match parse_schema_from_create_sql(sql) {
        Some(s) => Some(s.dimensions),
        None => None,
    }
}

// ── Planning the table ───────────────────────────────────────────────────────

/// What must happen for `vec_chunks` to hold embeddings of a dimension.
#[derive(Debug, Clone, PartialEq, Eq)]
pub enum VecChunksPlan {
    /// The table already has the dimension and `int8` storage.
    Keep,
    /// The table must be created with `sql`; when `reset` holds, the old
    /// table is dropped, vector metadata cleared and active chunks marked
    /// pending first.
    Create {
        /// Whether a table of another shape exists and must be reset.
        reset: bool,
        /// The `CREATE VIRTUAL TABLE` statement.
        sql: String,
    },
}

/// The `CREATE VIRTUAL TABLE` statement for `dimensions`.
pub open spec fn create_sql(dimensions: u32) -> Seq<char> {
    "CREATE VIRTUAL TABLE vec_chunks USING vec0(\n            chunk_id INTEGER PRIMARY KEY,\n            embedding int8["@
        + decimal(dimensions as nat) + "] distance_metric=cosine\n         )"@
}

/// The message of the error for a zero dimension.
pub open spec fn zero_dimensions_message() -> Seq<char> {
    "vec_chunks dimensions must be a positive integer"@
}

/// Decides what [`VecChunksPlan`] brings a table whose current schema is
/// `current` to `dimensions` with `int8` storage.
///
/// # Errors
///
/// Returns [`TalonError::InvalidInput`] if `dimensions` is zero.
pub fn plan_vec_chunks(current: Option<VecChunksSchema>, dimensions: u32) -> (r: Result<VecChunksPlan, TalonError>)
    ensures
        dimensions == 0 <==> r is Err,
        r matches Err(e) ==> e matches TalonError::InvalidInput { field: f, message: m } && f
            == "dimensions" && m@ == zero_dimensions_message(),
        r matches Ok(p) ==> (current == Some(VecChunksSchema { dimensions, storage: VecEmbeddingStorage::Int8 })
            <==> p is Keep),
        r matches Ok(p) ==> (p matches VecChunksPlan::Create { reset, sql } ==> reset == (current is Some)
            && sql@ == create_sql(dimensions)),
{
    if dimensions == 0 {
        let message = String::from_str("vec_chunks dimensions must be a positive integer");
        proof {
            reveal_strlit("vec_chunks dimensions must be a positive integer");
        }
        return Err(TalonError::InvalidInput { field: "dimensions", message });
    }
    let expected = VecChunksSchema { dimensions, storage: VecEmbeddingStorage::Int8 };
    let reset = match current {
        Some(c) => {
            if c == expected {
                return Ok(VecChunksPlan::Keep);
            }
            true
        },
        None => false,
    };
    let mut sql: Vec<char> = Vec::new();
    push_all(&mut sql, chars_of("CREATE VIRTUAL TABLE vec_chunks USING vec0(\n            chunk_id INTEGER PRIMARY KEY,\n            embedding int8[").as_slice());
    let digits = decimal_chars(dimensions);
    push_all(&mut sql, digits.as_slice());
    push_all(&mut sql, chars_of("] distance_metric=cosine\n         )").as_slice());
    assert(sql@ =~= create_sql(dimensions));
    Ok(VecChunksPlan::Create { reset, sql: string_of(sql.as_slice()) })
}


// ── Tables created are read back ────────────────────────────────────────────

/// The digits of a number are ASCII digits that add up to it.
pub proof fn lemma_decimal_digits(n: nat)
    ensures
        decimal(n).len() > 0,
        all_digits(decimal(n)),
        digits_value(decimal(n)) == n,
    decreases n,
{
    let r = n % 10;
    assert(digit_value(digit_char(r)) == r);
    if n >= 10 {
        lemma_decimal_digits(n / 10);
        let s = decimal(n / 10);
        let t = s + seq![digit_char(r)];
        assert(decimal(n) == t);
        assert(t.drop_last() =~= s);
        assert(t.last() == digit_char(r));
        assert(digits_value(t) == digits_value(s) * 10 + digit_value(digit_char(r)));
        assert((n / 10) * 10 + r == n);
        assert forall|i: int| 0 <= i < t.len() implies is_digit(#[trigger] t[i]) by {
            if i < s.len() {
                assert(t[i] == s[i]);
            }
        }
    } else {
        let t = seq![digit_char(n)];
        assert(decimal(n) == t);
        assert(t.drop_last() =~= Seq::<char>::empty());
        assert(digits_value(t) == digits_value(t.drop_last()) * 10 + digit_value(t.last()));
    }
}

/// A number's digits parse back to it.
pub proof fn lemma_parse_decimal(n: u32)
    ensures
        parse_u32(decimal(n as nat)) == Some(n),
        trim(decimal(n as nat)) == decimal(n as nat),
{
    let s = decimal(n as nat);
    lemma_decimal_digits(n as nat);
    assert(is_digit(s[0]));
    assert(plus_stripped(s) == s);
    assert(!is_ws(s[0]));
    assert(!is_ws(s[s.len() - 1]));
    lemma_lead_ws(s, 0);
    assert(trim_start(s) =~= s);
    lemma_trail_ws(s, 0);
    assert(trim_end(s) =~= s);
}

proof fn lemma_ci_skip(s: Seq<char>, w: Seq<char>, p: int, j: int)
    requires
        0 <= p,
        0 <= j < w.len(),
        p + w.len() <= s.len(),
        s[p + j] != w[j],
        s[p + j] != ascii_upper(w[j]),
    ensures
        ci_find_from(s, w, p) == ci_find_from(s, w, p + 1),
{
    assert(!ci_match_at(s, p, w));
}

/// The first `embedding` in a created table's statement is the column's.
proof fn lemma_create_sql_finds_embedding(dimensions: u32)
    ensures
        ci_find_from(create_sql(dimensions), "embedding"@, 0) == Some(98nat),
{
    reveal_strlit("CREATE VIRTUAL TABLE vec_chunks USING vec0(\n            chunk_id INTEGER PRIMARY KEY,\n            embedding int8[");
    reveal_strlit("embedding");
    let a = "CREATE VIRTUAL TABLE vec_chunks USING vec0(\n            chunk_id INTEGER PRIMARY KEY,\n            embedding int8["@;
    let b = "] distance_metric=cosine\n         )"@;
    let digits = decimal(dimensions as nat);
    let s = create_sql(dimensions);
    let w = "embedding"@;
    assert(s =~= a + digits + b);
    assert(a.len() == 113);
    assert(w.len() == 9);
    assert forall|i: int| 0 <= i < a.len() implies #[trigger] s[i] == a[i] by {}
        lemma_ci_skip(s, w, 0, 0);
        lemma_ci_skip(s, w, 1, 0);
        lemma_ci_skip(s, w, 2, 1);
        lemma_ci_skip(s, w, 3, 0);
        lemma_ci_skip(s, w, 4, 0);
        lemma_ci_skip(s, w, 5, 1);
        lemma_ci_skip(s, w, 6, 0);
        lemma_ci_skip(s, w, 7, 0);
        lemma_ci_skip(s, w, 8, 0);
        lemma_ci_skip(s, w, 9, 0);
        lemma_ci_skip(s, w, 10, 0);
        lemma_ci_skip(s, w, 11, 0);
        lemma_ci_skip(s, w, 12, 0);
        lemma_ci_skip(s, w, 13, 0);
        lemma_ci_skip(s, w, 14, 0);
        lemma_ci_skip(s, w, 15, 0);
        lemma_ci_skip(s, w, 16, 0);
        lemma_ci_skip(s, w, 17, 0);
        lemma_ci_skip(s, w, 18, 0);
        lemma_ci_skip(s, w, 19, 1);
        lemma_ci_skip(s, w, 20, 0);
        lemma_ci_skip(s, w, 21, 0);
        lemma_ci_skip(s, w, 22, 1);
        lemma_ci_skip(s, w, 23, 0);
        lemma_ci_skip(s, w, 24, 0);
        lemma_ci_skip(s, w, 25, 0);
        lemma_ci_skip(s, w, 26, 0);
        lemma_ci_skip(s, w, 27, 0);
        lemma_ci_skip(s, w, 28, 0);
        lemma_ci_skip(s, w, 29, 0);
        lemma_ci_skip(s, w, 30, 0);
        lemma_ci_skip(s, w, 31, 0);
        lemma_ci_skip(s, w, 32, 0);
        lemma_ci_skip(s, w, 33, 0);
        lemma_ci_skip(s, w, 34, 0);
        lemma_ci_skip(s, w, 35, 0);
        lemma_ci_skip(s, w, 36, 0);
        lemma_ci_skip(s, w, 37, 0);
        lemma_ci_skip(s, w, 38, 0);
        lemma_ci_skip(s, w, 39, 1);
        lemma_ci_skip(s, w, 40, 0);
        lemma_ci_skip(s, w, 41, 0);
        lemma_ci_skip(s, w, 42, 0);
        lemma_ci_skip(s, w, 43, 0);
        lemma_ci_skip(s, w, 44, 0);
        lemma_ci_skip(s, w, 45, 0);
        lemma_ci_skip(s, w, 46, 0);
        lemma_ci_skip(s, w, 47, 0);
        lemma_ci_skip(s, w, 48, 0);
        lemma_ci_skip(s, w, 49, 0);
        lemma_ci_skip(s, w, 50, 0);
        lemma_ci_skip(s, w, 51, 0);
        lemma_ci_skip(s, w, 52, 0);
        lemma_ci_skip(s, w, 53, 0);
        lemma_ci_skip(s, w, 54, 0);
        lemma_ci_skip(s, w, 55, 0);
        lemma_ci_skip(s, w, 56, 0);
        lemma_ci_skip(s, w, 57, 0);
        lemma_ci_skip(s, w, 58, 0);
        lemma_ci_skip(s, w, 59, 0);
        lemma_ci_skip(s, w, 60, 0);
        lemma_ci_skip(s, w, 61, 0);
        lemma_ci_skip(s, w, 62, 0);
        lemma_ci_skip(s, w, 63, 0);
        lemma_ci_skip(s, w, 64, 0);
        lemma_ci_skip(s, w, 65, 0);
        lemma_ci_skip(s, w, 66, 0);
        lemma_ci_skip(s, w, 67, 0);
        lemma_ci_skip(s, w, 68, 1);
        lemma_ci_skip(s, w, 69, 0);
        lemma_ci_skip(s, w, 70, 1);
        lemma_ci_skip(s, w, 71, 0);
        lemma_ci_skip(s, w, 72, 0);
        lemma_ci_skip(s, w, 73, 0);
        lemma_ci_skip(s, w, 74, 0);
        lemma_ci_skip(s, w, 75, 0);
        lemma_ci_skip(s, w, 76, 0);
        lemma_ci_skip(s, w, 77, 0);
        lemma_ci_skip(s, w, 78, 0);
        lemma_ci_skip(s, w, 79, 0);
        lemma_ci_skip(s, w, 80, 0);
        lemma_ci_skip(s, w, 81, 0);
        lemma_ci_skip(s, w, 82, 1);
        lemma_ci_skip(s, w, 83, 0);
        lemma_ci_skip(s, w, 84, 0);
        lemma_ci_skip(s, w, 85, 0);
        lemma_ci_skip(s, w, 86, 0);
        lemma_ci_skip(s, w, 87, 0);
        lemma_ci_skip(s, w, 88, 0);
        lemma_ci_skip(s, w, 89, 0);
        lemma_ci_skip(s, w, 90, 0);
        lemma_ci_skip(s, w, 91, 0);
        lemma_ci_skip(s, w, 92, 0);
        lemma_ci_skip(s, w, 93, 0);
        lemma_ci_skip(s, w, 94, 0);
        lemma_ci_skip(s, w, 95, 0);
        lemma_ci_skip(s, w, 96, 0);
        lemma_ci_skip(s, w, 97, 0);
    assert(ci_match_at(s, 98, w)) by {
        assert forall|k: int| 0 <= k < w.len() implies #[trigger] s[98 + k] == w[k] by {
            assert(s[98 + k] == a[98 + k]);
        }
    }
}

/// A table created for `dimensions` is read back with those dimensions and
/// `int8` storage: planning again for the same dimensions keeps it.
pub proof fn lemma_created_table_read_back(dimensions: u32)
    ensures
        schema_of(create_sql(dimensions)) == Some(VecChunksSchema { dimensions, storage: VecEmbeddingStorage::Int8 }),
{
    reveal_strlit("CREATE VIRTUAL TABLE vec_chunks USING vec0(\n            chunk_id INTEGER PRIMARY KEY,\n            embedding int8[");
    reveal_strlit("] distance_metric=cosine\n         )");
    reveal_strlit("embedding");
    reveal_strlit("float[");
    reveal_strlit("int8[");
    let a = "CREATE VIRTUAL TABLE vec_chunks USING vec0(\n            chunk_id INTEGER PRIMARY KEY,\n            embedding int8["@;
    let b = "] distance_metric=cosine\n         )"@;
    let digits = decimal(dimensions as nat);
    let s = create_sql(dimensions);
    let w = "embedding"@;
    lemma_parse_decimal(dimensions);
    lemma_decimal_digits(dimensions as nat);
    assert(s =~= a + digits + b);
    assert(a.len() == 113);
    assert(w.len() == 9);
    lemma_create_sql_finds_embedding(dimensions);
    assert(ci_find_from(s, w, 0) == Some(98nat));
    let after = s.skip(107);
    assert(after =~= seq![' ', 'i', 'n', 't', '8', '['] + digits + b);
    assert(!is_ws(after[1]));
    lemma_lead_ws(after, 1);
    let t = trim_start(after);
    assert(t =~= seq!['i', 'n', 't', '8', '['] + digits + b);
    assert(!ci_match_at(t, 0, "float["@)) by {
        assert(t[0] == 'i');
    }
    assert(ci_match_at(t, 0, "int8["@)) by {
        assert forall|k: int| 0 <= k < 5 implies #[trigger] t[0 + k] == "int8["@[k] by {}
    }
    assert forall|j: int| 0 <= j < 5 implies #[trigger] after[j] != '[' by {}
    lemma_index_of(after, '[', 5);
    let close: int = 6 + digits.len() as int;
    assert forall|j: int| 0 <= j < close implies #[trigger] after[j] != ']' by {
        if j >= 6 {
            assert(after[j] == digits[j - 6]);
            assert(is_digit(digits[j - 6]));
        }
    }
    assert(after[close] == ']');
    lemma_index_of(after, ']', close);
    assert(after.subrange(6, close) =~= digits);
}

} // verus!
