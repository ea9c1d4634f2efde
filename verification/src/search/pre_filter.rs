//! Pre-computed search filters injected into retrieval SQL.
//!
//! The filters are turned into SQL constraints so that the candidate pool
//! only ever holds notes that match the user's intent. Glob clauses cannot be
//! written in SQL; they are decided per note by [`glob_clause_matches`].

use globset::{GlobBuilder, GlobSetBuilder};
use vstd::prelude::*;

use crate::search::input::{WhereClause, WhereOperator};
use crate::search::match_text::ascii_digit;
use crate::search::query_syntax::{normalize_tag_filter, normalized_tag_filter};
use crate::text::unicode::{
    chars_eq, chars_of, lead_count, lemma_lead_count, lowercase, push_all, string_of, to_lowercase,
};

verus! {

/// A parameter bound to a `?` placeholder of a filter's SQL.
#[derive(Debug, Clone, PartialEq, Eq)]
pub enum SqlParam {
    /// An integer.
    Integer(i64),
    /// A text value.
    Text(String),
    /// A decimal literal, bound as a floating-point number (`REAL`).
    Number(String),
}

/// The mathematical content of a [`SqlParam`].
pub ghost enum ParamModel {
    Integer(int),
    Text(Seq<char>),
    Number(Seq<char>),
}

pub open spec fn param_view(p: SqlParam) -> ParamModel {
    match p {
        SqlParam::Integer(i) => ParamModel::Integer(i as int),
        SqlParam::Text(s) => ParamModel::Text(s@),
        SqlParam::Number(s) => ParamModel::Number(s@),
    }
}

pub open spec fn params_view(v: Seq<SqlParam>) -> Seq<ParamModel> {
    v.map_values(|p: SqlParam| param_view(p))
}

/// Filters to push down into each retrieval query.
#[derive(Debug, Clone)]
pub struct PreFilter {
    /// Minimum `notes.mtime_ms` threshold (from `--since`).
    pub since_ms: Option<u64>,
    /// Accepted note IDs from scope config. `None` = all notes in scope.
    /// `Some([])` = impossible (zero notes pass): callers should short-circuit.
    pub accepted_note_ids: Option<Vec<i64>>,
    /// `--where` clauses (all of them; some may need SQL, some post-filter).
    pub where_clauses: Vec<WhereClause>,
    /// Tag filters from the request or the query syntax.
    pub tags: Vec<String>,
    /// Heading filters from the request or the query syntax.
    pub headings: Vec<String>,
}

/// A filter with no constraint.
pub open spec fn is_unconstrained(f: PreFilter) -> bool {
    &&& f.since_ms is None
    &&& f.accepted_note_ids is None
    &&& f.where_clauses@.len() == 0
    &&& f.tags@.len() == 0
    &&& f.headings@.len() == 0
}

impl Default for PreFilter {
    fn default() -> (r: Self)
        ensures
            is_unconstrained(r),
    {
        PreFilter::none()
    }
}

// ── SQL text ─────────────────────────────────────────────────────────────────

/// `c` is `w` or `w`'s upper-case letter (for the letters of the float
/// keywords).
pub open spec fn ci_char(c: char, w: char) -> bool {
    c == w || c == match w {
        'a' => 'A',
        'f' => 'F',
        'i' => 'I',
        'n' => 'N',
        't' => 'T',
        'y' => 'Y',
        _ => w,
    }
}

/// `r` spells `w` up to the case of its letters.
pub open spec fn ci_word(r: Seq<char>, w: Seq<char>) -> bool {
    r.len() == w.len() && forall|i: int| 0 <= i < r.len() ==> ci_char(#[trigger] r[i], w[i])
}

/// `r` without one leading sign.
pub open spec fn unsigned(r: Seq<char>) -> Seq<char> {
    if r.len() > 0 && (r[0] == '+' || r[0] == '-') {
        r.drop_first()
    } else {
        r
    }
}

/// An optional exponent: empty, or `e`/`E`, an optional sign and digits.
pub open spec fn exponent_ok(e: Seq<char>) -> bool {
    e.len() == 0 || ((e[0] == 'e' || e[0] == 'E') && {
        let u = unsigned(e.drop_first());
        u.len() > 0 && lead_count(u, ascii_digit()) == u.len()
    })
}

/// Digits, an optional `.` and digits (at least one digit in all), then an
/// optional exponent.
pub open spec fn number_ok(r: Seq<char>) -> bool {
    let d1 = lead_count(r, ascii_digit());
    let rest = r.skip(d1 as int);
    if rest.len() > 0 && rest[0] == '.' {
        let frac = rest.drop_first();
        let d2 = lead_count(frac, ascii_digit());
        d1 + d2 > 0 && exponent_ok(frac.skip(d2 as int))
    } else {
        d1 > 0 && exponent_ok(rest)
    }
}

/// Whether the standard library's float parser (`str::parse` into a
/// double-precision float) accepts `s`: the grammar that the standard
/// library documents for it, `Sign? ('inf' | 'infinity' | 'nan' | Number)`
/// with `Number ::= (Digit+ | Digit+ '.' Digit* | Digit* '.' Digit+) Exp?`,
/// `Exp ::= 'e' Sign? Digit+`, read without regard to case.
pub open spec fn decimal_literal(s: Seq<char>) -> bool {
    let r = unsigned(s);
    ci_word(r, "inf"@) || ci_word(r, "infinity"@) || ci_word(r, "nan"@) || number_ok(r)
}

fn ci_word_at(v: &[char], from: usize, w: &str) -> (b: bool)
    requires
        from <= v@.len(),
    ensures
        b == ci_word(v@.skip(from as int), w@),
{
    let wc = chars_of(w);
    if v.len() - from != wc.len() {
        return false;
    }
    let mut i: usize = 0;
    while i < wc.len()
        invariant
            from <= v@.len() <= usize::MAX,
            wc@ == w@,
            v@.len() - from == wc@.len(),
            i <= wc@.len(),
            forall|j: int| 0 <= j < i ==> ci_char(#[trigger] v@.skip(from as int)[j], wc@[j]),
        decreases wc.len() - i,
    {
        let c = v[from + i];
        let l = wc[i];
        let up = match l {
            'a' => 'A',
            'f' => 'F',
            'i' => 'I',
            'n' => 'N',
            't' => 'T',
            'y' => 'Y',
            _ => l,
        };
        assert(v@.skip(from as int)[i as int] == c);
        if !(c == l || c == up) {
            return false;
        }
        i += 1;
    }
    true
}

/// `from` plus the number of ASCII digits that start `v[from..]`.
fn digits_end(v: &[char], from: usize) -> (k: usize)
    requires
        from <= v@.len(),
    ensures
        from <= k <= v@.len(),
        k - from == lead_count(v@.skip(from as int), ascii_digit()),
        v@.skip(from as int).skip(k - from) == v@.skip(k as int),
{
    let mut k = from;
    while k < v.len() && '0' <= v[k] && v[k] <= '9'
        invariant
            from <= k <= v@.len(),
            forall|j: int| from <= j < k ==> (ascii_digit())(#[trigger] v@[j]),
        decreases v.len() - k,
    {
        k += 1;
    }
    proof {
        let s = v@.skip(from as int);
        assert forall|j: int| 0 <= j < k - from implies (ascii_digit())(#[trigger] s[j]) by {
            assert(s[j] == v@[j + from]);
        }
        if k < v.len() {
            assert(s[k - from] == v@[k as int]);
        }
        lemma_lead_count(s, ascii_digit(), k - from);
        assert(s.skip(k - from) =~= v@.skip(k as int));
    }
    k
}

fn exponent_ok_at(v: &[char], from: usize) -> (b: bool)
    requires
        from <= v@.len(),
    ensures
        b == exponent_ok(v@.skip(from as int)),
{
    let ghost e = v@.skip(from as int);
    if from == v.len() {
        return true;
    }
    assert(e[0] == v@[from as int]);
    if !(v[from] == 'e' || v[from] == 'E') {
        return false;
    }
    let mut u = from + 1;
    proof {
        assert(e.drop_first() =~= v@.skip(u as int));
    }
    if u < v.len() && (v[u] == '+' || v[u] == '-') {
        proof {
            assert(v@.skip(u as int)[0] == v@[u as int]);
            assert(v@.skip(u as int).drop_first() =~= v@.skip(u + 1));
        }
        u = u + 1;
    } else {
        proof {
            if u < v.len() {
                assert(v@.skip(u as int)[0] == v@[u as int]);
            }
        }
    }
    let k = digits_end(v, u);
    u < v.len() && k == v.len()
}

/// Whether the standard library's float parser accepts `s`.
fn is_decimal_literal(s: &str) -> (b: bool)
    ensures
        b == decimal_literal(s@),
{
    let v = chars_of(s);
    let mut from: usize = 0;
    proof {
        assert(v@.skip(0) =~= v@);
    }
    if v.len() > 0 && (v[0] == '+' || v[0] == '-') {
        from = 1;
        proof {
            assert(v@.drop_first() =~= v@.skip(1));
        }
    }
    let ghost r = v@.skip(from as int);
    assert(r == unsigned(s@));
    if ci_word_at(v.as_slice(), from, "inf") || ci_word_at(v.as_slice(), from, "infinity")
        || ci_word_at(v.as_slice(), from, "nan") {
        return true;
    }
    let d1 = digits_end(v.as_slice(), from);
    if d1 < v.len() && v[d1] == '.' {
        proof {
            assert(r.skip(d1 - from)[0] == v@[d1 as int]);
            assert(r.skip(d1 - from).drop_first() =~= v@.skip(d1 + 1));
        }
        let d2 = digits_end(v.as_slice(), d1 + 1);
        let any = d1 > from || d2 > d1 + 1;
        any && exponent_ok_at(v.as_slice(), d2)
    } else {
        proof {
            if d1 < v.len() {
                assert(r.skip(d1 - from)[0] == v@[d1 as int]);
            }
        }
        d1 > from && exponent_ok_at(v.as_slice(), d1)
    }
}

/// The subquery that selects a note's frontmatter field by name.
pub open spec fn field_prefix() -> Seq<char> {
    "EXISTS (SELECT 1 FROM note_frontmatter_fields WHERE note_id = n.id AND field = ?"@
}

/// ` AND ` + the field subquery + `tail`.
pub open spec fn and_field(tail: Seq<char>) -> Seq<char> {
    " AND "@ + field_prefix() + tail
}

/// The SQL of an ordered comparison (`<`, `<=`, `>`, `>=`): numeric when the
/// value is a decimal literal, else a date comparison; never true without a
/// value.
pub open spec fn ordered_sql(key: Seq<char>, value: Option<Seq<char>>, op: Seq<char>) -> (
    Seq<char>,
    Seq<ParamModel>,
) {
    match value {
        None => (and_field(" AND 0)"@), seq![ParamModel::Text(key)]),
        Some(t) => if decimal_literal(t) {
            (
                and_field(" AND value_type = 'number' AND CAST(value AS REAL) "@ + op + " ?)"@),
                seq![ParamModel::Text(key), ParamModel::Number(t)],
            )
        } else {
            (
                and_field(" AND value_type = 'date' AND value "@ + op + " ?)"@),
                seq![ParamModel::Text(key), ParamModel::Text(t)],
            )
        },
    }
}

/// `c` escaped for a SQL `LIKE` pattern.
pub open spec fn like_char(c: char) -> Seq<char> {
    if c == '\\' {
        seq!['\\', '\\']
    } else if c == '%' {
        seq!['\\', '%']
    } else if c == '_' {
        seq!['\\', '_']
    } else {
        seq![c]
    }
}

/// `s` with `\`, `%` and `_` escaped for a SQL `LIKE` pattern.
pub open spec fn like_escaped(s: Seq<char>) -> Seq<char>
    decreases s.len(),
{
    if s.len() == 0 {
        seq![]
    } else {
        like_escaped(s.drop_last()) + like_char(s.last())
    }
}

/// `opt` or the empty string.
pub open spec fn or_empty(opt: Option<Seq<char>>) -> Seq<char> {
    match opt {
        Some(v) => v,
        None => seq![],
    }
}

/// The SQL fragment and parameters of one `--where` clause.
pub open spec fn where_sql(key: Seq<char>, op: WhereOperator, value: Option<Seq<char>>) -> (
    Seq<char>,
    Seq<ParamModel>,
) {
    let k = ParamModel::Text(key);
    let v = ParamModel::Text(or_empty(value));
    match op {
        WhereOperator::Exists => (and_field(")"@), seq![k]),
        WhereOperator::Equals => (and_field(" AND value = ?)"@), seq![k, v]),
        WhereOperator::NotEquals => (and_field(" AND value != ?)"@), seq![k, v]),
        WhereOperator::LessThan => ordered_sql(key, value, "<"@),
        WhereOperator::LessThanOrEqual => ordered_sql(key, value, "<="@),
        WhereOperator::GreaterThan => ordered_sql(key, value, ">"@),
        WhereOperator::GreaterThanOrEqual => ordered_sql(key, value, ">="@),
        WhereOperator::Contains => (and_field(" AND INSTR(value, ?) > 0)"@), seq![k, v]),
        WhereOperator::StartsWith => {
            let pattern = ParamModel::Text(like_escaped(or_empty(value)) + "%"@);
            if key == "path"@ {
                (" AND n.vault_path LIKE ? ESCAPE '\\'"@, seq![pattern])
            } else {
                (and_field(" AND value LIKE ? ESCAPE '\\')"@), seq![k, pattern])
            }
        },
        WhereOperator::GlobMatch => (seq![], seq![]),
    }
}

/// The `--since` constraint.
pub open spec fn since_sql(since: Option<u64>) -> (Seq<char>, Seq<ParamModel>) {
    match since {
        None => (seq![], seq![]),
        Some(ms) => (
            " AND n.mtime_ms >= ?"@,
            seq![ParamModel::Integer(if ms <= i64::MAX { ms as int } else { i64::MAX as int })],
        ),
    }
}

/// `n` placeholders separated by commas.
pub open spec fn placeholders(n: nat) -> Seq<char>
    decreases n,
{
    if n == 0 {
        seq![]
    } else if n == 1 {
        seq!['?']
    } else {
        placeholders((n - 1) as nat) + seq![',', '?']
    }
}

/// The scope constraint.
pub open spec fn ids_sql(ids: Option<Seq<i64>>) -> (Seq<char>, Seq<ParamModel>) {
    match ids {
        None => (seq![], seq![]),
        Some(v) => (
            " AND n.id IN ("@ + placeholders(v.len()) + ")"@,
            v.map_values(|i: i64| ParamModel::Integer(i as int)),
        ),
    }
}

/// The accepted ids, as a sequence.
pub open spec fn opt_ids(o: Option<Vec<i64>>) -> Option<Seq<i64>> {
    match o {
        Some(v) => Some(v@),
        None => None,
    }
}

/// The constraints of the `--where` clauses, in order.
pub open spec fn wheres_sql(cs: Seq<WhereClause>) -> (Seq<char>, Seq<ParamModel>)
    decreases cs.len(),
{
    if cs.len() == 0 {
        (seq![], seq![])
    } else {
        let (s, p) = wheres_sql(cs.drop_last());
        let c = cs.last();
        let (s2, p2) = where_sql(c.key@, c.op, match c.value {
            Some(v) => Some(v@),
            None => None,
        });
        (s + s2, p + p2)
    }
}

/// The subquery that requires a tag.
pub open spec fn tag_sql() -> Seq<char> {
    " AND EXISTS (SELECT 1 FROM note_tags nt WHERE nt.note_id = n.id AND nt.tag_norm = ?)"@
}

/// The subquery that requires a heading.
pub open spec fn heading_sql() -> Seq<char> {
    " AND EXISTS (SELECT 1 FROM chunks c WHERE c.note_id = n.id AND LOWER(c.heading_path) LIKE ?)"@
}

/// The tag constraints, in order.
pub open spec fn tags_sql(tags: Seq<Seq<char>>) -> (Seq<char>, Seq<ParamModel>)
    decreases tags.len(),
{
    if tags.len() == 0 {
        (seq![], seq![])
    } else {
        let (s, p) = tags_sql(tags.drop_last());
        (s + tag_sql(), p.push(ParamModel::Text(normalized_tag_filter(tags.last()))))
    }
}

/// The heading constraints, in order.
pub open spec fn headings_sql(hs: Seq<Seq<char>>) -> (Seq<char>, Seq<ParamModel>)
    decreases hs.len(),
{
    if hs.len() == 0 {
        (seq![], seq![])
    } else {
        let (s, p) = headings_sql(hs.drop_last());
        (s + heading_sql(), p.push(ParamModel::Text(seq!['%'] + lowercase(hs.last()) + seq!['%'])))
    }
}

/// The five constraint groups, in order.
pub open spec fn filter_sql(f: PreFilter) -> (Seq<char>, Seq<ParamModel>) {
    let a = since_sql(f.since_ms);
    let b = ids_sql(opt_ids(f.accepted_note_ids));
    let c = wheres_sql(f.where_clauses@);
    let d = tags_sql(f.tags@.map_values(|t: String| t@));
    let e = headings_sql(f.headings@.map_values(|h: String| h@));
    (a.0 + b.0 + c.0 + d.0 + e.0, a.1 + b.1 + c.1 + d.1 + e.1)
}

pub(crate) fn push_str(out: &mut Vec<char>, s: &str)
    ensures
        final(out)@ == old(out)@ + s@,
{
    let cs = chars_of(s);
    push_all(out, cs.as_slice());
}

fn text_param(s: &Vec<char>) -> (p: SqlParam)
    ensures
        param_view(p) == ParamModel::Text(s@),
{
    SqlParam::Text(string_of(s.as_slice()))
}

fn like_escape_chars(s: &[char]) -> (r: Vec<char>)
    ensures
        r@ == like_escaped(s@),
{
    let mut r: Vec<char> = Vec::new();
    let mut i: usize = 0;
    while i < s.len()
        invariant
            i <= s@.len(),
            r@ == like_escaped(s@.take(i as int)),
        decreases s.len() - i,
    {
        let c = s[i];
        if c == '\\' {
            r.push('\\');
            r.push('\\');
        } else if c == '%' {
            r.push('\\');
            r.push('%');
        } else if c == '_' {
            r.push('\\');
            r.push('_');
        } else {
            r.push(c);
        }
        proof {
            let t = s@.take(i + 1);
            assert(t.drop_last() =~= s@.take(i as int));
            assert(t.last() == c);
            assert(r@ =~= like_escaped(t));
        }
        i += 1;
    }
    assert(s@.take(s@.len() as int) =~= s@);
    r
}

/// Escapes `%`, `_`, and `\` for use in a SQL `LIKE` pattern.
fn escape_like(value: Option<&String>) -> (r: Vec<char>)
    ensures
        r@ == like_escaped(
            match value {
                Some(v) => v@,
                None => seq![],
            },
        ),
{
    match value {
        Some(v) => {
            let cs = chars_of(v.as_str());
            like_escape_chars(cs.as_slice())
        },
        None => {
            let r: Vec<char> = Vec::new();
            assert(r@ =~= like_escaped(seq![]));
            r
        },
    }
}

fn ordered_where_clause_sql(key: &String, clause: &WhereClause, op: &str) -> (r: (String, Vec<SqlParam>))
    requires
        key@ == clause.key@,
    ensures
        r.0@ == ordered_sql(key@, match clause.value {
            Some(v) => Some(v@),
            None => None,
        }, op@).0,
        params_view(r.1@) == ordered_sql(key@, match clause.value {
            Some(v) => Some(v@),
            None => None,
        }, op@).1,
{
    let mut sql: Vec<char> = Vec::new();
    push_str(&mut sql, " AND ");
    push_str(&mut sql, "EXISTS (SELECT 1 FROM note_frontmatter_fields WHERE note_id = n.id AND field = ?");
    match &clause.value {
        None => {
            push_str(&mut sql, " AND 0)");
            let params = vec![SqlParam::Text(key.clone())];
            proof {
                assert(sql@ =~= and_field(" AND 0)"@));
                assert(params_view(params@) =~= seq![ParamModel::Text(key@)]);
            }
            (string_of(sql.as_slice()), params)
        },
        Some(target) => {
            let number = is_decimal_literal(target.as_str());
            if number {
                push_str(&mut sql, " AND value_type = 'number' AND CAST(value AS REAL) ");
                push_str(&mut sql, op);
                push_str(&mut sql, " ?)");
                let params = vec![SqlParam::Text(key.clone()), SqlParam::Number(target.clone())];
                proof {
                    assert(sql@ =~= and_field(" AND value_type = 'number' AND CAST(value AS REAL) "@ + op@ + " ?)"@));
                    assert(params_view(params@) =~= seq![ParamModel::Text(key@), ParamModel::Number(target@)]);
                }
                (string_of(sql.as_slice()), params)
            } else {
                push_str(&mut sql, " AND value_type = 'date' AND value ");
                push_str(&mut sql, op);
                push_str(&mut sql, " ?)");
                let params = vec![SqlParam::Text(key.clone()), SqlParam::Text(target.clone())];
                proof {
                    assert(sql@ =~= and_field(" AND value_type = 'date' AND value "@ + op@ + " ?)"@));
                    assert(params_view(params@) =~= seq![ParamModel::Text(key@), ParamModel::Text(target@)]);
                }
                (string_of(sql.as_slice()), params)
            }
        },
    }
}

/// Builds ` AND ` + the field subquery + `tail`, with the given parameters.
fn field_sql(tail: &str, params: Vec<SqlParam>) -> (r: (String, Vec<SqlParam>))
    ensures
        r.0@ == and_field(tail@),
        r.1@ == params@,
{
    let mut sql: Vec<char> = Vec::new();
    push_str(&mut sql, " AND ");
    push_str(&mut sql, "EXISTS (SELECT 1 FROM note_frontmatter_fields WHERE note_id = n.id AND field = ?");
    push_str(&mut sql, tail);
    assert(sql@ =~= and_field(tail@));
    (string_of(sql.as_slice()), params)
}

/// The SQL fragment and parameters of one `--where` clause; glob clauses
/// give none.
fn where_clause_sql(clause: &WhereClause) -> (r: (String, Vec<SqlParam>))
    ensures
        r.0@ == where_sql(clause.key@, clause.op, match clause.value {
            Some(v) => Some(v@),
            None => None,
        }).0,
        params_view(r.1@) == where_sql(clause.key@, clause.op, match clause.value {
            Some(v) => Some(v@),
            None => None,
        }).1,
{
    let key = clause.key.clone();
    let val: String = match &clause.value {
        Some(v) => v.clone(),
        None => String::new(),
    };
    let ghost k = ParamModel::Text(key@);
    let ghost v = ParamModel::Text(val@);
    proof {
        assert(val@ == or_empty(match clause.value {
            Some(v) => Some(v@),
            None => None,
        }));
    }
    match clause.op {
        WhereOperator::Exists => {
            let r = field_sql(")", vec![SqlParam::Text(key)]);
            assert(params_view(r.1@) =~= seq![k]);
            r
        },
        WhereOperator::Equals => {
            let r = field_sql(" AND value = ?)", vec![SqlParam::Text(key), SqlParam::Text(val)]);
            assert(params_view(r.1@) =~= seq![k, v]);
            r
        },
        WhereOperator::NotEquals => {
            let r = field_sql(" AND value != ?)", vec![SqlParam::Text(key), SqlParam::Text(val)]);
            assert(params_view(r.1@) =~= seq![k, v]);
            r
        },
        WhereOperator::LessThan => ordered_where_clause_sql(&key, clause, "<"),
        WhereOperator::LessThanOrEqual => ordered_where_clause_sql(&key, clause, "<="),
        WhereOperator::GreaterThan => ordered_where_clause_sql(&key, clause, ">"),
        WhereOperator::GreaterThanOrEqual => ordered_where_clause_sql(&key, clause, ">="),
        WhereOperator::Contains => {
            let r = field_sql(" AND INSTR(value, ?) > 0)", vec![SqlParam::Text(key), SqlParam::Text(val)]);
            assert(params_view(r.1@) =~= seq![k, v]);
            r
        },
        WhereOperator::StartsWith => {
            let mut pattern = escape_like(clause.value.as_ref());
            pattern.push('%');
            let ghost pm = ParamModel::Text(pattern@);
            proof {
                assert(pattern@ =~= like_escaped(or_empty(match clause.value {
                    Some(v) => Some(v@),
                    None => None,
                })) + "%"@) by {
                    reveal_strlit("%");
                }
            }
            let path_chars = chars_of("path");
            let key_chars = chars_of(key.as_str());
            if chars_eq(key_chars.as_slice(), path_chars.as_slice()) {
                let mut sql: Vec<char> = Vec::new();
                push_str(&mut sql, " AND n.vault_path LIKE ? ESCAPE '\\'");
                let params = vec![text_param(&pattern)];
                assert(params_view(params@) =~= seq![pm]);
                (string_of(sql.as_slice()), params)
            } else {
                let p = text_param(&pattern);
                let r = field_sql(" AND value LIKE ? ESCAPE '\\')", vec![SqlParam::Text(key), p]);
                assert(params_view(r.1@) =~= seq![k, pm]);
                r
            }
        },
        WhereOperator::GlobMatch => {
            let params: Vec<SqlParam> = Vec::new();
            assert(params_view(params@) =~= seq![]);
            (String::new(), params)
        },
    }
}

impl PreFilter {
    /// A filter with no constraint.
    pub fn none() -> (r: Self)
        ensures
            is_unconstrained(r),
    {
        PreFilter {
            since_ms: None,
            accepted_note_ids: None,
            where_clauses: Vec::new(),
            tags: Vec::new(),
            headings: Vec::new(),
        }
    }

    /// Returns `true` when no notes can ever match (scope resolved to the
    /// empty set).
    pub fn is_impossible(&self) -> (b: bool)
        ensures
            b == (self.accepted_note_ids matches Some(ids) && ids@.len() == 0),
    {
        match &self.accepted_note_ids {
            Some(ids) => ids.len() == 0,
            None => false,
        }
    }

    /// Builds a SQL fragment (`AND …`) and bound params to append to an
    /// existing `WHERE` clause. The notes table must be aliased as `n`.
    ///
    /// The fragment starts with ` AND` when non-empty, and is empty when no
    /// filter is active.
    pub fn sql_fragment(&self) -> (r: (String, Vec<SqlParam>))
        ensures
            r.0@ == filter_sql(*self).0,
            params_view(r.1@) == filter_sql(*self).1,
    {
        let mut sql: Vec<char> = Vec::new();
        let mut params: Vec<SqlParam> = Vec::new();
        if let Some(ms) = self.since_ms {
            push_str(&mut sql, " AND n.mtime_ms >= ?");
            let v: i64 = if ms <= i64::MAX as u64 { ms as i64 } else { i64::MAX };
            params.push(SqlParam::Integer(v));
        }
        proof {
            assert(sql@ =~= since_sql(self.since_ms).0);
            assert(params_view(params@) =~= since_sql(self.since_ms).1);
        }
        let ghost a = since_sql(self.since_ms);
        let ghost b = ids_sql(opt_ids(self.accepted_note_ids));
        if let Some(ids) = &self.accepted_note_ids {
            push_str(&mut sql, " AND n.id IN (");
            let mut j: usize = 0;
            let ghost sql0 = sql@;
            let ghost p0 = params_view(params@);
            while j < ids.len()
                invariant
                    j <= ids@.len(),
                    sql@ == sql0 + placeholders(j as nat),
                    params_view(params@) == p0 + ids@.take(j as int).map_values(|i: i64| ParamModel::Integer(i as int)),
                decreases ids.len() - j,
            {
                let ghost before = params@;
                if j > 0 {
                    sql.push(',');
                }
                sql.push('?');
                params.push(SqlParam::Integer(ids[j]));
                proof {
                    assert(sql@ =~= sql0 + placeholders((j + 1) as nat));
                    assert(ids@.take(j + 1).map_values(|i: i64| ParamModel::Integer(i as int)) =~= ids@.take(j as int).map_values(|i: i64| ParamModel::Integer(i as int)).push(ParamModel::Integer(ids@[j as int] as int)));
                    assert(params_view(params@) =~= params_view(before).push(ParamModel::Integer(ids@[j as int] as int)));
                }
                j += 1;
            }
            push_str(&mut sql, ")");
            proof {
                assert(ids@.take(ids@.len() as int) =~= ids@);
            }
        }
        proof {
            assert(sql@ =~= a.0 + b.0);
            assert(params_view(params@) =~= a.1 + b.1);
        }
        let ghost c_all = wheres_sql(self.where_clauses@);
        let mut i: usize = 0;
        while i < self.where_clauses.len()
            invariant
                i <= self.where_clauses@.len(),
                sql@ == a.0 + b.0 + wheres_sql(self.where_clauses@.take(i as int)).0,
                params_view(params@) == a.1 + b.1 + wheres_sql(self.where_clauses@.take(i as int)).1,
            decreases self.where_clauses.len() - i,
        {
            let (fragment, mut clause_params) = where_clause_sql(&self.where_clauses[i]);
            let fc = chars_of(fragment.as_str());
            push_all(&mut sql, fc.as_slice());
            let ghost before = params@;
            let ghost added = clause_params@;
            params.append(&mut clause_params);
            proof {
                let cs = self.where_clauses@.take(i + 1);
                assert(cs.drop_last() =~= self.where_clauses@.take(i as int));
                assert(params_view(before + added) =~= params_view(before) + params_view(added));
            }
            i += 1;
        }
        proof {
            assert(self.where_clauses@.take(self.where_clauses@.len() as int) =~= self.where_clauses@);
        }
        let ghost tv = self.tags@.map_values(|t: String| t@);
        let mut t: usize = 0;
        while t < self.tags.len()
            invariant
                t <= self.tags@.len(),
                tv == self.tags@.map_values(|t: String| t@),
                sql@ == a.0 + b.0 + c_all.0 + tags_sql(tv.take(t as int)).0,
                params_view(params@) == a.1 + b.1 + c_all.1 + tags_sql(tv.take(t as int)).1,
            decreases self.tags.len() - t,
        {
            push_str(&mut sql, " AND EXISTS (SELECT 1 FROM note_tags nt WHERE nt.note_id = n.id AND nt.tag_norm = ?)");
            let norm = normalize_tag_filter(self.tags[t].as_str());
            let ghost before = params@;
            params.push(SqlParam::Text(norm));
            proof {
                let ts = tv.take(t + 1);
                assert(ts.drop_last() =~= tv.take(t as int));
                assert(ts.last() == self.tags@[t as int]@);
                assert(params_view(params@) =~= params_view(before).push(ParamModel::Text(normalized_tag_filter(ts.last()))));
            }
            t += 1;
        }
        proof {
            assert(tv.take(tv.len() as int) =~= tv);
        }
        let ghost d_all = tags_sql(tv);
        let ghost hv = self.headings@.map_values(|h: String| h@);
        let mut h: usize = 0;
        while h < self.headings.len()
            invariant
                h <= self.headings@.len(),
                hv == self.headings@.map_values(|h: String| h@),
                sql@ == a.0 + b.0 + c_all.0 + d_all.0 + headings_sql(hv.take(h as int)).0,
                params_view(params@) == a.1 + b.1 + c_all.1 + d_all.1 + headings_sql(hv.take(h as int)).1,
            decreases self.headings.len() - h,
        {
            push_str(&mut sql, " AND EXISTS (SELECT 1 FROM chunks c WHERE c.note_id = n.id AND LOWER(c.heading_path) LIKE ?)");
            let hc = chars_of(self.headings[h].as_str());
            let lower = to_lowercase(hc.as_slice());
            let mut pat: Vec<char> = vec!['%'];
            push_all(&mut pat, lower.as_slice());
            pat.push('%');
            let ghost before = params@;
            params.push(text_param(&pat));
            proof {
                let hs = hv.take(h + 1);
                assert(hs.drop_last() =~= hv.take(h as int));
                assert(hs.last() == self.headings@[h as int]@);
                assert(pat@ =~= seq!['%'] + lowercase(hs.last()) + seq!['%']);
                assert(params_view(params@) =~= params_view(before).push(ParamModel::Text(pat@)));
            }
            h += 1;
        }
        proof {
            assert(hv.take(hv.len() as int) =~= hv);
        }
        (string_of(sql.as_slice()), params)
    }
}

/// Returns `true` if any clause needs post-filtering (i.e. cannot be
/// expressed in SQL): a glob clause.
pub fn has_glob_where_clauses(clauses: &[WhereClause]) -> (b: bool)
    ensures
        b == exists|i: int| 0 <= i < clauses@.len() && #[trigger] clauses@[i].op == WhereOperator::GlobMatch,
{
    let mut i: usize = 0;
    while i < clauses.len()
        invariant
            i <= clauses@.len(),
            forall|j: int| 0 <= j < i ==> #[trigger] clauses@[j].op != WhereOperator::GlobMatch,
        decreases clauses.len() - i,
    {
        if clauses[i].op == WhereOperator::GlobMatch {
            return true;
        }
        i += 1;
    }
    false
}

// ── Glob post-filter ─────────────────────────────────────────────────────────

/// Whether a `globset` glob built from `pattern` (case-sensitive) compiles,
/// and a set holding it matches `text`, for a pattern and a text without a
/// backslash (globset reads a backslash as an escape or as a path separator
/// depending on the platform).
pub uninterp spec fn glob_matched(pattern: Seq<char>, text: Seq<char>) -> bool;

/// Builds a case-sensitive `globset::Glob` from `pattern`, puts it in a
/// `GlobSet`, and matches `text` against it; a pattern that does not compile
/// matches nothing. When neither holds a backslash the answer is named by
/// [`glob_matched`]; with a backslash it depends on the platform (escape or
/// separator), and nothing is claimed of it.
#[verifier::external_body]
fn glob_match(pattern: &str, text: &str) -> (b: bool)
    ensures
        !pattern@.contains('\\') && !text@.contains('\\') ==> b == glob_matched(pattern@, text@),
{
    let mut builder = GlobSetBuilder::new();
    let Ok(glob) = GlobBuilder::new(pattern).case_insensitive(false).build() else {
        return false;
    };
    builder.add(glob);
    let Ok(set) = builder.build() else {
        return false;
    };
    set.is_match(text)
}

/// Whether a glob clause accepts a note, given for each of its candidate
/// values whether the clause's pattern matched it: a clause without a
/// pattern accepts nothing, otherwise one matching candidate suffices.
pub fn glob_clause_accepts(clause: &WhereClause, matched: &[bool]) -> (b: bool)
    ensures
        b == (clause.value is Some && exists|i: int| 0 <= i < matched@.len() && #[trigger] matched@[i]),
{
    if clause.value.is_none() {
        return false;
    }
    let mut i: usize = 0;
    while i < matched.len()
        invariant
            i <= matched@.len(),
            clause.value is Some,
            forall|j: int| 0 <= j < i ==> !#[trigger] matched@[j],
        decreases matched.len() - i,
    {
        if matched[i] {
            return true;
        }
        i += 1;
    }
    false
}

/// Whether a glob clause accepts a note whose candidate values are
/// `candidates`: the `path` key's candidate is the note's vault path, any
/// other key's are the values of that frontmatter field. A clause without a
/// pattern accepts nothing, and so does an empty candidate list; with no
/// backslash in the pattern or the candidates, the note is accepted exactly
/// when the pattern matches one of them.
pub fn glob_clause_matches(clause: &WhereClause, candidates: &[String]) -> (b: bool)
    ensures
        clause.value is None ==> !b,
        candidates@.len() == 0 ==> !b,
        (clause.value matches Some(p) && !p@.contains('\\') && forall|i: int|
            0 <= i < candidates@.len() ==> !(#[trigger] candidates@[i])@.contains('\\')) ==> b == (
        exists|i: int| 0 <= i < candidates@.len() && glob_matched(clause.value->0@, #[trigger] candidates@[i]@)),
{
    let mut matched: Vec<bool> = Vec::new();
    if let Some(pattern) = &clause.value {
        let mut i: usize = 0;
        while i < candidates.len()
            invariant
                i <= candidates@.len(),
                clause.value == Some(*pattern),
                matched@.len() == i,
                forall|j: int|
                    0 <= j < i && !pattern@.contains('\\') && !(#[trigger] candidates@[j])@.contains('\\')
                        ==> matched@[j] == glob_matched(pattern@, candidates@[j]@),
            decreases candidates.len() - i,
        {
            let m = glob_match(pattern.as_str(), candidates[i].as_str());
            matched.push(m);
            i += 1;
        }
    }
    let b = glob_clause_accepts(clause, matched.as_slice());
    proof {
        if clause.value is Some {
            assert(matched@.len() == candidates@.len());
        }
        if clause.value is Some {
            let p = clause.value->0;
            if !p@.contains('\\') && forall|i: int|
                0 <= i < candidates@.len() ==> !(#[trigger] candidates@[i])@.contains('\\') {
                assert forall|i: int| 0 <= i < candidates@.len() implies matched@[i] == glob_matched(
                    p@,
                    #[trigger] candidates@[i]@,
                ) by {
                    assert(!candidates@[i]@.contains('\\'));
                }
                if b {
                    let w = choose|i: int| 0 <= i < matched@.len() && #[trigger] matched@[i];
                    assert(glob_matched(p@, candidates@[w]@));
                }
                if exists|i: int| 0 <= i < candidates@.len() && glob_matched(p@, #[trigger] candidates@[i]@) {
                    let w = choose|i: int| 0 <= i < candidates@.len() && glob_matched(p@, #[trigger] candidates@[i]@);
                    assert(matched@[w]);
                }
            }
        }
    }
    b
}

/// The ids of the accepted notes among `(id, accepted)` rows.
pub open spec fn accepted_ids(rows: Seq<(i64, bool)>) -> Seq<i64>
    decreases rows.len(),
{
    if rows.len() == 0 {
        seq![]
    } else if rows.last().1 {
        accepted_ids(rows.drop_last()).push(rows.last().0)
    } else {
        accepted_ids(rows.drop_last())
    }
}

/// The scope restriction for the active notes `(id, accepted by the scope)`:
/// none when every note is accepted (an `IN` list would filter nothing),
/// otherwise the accepted ids in row order (empty when no note is).
pub fn scope_note_ids(rows: &[(i64, bool)]) -> (r: Option<Vec<i64>>)
    ensures
        (forall|i: int| 0 <= i < rows@.len() ==> (#[trigger] rows@[i]).1) ==> r.is_none(),
        !(forall|i: int| 0 <= i < rows@.len() ==> (#[trigger] rows@[i]).1) ==> (r matches Some(ids)
            && ids@ == accepted_ids(rows@)),
{
    let mut accepted: Vec<i64> = Vec::new();
    let mut all = true;
    let mut i: usize = 0;
    while i < rows.len()
        invariant
            i <= rows@.len(),
            accepted@ == accepted_ids(rows@.take(i as int)),
            all == (forall|j: int| 0 <= j < i ==> (#[trigger] rows@[j]).1),
        decreases rows.len() - i,
    {
        proof {
            assert(rows@.take(i + 1).drop_last() =~= rows@.take(i as int));
            assert(rows@.take(i + 1).last() == rows@[i as int]);
        }
        let (id, ok) = rows[i];
        if ok {
            accepted.push(id);
        } else {
            all = false;
        }
        i += 1;
    }
    proof {
        assert(rows@.take(rows@.len() as int) =~= rows@);
    }
    if all {
        None
    } else {
        Some(accepted)
    }
}

/// `--where key!=value` is the negation of `--where key=value`: both bind
/// the key and the value, and their SQL differs only in the comparison, which
/// is `value = ?` for equality and `value != ?` for inequality.
pub proof fn lemma_not_equals_negates_equals(key: Seq<char>, value: Option<Seq<char>>)
    ensures
        where_sql(key, WhereOperator::NotEquals, value).1 == where_sql(key, WhereOperator::Equals, value).1,
        exists|pre: Seq<char>|
            where_sql(key, WhereOperator::Equals, value).0 == pre + seq![' ', '=', ' ', '?', ')']
                && where_sql(key, WhereOperator::NotEquals, value).0 == pre + seq![' ', '!', '=', ' ', '?', ')'],
        where_sql(key, WhereOperator::NotEquals, value).0 != where_sql(key, WhereOperator::Equals, value).0,
{
    reveal_strlit(" AND value = ?)");
    reveal_strlit(" AND value != ?)");
    let pre = " AND "@ + field_prefix() + seq![' ', 'A', 'N', 'D', ' ', 'v', 'a', 'l', 'u', 'e'];
    let eq = where_sql(key, WhereOperator::Equals, value).0;
    let ne = where_sql(key, WhereOperator::NotEquals, value).0;
    assert(eq =~= pre + seq![' ', '=', ' ', '?', ')']);
    assert(ne =~= pre + seq![' ', '!', '=', ' ', '?', ')']);
    assert(eq.len() != ne.len());
}

} // verus!
