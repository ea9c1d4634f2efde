//! The SQL side of the retrievers: which statement each one runs, with
//! which parameters in which order, and how vector hits are matched back to
//! their chunk rows. The statements run beside this library, and the scores
//! computed from their ranks and distances are floating point.

use vstd::prelude::*;

use crate::search::constants::{BM25_MIN_TOKENS, BM25_TOKENS_PER_CHAR_DIV, FUZZY_ALIAS_MIN_LEN};
use crate::search::pre_filter::{filter_sql, param_view, params_view, placeholders, push_str, ParamModel, PreFilter, SqlParam};
use crate::search::text_fts::{fts_query, to_fts_query, trigram_or_query, build_trigram_or_query, FtsOperator};
use crate::text::frontmatter::{fm_keyword, normalize_keyword};
use crate::text::unicode::{chars_eq, chars_of, push_all, string_of, views};

verus! {

/// The FTS5 snippet token budget for a snippet length: a quarter of it,
/// rounded up, and at least the minimum.
pub open spec fn snippet_tokens(snippet_length: u32) -> nat {
    let q = (snippet_length as int + BM25_TOKENS_PER_CHAR_DIV as int - 1) / BM25_TOKENS_PER_CHAR_DIV as int;
    if q < BM25_MIN_TOKENS as int { BM25_MIN_TOKENS as nat } else { q as nat }
}

/// The BM25 statement: `weights` is the text of the three column weights
/// (title, alias, content) as the `bm25()` call takes them; the filter's
/// fragment follows the `active` condition.
pub open spec fn bm25_sql(weights: Seq<char>, filter: Seq<char>) -> Seq<char> {
    "SELECT n.vault_path, n.title, n.tags, n.aliases,\n                snippet(notes_fts_bm25, 2, '', '', '...', ?) AS snippet,\n                bm25(notes_fts_bm25, "@
        + weights + ") AS rank\n         FROM notes_fts_bm25\n         JOIN notes n ON n.id = notes_fts_bm25.rowid\n         WHERE notes_fts_bm25 MATCH ? AND n.active = 1"@
        + filter + "\n         ORDER BY rank\n         LIMIT ?"@
}

/// The BM25 retrieval of `query`: `None` when the filter accepts no note;
/// else the statement and its parameters: the snippet token budget, the
/// OR-joined FTS query, the filter's parameters, and the limit.
pub open spec fn bm25_plan(query: Seq<char>, limit: u32, snippet_length: u32, weights: Seq<char>, f: PreFilter) -> Option<(Seq<char>, Seq<ParamModel>)> {
    if f.accepted_note_ids matches Some(ids) && ids@.len() == 0 {
        None
    } else {
        Some((
            bm25_sql(weights, filter_sql(f).0),
            seq![ParamModel::Integer(snippet_tokens(snippet_length) as int), ParamModel::Text(fts_query(query, FtsOperator::Or))]
                + filter_sql(f).1 + seq![ParamModel::Integer(limit as int)],
        ))
    }
}

/// Builds the BM25 retrieval statement (see [`bm25_plan`]).
pub fn bm25_sql_plan(query: &str, limit: u32, snippet_length: u32, weights: &str, pre_filter: &PreFilter) -> (r: Option<(String, Vec<SqlParam>)>)
    ensures
        match r {
            Some((sql, ps)) => bm25_plan(query@, limit, snippet_length, weights@, *pre_filter) == Some((sql@, params_view(ps@))),
            None => bm25_plan(query@, limit, snippet_length, weights@, *pre_filter) is None,
        },
{
    if pre_filter.is_impossible() {
        return None;
    }
    let q = (snippet_length as u64 + BM25_TOKENS_PER_CHAR_DIV as u64 - 1) / BM25_TOKENS_PER_CHAR_DIV as u64;
    let tokens: u64 = if q < BM25_MIN_TOKENS as u64 { BM25_MIN_TOKENS as u64 } else { q };
    let fts = to_fts_query(query, FtsOperator::Or);
    let (filter, filter_params) = pre_filter.sql_fragment();
    let mut sql: Vec<char> = Vec::new();
    push_str(&mut sql, "SELECT n.vault_path, n.title, n.tags, n.aliases,\n                snippet(notes_fts_bm25, 2, '', '', '...', ?) AS snippet,\n                bm25(notes_fts_bm25, ");
    push_str(&mut sql, weights);
    push_str(&mut sql, ") AS rank\n         FROM notes_fts_bm25\n         JOIN notes n ON n.id = notes_fts_bm25.rowid\n         WHERE notes_fts_bm25 MATCH ? AND n.active = 1");
    push_str(&mut sql, filter.as_str());
    push_str(&mut sql, "\n         ORDER BY rank\n         LIMIT ?");
    let mut params: Vec<SqlParam> = Vec::new();
    params.push(SqlParam::Integer(tokens as i64));
    params.push(SqlParam::Text(fts));
    let ghost head = params_view(params@);
    proof {
        assert(tokens as int == snippet_tokens(snippet_length) as int);
        assert(param_view(params@[0]) == ParamModel::Integer(snippet_tokens(snippet_length) as int));
        assert(param_view(params@[1]) == ParamModel::Text(fts_query(query@, FtsOperator::Or)));
        assert(head =~= seq![ParamModel::Integer(snippet_tokens(snippet_length) as int), ParamModel::Text(fts_query(query@, FtsOperator::Or))]);
    }
    append_params(&mut params, filter_params);
    let ghost mid = params_view(params@);
    params.push(SqlParam::Integer(limit as i64));
    proof {
        assert(params_view(params@) =~= mid.push(ParamModel::Integer(limit as int)));
        assert(params_view(params@) =~= seq![ParamModel::Integer(snippet_tokens(snippet_length) as int), ParamModel::Text(fts_query(query@, FtsOperator::Or))]
            + filter_sql(*pre_filter).1 + seq![ParamModel::Integer(limit as int)]);
    }
    Some((string_of(sql.as_slice()), params))
}

fn append_params(out: &mut Vec<SqlParam>, more: Vec<SqlParam>)
    ensures
        params_view(final(out)@) == params_view(old(out)@) + params_view(more@),
{
    let ghost m = more@;
    let mut more = more;
    out.append(&mut more);
    proof {
        assert(params_view(out@) =~= params_view(old(out)@) + params_view(m));
    }
}

/// The exact-alias statement, the filter's fragment after the `active`
/// condition.
pub open spec fn alias_exact_sql(filter: Seq<char>) -> Seq<char> {
    "SELECT DISTINCT n.vault_path, n.title, n.tags, n.aliases\n         FROM note_aliases a\n         JOIN notes n ON n.id = a.note_id\n         WHERE a.alias_norm = ? AND n.active = 1"@
        + filter + "\n         LIMIT ?"@
}

/// The exact-alias retrieval of `query`: `None` when the filter accepts no
/// note; else the statement and its parameters: the query's normalized
/// keyword, the filter's parameters, and the limit.
pub open spec fn alias_exact_plan(query: Seq<char>, limit: u32, f: PreFilter) -> Option<(Seq<char>, Seq<ParamModel>)> {
    if f.accepted_note_ids matches Some(ids) && ids@.len() == 0 {
        None
    } else {
        Some((
            alias_exact_sql(filter_sql(f).0),
            seq![ParamModel::Text(fm_keyword(query))] + filter_sql(f).1 + seq![ParamModel::Integer(limit as int)],
        ))
    }
}

/// Builds the exact-alias retrieval statement (see [`alias_exact_plan`]).
pub fn alias_exact_sql_plan(query: &str, limit: u32, pre_filter: &PreFilter) -> (r: Option<(String, Vec<SqlParam>)>)
    ensures
        match r {
            Some((sql, ps)) => alias_exact_plan(query@, limit, *pre_filter) == Some((sql@, params_view(ps@))),
            None => alias_exact_plan(query@, limit, *pre_filter) is None,
        },
{
    if pre_filter.is_impossible() {
        return None;
    }
    let normalized = normalize_keyword(query);
    let (filter, filter_params) = pre_filter.sql_fragment();
    let mut sql: Vec<char> = Vec::new();
    push_str(&mut sql, "SELECT DISTINCT n.vault_path, n.title, n.tags, n.aliases\n         FROM note_aliases a\n         JOIN notes n ON n.id = a.note_id\n         WHERE a.alias_norm = ? AND n.active = 1");
    push_str(&mut sql, filter.as_str());
    push_str(&mut sql, "\n         LIMIT ?");
    let mut params: Vec<SqlParam> = Vec::new();
    params.push(SqlParam::Text(normalized));
    let ghost head = params_view(params@);
    proof {
        assert(head =~= seq![ParamModel::Text(fm_keyword(query@))]);
    }
    append_params(&mut params, filter_params);
    let ghost mid = params_view(params@);
    params.push(SqlParam::Integer(limit as i64));
    proof {
        assert(params_view(params@) =~= mid.push(ParamModel::Integer(limit as int)));
        assert(params_view(params@) =~= seq![ParamModel::Text(fm_keyword(query@))] + filter_sql(*pre_filter).1 + seq![ParamModel::Integer(limit as int)]);
    }
    Some((string_of(sql.as_slice()), params))
}

/// The fuzzy-title statement, the filter's fragment after the `active`
/// condition.
pub open spec fn fuzzy_title_sql(filter: Seq<char>) -> Seq<char> {
    "SELECT n.vault_path, n.title, n.tags, n.aliases,\n                bm25(notes_fts_fuzzy) AS rank\n         FROM notes_fts_fuzzy\n         JOIN notes n ON n.id = notes_fts_fuzzy.rowid\n         WHERE notes_fts_fuzzy MATCH ? AND n.active = 1"@
        + filter + "\n         ORDER BY rank\n         LIMIT ?"@
}

/// The fuzzy-title retrieval of `query`: `None` when the filter accepts no
/// note; else the statement and its parameters: the trigram OR-query, the
/// filter's parameters, and the limit.
pub open spec fn fuzzy_title_plan(query: Seq<char>, limit: u32, f: PreFilter) -> Option<(Seq<char>, Seq<ParamModel>)> {
    if f.accepted_note_ids matches Some(ids) && ids@.len() == 0 {
        None
    } else {
        Some((
            fuzzy_title_sql(filter_sql(f).0),
            seq![ParamModel::Text(trigram_or_query(query))] + filter_sql(f).1 + seq![ParamModel::Integer(limit as int)],
        ))
    }
}

/// Builds the fuzzy-title retrieval statement (see [`fuzzy_title_plan`]).
pub fn fuzzy_title_sql_plan(query: &str, limit: u32, pre_filter: &PreFilter) -> (r: Option<(String, Vec<SqlParam>)>)
    ensures
        match r {
            Some((sql, ps)) => fuzzy_title_plan(query@, limit, *pre_filter) == Some((sql@, params_view(ps@))),
            None => fuzzy_title_plan(query@, limit, *pre_filter) is None,
        },
{
    if pre_filter.is_impossible() {
        return None;
    }
    let fts = build_trigram_or_query(query);
    let (filter, filter_params) = pre_filter.sql_fragment();
    let mut sql: Vec<char> = Vec::new();
    push_str(&mut sql, "SELECT n.vault_path, n.title, n.tags, n.aliases,\n                bm25(notes_fts_fuzzy) AS rank\n         FROM notes_fts_fuzzy\n         JOIN notes n ON n.id = notes_fts_fuzzy.rowid\n         WHERE notes_fts_fuzzy MATCH ? AND n.active = 1");
    push_str(&mut sql, filter.as_str());
    push_str(&mut sql, "\n         ORDER BY rank\n         LIMIT ?");
    let mut params: Vec<SqlParam> = Vec::new();
    params.push(SqlParam::Text(fts));
    let ghost head = params_view(params@);
    proof {
        assert(head =~= seq![ParamModel::Text(trigram_or_query(query@))]);
    }
    append_params(&mut params, filter_params);
    let ghost mid = params_view(params@);
    params.push(SqlParam::Integer(limit as i64));
    proof {
        assert(params_view(params@) =~= mid.push(ParamModel::Integer(limit as int)));
        assert(params_view(params@) =~= seq![ParamModel::Text(trigram_or_query(query@))] + filter_sql(*pre_filter).1 + seq![ParamModel::Integer(limit as int)]);
    }
    Some((string_of(sql.as_slice()), params))
}

/// The indexes of `paths` that are not among `excluded`, in order.
pub open spec fn kept_indexes(paths: Seq<Seq<char>>, excluded: Seq<Seq<char>>) -> Seq<usize>
    decreases paths.len(),
{
    if paths.len() == 0 {
        seq![]
    } else {
        let prev = kept_indexes(paths.drop_last(), excluded);
        if excluded.contains(paths.last()) {
            prev
        } else {
            prev.push((paths.len() - 1) as usize)
        }
    }
}

/// The fuzzy hits that stay beside the exact-alias hits: the indexes of the
/// rows whose path is not an exact-alias path, in order.
pub fn rows_outside_paths(paths: &[String], excluded: &[String]) -> (r: Vec<usize>)
    ensures
        r@ == kept_indexes(views(paths@), views(excluded@)),
{
    let ghost ps = views(paths@);
    let ghost ex = views(excluded@);
    let mut out: Vec<usize> = Vec::new();
    let mut i: usize = 0;
    while i < paths.len()
        invariant
            i <= paths@.len(),
            ps == views(paths@),
            ex == views(excluded@),
            out@ == kept_indexes(ps.take(i as int), ex),
        decreases paths.len() - i,
    {
        proof {
            assert(ps.take(i + 1).drop_last() =~= ps.take(i as int));
            assert(ps.take(i + 1).last() == paths@[i as int]@);
        }
        let pc = chars_of(paths[i].as_str());
        let mut found = false;
        let mut j: usize = 0;
        while j < excluded.len()
            invariant
                j <= excluded@.len(),
                ex == views(excluded@),
                found == ex.take(j as int).contains(pc@),
            decreases excluded.len() - j,
        {
            let ec = chars_of(excluded[j].as_str());
            let eq = chars_eq(ec.as_slice(), pc.as_slice());
            proof {
                let tj = ex.take(j as int);
                let tj1 = ex.take(j + 1);
                assert(tj1 =~= tj.push(excluded@[j as int]@));
                if tj1.contains(pc@) {
                    let w = choose|k: int| 0 <= k < tj1.len() && tj1[k] == pc@;
                    if w < j {
                        assert(tj[w] == pc@);
                    }
                }
                if tj.contains(pc@) {
                    let w = choose|k: int| 0 <= k < tj.len() && tj[k] == pc@;
                    assert(tj1[w] == pc@);
                }
                if eq {
                    assert(tj1[j as int] == pc@);
                }
            }
            if eq {
                found = true;
            }
            j += 1;
        }
        proof {
            assert(ex.take(ex.len() as int) =~= ex);
        }
        if !found {
            out.push(i);
        }
        i += 1;
    }
    proof {
        assert(ps.take(ps.len() as int) =~= ps);
    }
    out
}

/// The chunk-metadata statement for `n` chunk ids.
pub open spec fn chunk_metadata_sql(n: nat) -> Seq<char> {
    "SELECT c.id, c.text, n.vault_path, n.title, n.tags, n.aliases\n         FROM chunks c\n         JOIN notes n ON n.id = c.note_id\n         WHERE c.id IN ("@
        + placeholders(n) + ") AND n.active = 1"@
}

/// The statement fetching the metadata of the chunks with `chunk_ids`
/// (bound in order); `None` when there are none.
pub fn chunk_metadata_sql_plan(chunk_ids: &[i64]) -> (r: Option<(String, Vec<SqlParam>)>)
    ensures
        match r {
            Some((sql, ps)) => chunk_ids@.len() > 0 && sql@ == chunk_metadata_sql(chunk_ids@.len())
                && params_view(ps@) == chunk_ids@.map_values(|i: i64| ParamModel::Integer(i as int)),
            None => chunk_ids@.len() == 0,
        },
{
    if chunk_ids.len() == 0 {
        return None;
    }
    let mut sql: Vec<char> = Vec::new();
    push_str(&mut sql, "SELECT c.id, c.text, n.vault_path, n.title, n.tags, n.aliases\n         FROM chunks c\n         JOIN notes n ON n.id = c.note_id\n         WHERE c.id IN (");
    let ghost sql0 = sql@;
    let mut params: Vec<SqlParam> = Vec::new();
    let mut j: usize = 0;
    while j < chunk_ids.len()
        invariant
            j <= chunk_ids@.len(),
            sql@ == sql0 + placeholders(j as nat),
            params_view(params@) == chunk_ids@.take(j as int).map_values(|i: i64| ParamModel::Integer(i as int)),
        decreases chunk_ids.len() - j,
    {
        let ghost before = params@;
        if j > 0 {
            sql.push(',');
        }
        sql.push('?');
        params.push(SqlParam::Integer(chunk_ids[j]));
        proof {
            assert(sql@ =~= sql0 + placeholders((j + 1) as nat));
            assert(chunk_ids@.take(j + 1).map_values(|i: i64| ParamModel::Integer(i as int)) =~= chunk_ids@.take(j as int).map_values(
                |i: i64| ParamModel::Integer(i as int),
            ).push(ParamModel::Integer(chunk_ids@[j as int] as int)));
            assert(params_view(params@) =~= params_view(before).push(ParamModel::Integer(chunk_ids@[j as int] as int)));
        }
        j += 1;
    }
    push_str(&mut sql, ") AND n.active = 1");
    proof {
        assert(chunk_ids@.take(chunk_ids@.len() as int) =~= chunk_ids@);
    }
    Some((string_of(sql.as_slice()), params))
}

/// The row holding chunk `id`: the last one with that id, as a map filled
/// row by row keeps it.
pub open spec fn row_of(row_ids: Seq<i64>, id: i64) -> Option<nat>
    decreases row_ids.len(),
{
    if row_ids.len() == 0 {
        None
    } else if row_ids.last() == id {
        Some((row_ids.len() - 1) as nat)
    } else {
        row_of(row_ids.drop_last(), id)
    }
}

/// The vector hits matched to their rows: for each hit in distance order,
/// `(hit index, row index)` when a row holds its chunk and no earlier hit
/// took that chunk already.
pub open spec fn matched_hits(hit_ids: Seq<i64>, row_ids: Seq<i64>) -> Seq<(usize, usize)>
    decreases hit_ids.len(),
{
    if hit_ids.len() == 0 {
        seq![]
    } else {
        let prev = matched_hits(hit_ids.drop_last(), row_ids);
        let id = hit_ids.last();
        match row_of(row_ids, id) {
            Some(r) => if hit_ids.drop_last().contains(id) {
                prev
            } else {
                prev.push(((hit_ids.len() - 1) as usize, r as usize))
            },
            None => prev,
        }
    }
}

pub proof fn lemma_row_of(row_ids: Seq<i64>, id: i64)
    ensures
        row_of(row_ids, id) matches Some(r) ==> r < row_ids.len() && row_ids[r as int] == id,
        row_of(row_ids, id) is None ==> !row_ids.contains(id),
    decreases row_ids.len(),
{
    if row_ids.len() > 0 && row_ids.last() != id {
        lemma_row_of(row_ids.drop_last(), id);
        if row_ids.contains(id) {
            let w = choose|k: int| 0 <= k < row_ids.len() && row_ids[k] == id;
            assert(row_ids.drop_last()[w] == id);
        }
    }
}

/// Vector hits are joined to rows in distance order, each chunk once, each
/// to a row that holds it; a hit whose chunk has a row and appears for the
/// first time is always joined.
pub proof fn lemma_matched_hits_join(hit_ids: Seq<i64>, row_ids: Seq<i64>)
    requires
        hit_ids.len() <= usize::MAX,
        row_ids.len() <= usize::MAX,
    ensures
        forall|i: int, j: int|
            0 <= i < j < matched_hits(hit_ids, row_ids).len() ==> (matched_hits(hit_ids, row_ids)[i].0 as int)
                < (matched_hits(hit_ids, row_ids)[j].0 as int) && hit_ids[matched_hits(hit_ids, row_ids)[i].0 as int]
                != hit_ids[matched_hits(hit_ids, row_ids)[j].0 as int],
        forall|i: int|
            0 <= i < matched_hits(hit_ids, row_ids).len() ==> {
                let (h, r) = #[trigger] matched_hits(hit_ids, row_ids)[i];
                &&& (h as int) < hit_ids.len()
                &&& (r as int) < row_ids.len()
                &&& row_ids[r as int] == hit_ids[h as int]
            },
    decreases hit_ids.len(),
{
    if hit_ids.len() > 0 {
        let prev_ids = hit_ids.drop_last();
        lemma_matched_hits_join(prev_ids, row_ids);
        let prev = matched_hits(prev_ids, row_ids);
        let id = hit_ids.last();
        lemma_row_of(row_ids, id);
        assert forall|i: int| 0 <= i < prev.len() implies (prev[i].0 as int) < prev_ids.len() && hit_ids[prev[i].0 as int]
            == prev_ids[prev[i].0 as int] by {
            let (h, r) = prev[i];
        }
        if row_of(row_ids, id) is Some && !prev_ids.contains(id) {
            let out = matched_hits(hit_ids, row_ids);
            let r = row_of(row_ids, id).unwrap();
            let last = ((hit_ids.len() - 1) as usize, r as usize);
            assert(out == prev.push(last));
            assert(last.0 as int == hit_ids.len() - 1);
            assert(last.1 as int == r);
            assert(row_ids[last.1 as int] == hit_ids[last.0 as int]);
            assert forall|i: int| 0 <= i < prev.len() implies hit_ids[prev[i].0 as int] != id by {
                let h = prev[i].0 as int;
                assert(prev_ids[h] == hit_ids[h]);
                if hit_ids[h] == id {
                    assert(prev_ids.contains(id));
                }
            }
        }
    }
}

/// Matches vector hits (chunk ids in distance order) to the metadata rows
/// fetched for them (see [`matched_hits`]).
pub fn match_vector_hits(hit_ids: &[i64], row_ids: &[i64]) -> (r: Vec<(usize, usize)>)
    ensures
        r@ == matched_hits(hit_ids@, row_ids@),
{
    let mut out: Vec<(usize, usize)> = Vec::new();
    let mut i: usize = 0;
    while i < hit_ids.len()
        invariant
            i <= hit_ids@.len(),
            out@ == matched_hits(hit_ids@.take(i as int), row_ids@),
        decreases hit_ids.len() - i,
    {
        let id = hit_ids[i];
        proof {
            assert(hit_ids@.take(i + 1).drop_last() =~= hit_ids@.take(i as int));
            assert(hit_ids@.take(i + 1).last() == id);
        }
        let mut seen = false;
        let mut k: usize = 0;
        while k < i
            invariant
                k <= i < hit_ids@.len(),
                id == hit_ids@[i as int],
                seen == hit_ids@.take(i as int).take(k as int).contains(id),
            decreases i - k,
        {
            proof {
                let t = hit_ids@.take(i as int);
                let t0 = t.take(k as int);
                let t1 = t.take(k + 1);
                assert(t1 =~= t0.push(t[k as int]));
                if t1.contains(id) {
                    let w = choose|m: int| 0 <= m < t1.len() && t1[m] == id;
                    if w < k {
                        assert(t0[w] == id);
                    }
                }
                if t0.contains(id) {
                    let w = choose|m: int| 0 <= m < t0.len() && t0[m] == id;
                    assert(t1[w] == id);
                }
                if hit_ids@[k as int] == id {
                    assert(t1[k as int] == id);
                }
            }
            if hit_ids[k] == id {
                seen = true;
            }
            k += 1;
        }
        proof {
            assert(hit_ids@.take(i as int).take(i as int) =~= hit_ids@.take(i as int));
        }
        let mut r: usize = row_ids.len();
        let mut found = false;
        assert(row_ids@.take(r as int) =~= row_ids@);
        while r > 0 && !found
            invariant
                r <= row_ids@.len(),
                found ==> r < row_ids@.len() && row_of(row_ids@, id) == Some(r as nat),
                !found ==> row_of(row_ids@, id) == row_of(row_ids@.take(r as int), id),
            decreases r + if found { 0int } else { 1int },
        {
            proof {
                assert(row_ids@.take(r as int).drop_last() =~= row_ids@.take(r - 1));
                assert(row_ids@.take(r as int).last() == row_ids@[r - 1]);
            }
            if row_ids[r - 1] == id {
                found = true;
                r = r - 1;
            } else {
                r = r - 1;
            }
        }
        proof {
            if !found {
                assert(row_ids@.take(0) =~= Seq::<i64>::empty());
            }
        }
        if found && !seen {
            out.push((i, r));
        }
        i += 1;
    }
    proof {
        assert(hit_ids@.take(hit_ids@.len() as int) =~= hit_ids@);
    }
    out
}

/// The aliases long enough (at least three characters) to be scored by
/// trigram overlap, in order.
pub open spec fn scorable_aliases(aliases: Seq<Seq<char>>) -> Seq<Seq<char>> {
    aliases.filter(|a: Seq<char>| a.len() >= 3)
}

/// The aliases that fuzzy title scoring compares with the query: those of
/// at least [`FUZZY_ALIAS_MIN_LEN`] characters, in order.
pub fn fuzzy_scored_aliases(aliases: &[String]) -> (r: Vec<String>)
    ensures
        views(r@) == scorable_aliases(views(aliases@)),
{
    let ghost av = views(aliases@);
    let mut r: Vec<String> = Vec::new();
    let mut i: usize = 0;
    while i < aliases.len()
        invariant
            i <= aliases@.len(),
            av == views(aliases@),
            views(r@) == scorable_aliases(av.take(i as int)),
        decreases aliases.len() - i,
    {
        let cs = chars_of(aliases[i].as_str());
        let ghost before = r@;
        proof {
            assert(av.take(i + 1).drop_last() =~= av.take(i as int));
            assert(av.take(i + 1).last() == cs@);
            reveal_with_fuel(Seq::filter, 1);
            assert(scorable_aliases(av.take(i + 1)) == if cs@.len() >= 3 {
                scorable_aliases(av.take(i as int)).push(cs@)
            } else {
                scorable_aliases(av.take(i as int))
            });
        }
        if cs.len() >= FUZZY_ALIAS_MIN_LEN {
            let a = aliases[i].clone();
            r.push(a);
            proof {
                assert(views(r@) =~= views(before).push(a@));
            }
        }
        i += 1;
    }
    proof {
        assert(av.take(aliases@.len() as int) =~= av);
    }
    r
}

} // verus!
