use talon_core::search::pre_filter::{PreFilter, SqlParam};
use talon_core::search::retrieval::{
    alias_exact_sql_plan, bm25_sql_plan, chunk_metadata_sql_plan, fuzzy_title_sql_plan, match_vector_hits,
    rows_outside_paths,
};
use talon_core::search::text_fts::{build_trigram_or_query, to_fts_query, FtsOperator};

fn since(ms: u64) -> PreFilter {
    PreFilter { since_ms: Some(ms), accepted_note_ids: None, where_clauses: vec![], tags: vec![], headings: vec![] }
}

fn impossible() -> PreFilter {
    PreFilter { since_ms: None, accepted_note_ids: Some(vec![]), where_clauses: vec![], tags: vec![], headings: vec![] }
}

#[test]
fn bm25_plan_binds_tokens_query_filter_and_limit() {
    let (sql, params) = bm25_sql_plan("rust async", 10, 300, "10, 5, 1", &PreFilter::none()).unwrap();
    assert_eq!(
        sql,
        "SELECT n.vault_path, n.title, n.tags, n.aliases,\n                snippet(notes_fts_bm25, 2, '', '', '...', ?) AS snippet,\n                bm25(notes_fts_bm25, 10, 5, 1) AS rank\n         FROM notes_fts_bm25\n         JOIN notes n ON n.id = notes_fts_bm25.rowid\n         WHERE notes_fts_bm25 MATCH ? AND n.active = 1\n         ORDER BY rank\n         LIMIT ?"
    );
    assert_eq!(
        params,
        vec![
            SqlParam::Integer(75),
            SqlParam::Text(to_fts_query("rust async", FtsOperator::Or)),
            SqlParam::Integer(10)
        ]
    );
}

#[test]
fn bm25_plan_clamps_tokens_and_inserts_filter() {
    let (sql, params) = bm25_sql_plan("x", 5, 10, "1, 1, 1", &since(42)).unwrap();
    assert!(sql.contains("n.active = 1 AND n.mtime_ms >= ?\n         ORDER BY rank"));
    assert_eq!(params[0], SqlParam::Integer(10));
    assert_eq!(params[2], SqlParam::Integer(42));
    assert_eq!(params[3], SqlParam::Integer(5));
    assert_eq!(bm25_sql_plan("x", 5, 10, "1, 1, 1", &impossible()), None);
}

#[test]
fn alias_plan_binds_normalized_keyword() {
    let (sql, params) = alias_exact_sql_plan("  Caf\u{e9} Bar ", 3, &PreFilter::none()).unwrap();
    assert!(sql.starts_with("SELECT DISTINCT n.vault_path"));
    assert!(sql.ends_with("WHERE a.alias_norm = ? AND n.active = 1\n         LIMIT ?"));
    assert_eq!(params, vec![SqlParam::Text("caf\u{e9}bar".to_string()), SqlParam::Integer(3)]);
    assert_eq!(alias_exact_sql_plan("x", 3, &impossible()), None);
}

#[test]
fn fuzzy_plan_binds_trigram_query() {
    let (sql, params) = fuzzy_title_sql_plan("meeting", 7, &since(1)).unwrap();
    assert!(sql.contains("bm25(notes_fts_fuzzy) AS rank"));
    assert!(sql.contains("MATCH ? AND n.active = 1 AND n.mtime_ms >= ?\n"));
    assert_eq!(
        params,
        vec![SqlParam::Text(build_trigram_or_query("meeting")), SqlParam::Integer(1), SqlParam::Integer(7)]
    );
    assert_eq!(fuzzy_title_sql_plan("x", 3, &impossible()), None);
}

#[test]
fn fuzzy_rows_skip_exact_alias_paths() {
    let paths = vec!["a.md".to_string(), "b.md".to_string(), "c.md".to_string()];
    assert_eq!(rows_outside_paths(&paths, &["b.md".to_string()]), vec![0, 2]);
    assert_eq!(rows_outside_paths(&paths, &[]), vec![0, 1, 2]);
}

#[test]
fn chunk_metadata_plan_lists_placeholders() {
    let (sql, params) = chunk_metadata_sql_plan(&[5, 7]).unwrap();
    assert_eq!(
        sql,
        "SELECT c.id, c.text, n.vault_path, n.title, n.tags, n.aliases\n         FROM chunks c\n         JOIN notes n ON n.id = c.note_id\n         WHERE c.id IN (?,?) AND n.active = 1"
    );
    assert_eq!(params, vec![SqlParam::Integer(5), SqlParam::Integer(7)]);
    assert_eq!(chunk_metadata_sql_plan(&[]), None);
}

#[test]
fn vector_hits_match_last_row_once_in_distance_order() {
    assert_eq!(match_vector_hits(&[3, 1, 3, 9], &[1, 3, 3]), vec![(0, 2), (1, 0)]);
    assert!(match_vector_hits(&[4], &[]).is_empty());
}
