use talon_core::search::chunk_excerpt::focused_chunk_excerpt;
use talon_core::search::input::{WhereClause, WhereOperator};
use talon_core::search::pre_filter::{glob_clause_matches, has_glob_where_clauses, scope_note_ids, PreFilter, SqlParam};

fn clause(key: &str, op: WhereOperator, value: Option<&str>) -> WhereClause {
    WhereClause { key: key.to_string(), op, value: value.map(str::to_string) }
}

fn filter(where_clauses: Vec<WhereClause>) -> PreFilter {
    PreFilter { since_ms: None, accepted_note_ids: None, where_clauses, tags: vec![], headings: vec![] }
}

#[test]
fn empty_filter_has_no_fragment() {
    let (sql, params) = PreFilter::none().sql_fragment();
    assert_eq!(sql, "");
    assert!(params.is_empty());
    assert!(!PreFilter::none().is_impossible());
}

#[test]
fn scope_ids_become_placeholders_and_empty_scope_is_impossible() {
    let f = PreFilter { since_ms: Some(u64::MAX), accepted_note_ids: Some(vec![3, 9]), where_clauses: vec![], tags: vec![], headings: vec![] };
    let (sql, params) = f.sql_fragment();
    assert_eq!(sql, " AND n.mtime_ms >= ? AND n.id IN (?,?)");
    assert_eq!(params, vec![SqlParam::Integer(i64::MAX), SqlParam::Integer(3), SqlParam::Integer(9)]);
    let none = PreFilter { since_ms: None, accepted_note_ids: Some(vec![]), where_clauses: vec![], tags: vec![], headings: vec![] };
    assert!(none.is_impossible());
}

#[test]
fn where_clauses_compare_numbers_dates_and_text() {
    let (sql, params) = filter(vec![
        clause("priority", WhereOperator::GreaterThan, Some("2.5")),
        clause("due", WhereOperator::LessThanOrEqual, Some("2024-01-01")),
        clause("status", WhereOperator::Equals, Some("active")),
    ])
    .sql_fragment();
    assert_eq!(
        sql,
        [
            " AND EXISTS (SELECT 1 FROM note_frontmatter_fields WHERE note_id = n.id AND field = ? AND value_type = 'number' AND CAST(value AS REAL) > ?)",
            " AND EXISTS (SELECT 1 FROM note_frontmatter_fields WHERE note_id = n.id AND field = ? AND value_type = 'date' AND value <= ?)",
            " AND EXISTS (SELECT 1 FROM note_frontmatter_fields WHERE note_id = n.id AND field = ? AND value = ?)",
        ]
        .concat()
    );
    assert_eq!(
        params,
        vec![
            SqlParam::Text("priority".to_string()),
            SqlParam::Number("2.5".to_string()),
            SqlParam::Text("due".to_string()),
            SqlParam::Text("2024-01-01".to_string()),
            SqlParam::Text("status".to_string()),
            SqlParam::Text("active".to_string()),
        ]
    );
}

#[test]
fn prefix_clauses_escape_like_patterns_and_globs_stay_out_of_sql() {
    let (sql, params) = filter(vec![
        clause("path", WhereOperator::StartsWith, Some("a_b%")),
        clause("k", WhereOperator::GlobMatch, Some("*.md")),
    ])
    .sql_fragment();
    assert_eq!(sql, " AND n.vault_path LIKE ? ESCAPE '\\'");
    assert_eq!(params, vec![SqlParam::Text("a\\_b\\%%".to_string())]);
}

#[test]
fn tags_and_headings_add_subqueries() {
    let f = PreFilter { since_ms: None, accepted_note_ids: None, where_clauses: vec![], tags: vec!["#Rust".to_string()], headings: vec!["Setup".to_string()] };
    let (sql, params) = f.sql_fragment();
    assert!(sql.contains("nt.tag_norm = ?"));
    assert!(sql.ends_with("LOWER(c.heading_path) LIKE ?)"));
    assert_eq!(params[1], SqlParam::Text("%setup%".to_string()));
}

#[test]
fn glob_clauses_need_a_pattern_and_a_matching_value() {
    let c = clause("path", WhereOperator::GlobMatch, Some("notes/**/*.md"));
    assert!(glob_clause_matches(&c, &["notes/a/b.md".to_string()]));
    assert!(!glob_clause_matches(&c, &["other/a.md".to_string()]));
    assert!(!glob_clause_matches(&c, &[]));
    let no_pattern = clause("path", WhereOperator::GlobMatch, None);
    assert!(!glob_clause_matches(&no_pattern, &["notes/a.md".to_string()]));
    assert!(has_glob_where_clauses(&[clause("a", WhereOperator::Equals, Some("x")), c]));
    assert!(!has_glob_where_clauses(&[clause("a", WhereOperator::Exists, None)]));
}

#[test]
fn short_chunks_are_returned_whole() {
    assert_eq!(focused_chunk_excerpt("short text", &["text".to_string()], &[]), "short text");
}

#[test]
fn long_chunks_are_cut_to_the_snippet_length() {
    let text = "a".repeat(400);
    let excerpt = focused_chunk_excerpt(&text, &["zzz".to_string()], &[]);
    assert_eq!(excerpt.chars().count(), 300);
}

#[test]
fn scope_restricts_only_when_some_note_is_rejected() {
    assert_eq!(scope_note_ids(&[(1, true), (2, true)]), None);
    assert_eq!(scope_note_ids(&[]), None);
    assert_eq!(scope_note_ids(&[(1, true), (2, false), (3, true)]), Some(vec![1, 3]));
    assert_eq!(scope_note_ids(&[(4, false)]), Some(vec![]));
}
