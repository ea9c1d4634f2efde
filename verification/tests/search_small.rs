use talon_core::search::cache::dedupe_query_variants;
use talon_core::search::intent::{extract_terms, normalize_optional, prefix_query};
use talon_core::search::pool::{bm25_pool, fuzzy_pool, rrf_pool, vector_pool};
use talon_core::search::query_syntax::parse_query_syntax;

#[test]
fn dedupe_drops_empty_and_duplicates_case_insensitive() {
    let input = vec![
        "  zettelkasten ".into(),
        "Zettelkasten".into(),
        String::new(),
        "  ".into(),
        "atomic notes".into(),
        "atomic   notes".into(),
    ];
    let out = dedupe_query_variants(&input);
    assert_eq!(out, vec!["zettelkasten", "atomic notes"]);
}

#[test]
fn dedupe_preserves_first_occurrence_form() {
    let input = vec!["Foo Bar".into(), "foo bar".into()];
    let out = dedupe_query_variants(&input);
    assert_eq!(out, vec!["Foo Bar"]);
}

#[test]
fn extract_terms_keeps_short_domain_terms_and_drops_stop_words() {
    assert_eq!(
        extract_terms("the API for SQL queries"),
        ["api", "sql", "queries"]
    );
}

#[test]
fn prefix_query_prepends_non_empty_intent() {
    assert_eq!(
        prefix_query(Some("foo"), "bar"),
        "Intent: foo\n\nQuery: bar"
    );
}

#[test]
fn prefix_query_returns_query_when_intent_is_none() {
    assert_eq!(prefix_query(None, "bar"), "bar");
}

#[test]
fn prefix_query_returns_query_when_intent_is_blank() {
    assert_eq!(prefix_query(Some("  "), "bar"), "bar");
}

#[test]
fn normalize_optional_trims_and_drops_empty_values() {
    assert_eq!(
        normalize_optional(Some("  web load  ".to_owned())),
        Some("web load".to_owned())
    );
    assert_eq!(normalize_optional(Some("  ".to_owned())), None);
    assert_eq!(normalize_optional(None), None);
}

#[test]
fn test_bm25_pool() {
    assert_eq!(bm25_pool(1, 40), 50);
    assert_eq!(bm25_pool(10, 40), 50);
    assert_eq!(bm25_pool(1000, 40), 2000);
    assert_eq!(bm25_pool(1, 100), 100);
    assert_eq!(bm25_pool(10, 100), 100);
    assert_eq!(bm25_pool(1000, 100), 2000);
}

#[test]
fn test_vector_pool() {
    assert_eq!(vector_pool(1, 40), 100);
    assert_eq!(vector_pool(10, 40), 100);
    assert_eq!(vector_pool(1000, 40), 5000);
    assert_eq!(vector_pool(1, 100), 200);
    assert_eq!(vector_pool(10, 100), 200);
    assert_eq!(vector_pool(1000, 100), 5000);
}

#[test]
fn test_fuzzy_pool() {
    assert_eq!(fuzzy_pool(1, 40), 50);
    assert_eq!(fuzzy_pool(10, 40), 50);
    assert_eq!(fuzzy_pool(1000, 40), 2000);
    assert_eq!(fuzzy_pool(1, 100), 100);
    assert_eq!(fuzzy_pool(10, 100), 100);
    assert_eq!(fuzzy_pool(1000, 100), 2000);
}

#[test]
fn test_rrf_pool() {
    assert_eq!(rrf_pool(1, 40), 40);
    assert_eq!(rrf_pool(10, 40), 40);
    assert_eq!(rrf_pool(1000, 40), 1000);
    assert_eq!(rrf_pool(1, 100), 100);
    assert_eq!(rrf_pool(10, 100), 100);
    assert_eq!(rrf_pool(1000, 100), 1000);
}

#[test]
fn query_syntax_extracts_tags_and_headings() {
    let parsed = parse_query_syntax("tag:fermentation #hot-sauce heading:Targets bottle");

    assert_eq!(parsed.query, "bottle");
    assert_eq!(parsed.tags, vec!["fermentation", "hot-sauce"]);
    assert_eq!(parsed.headings, vec!["Targets"]);
}

#[test]
fn query_syntax_uses_filters_as_query_when_no_free_text_remains() {
    let parsed = parse_query_syntax("#fermentation heading:Targets");

    assert_eq!(parsed.query, "Targets fermentation");
    assert_eq!(parsed.tags, vec!["fermentation"]);
    assert_eq!(parsed.headings, vec!["Targets"]);
}
