use talon_core::search::constants::LITERAL_EMPTY_FTS;
use talon_core::search::text_fts::{
    build_trigram_or_query, count_shared_trigrams, get_trigrams, sanitize_fts_query, to_fts_query,
    FtsOperator,
};

#[test]
fn text_fts_get_trigrams_returns_lowercase_string_for_short_input() {
    let t = get_trigrams("AB");
    assert!(t.contains("ab"));
    assert_eq!(t.len(), 1);
}

#[test]
fn text_fts_get_trigrams_slides_window_for_long_input() {
    let t = get_trigrams("Hello");
    assert!(t.contains("hel"));
    assert!(t.contains("ell"));
    assert!(t.contains("llo"));
    assert_eq!(t.len(), 3);
}

#[test]
fn text_fts_sanitize_strips_special_chars_and_collapses_whitespace() {
    assert_eq!(sanitize_fts_query("  foo \"bar*  baz^ "), "foo bar baz");
}

#[test]
fn text_fts_sanitize_empty_returns_empty_string() {
    assert_eq!(sanitize_fts_query("   "), "");
}

#[test]
fn text_fts_to_fts_query_and_default() {
    assert_eq!(
        to_fts_query("foo bar", FtsOperator::And),
        "\"foo\"* AND \"bar\"*"
    );
}

#[test]
fn text_fts_to_fts_query_or() {
    assert_eq!(
        to_fts_query("foo bar baz", FtsOperator::Or),
        "\"foo\"* OR \"bar\"* OR \"baz\"*"
    );
}

#[test]
fn text_fts_to_fts_query_empty_returns_literal_empty() {
    assert_eq!(to_fts_query("", FtsOperator::And), LITERAL_EMPTY_FTS);
    assert_eq!(to_fts_query("   ", FtsOperator::And), LITERAL_EMPTY_FTS);
}

#[test]
fn text_fts_to_fts_query_strips_special_chars_before_quoting() {
    assert_eq!(
        to_fts_query("foo*bar", FtsOperator::And),
        "\"foo\"* AND \"bar\"*"
    );
}

#[test]
fn text_fts_build_trigram_or_query_quotes_each_trigram() {
    assert_eq!(
        build_trigram_or_query("hello"),
        "\"hel\" OR \"ell\" OR \"llo\""
    );
}

#[test]
fn text_fts_build_trigram_or_query_short_input_returns_quoted_text() {
    assert_eq!(build_trigram_or_query("ab"), "\"ab\"");
}

#[test]
fn text_fts_build_trigram_or_query_strips_inner_quotes() {
    assert!(!build_trigram_or_query("a\"bc").contains("\"a\"b\""));
}

#[test]
fn text_fts_to_fts_query_hyphenated_tokens() {
    assert_eq!(to_fts_query("gpt-4", FtsOperator::And), "\"gpt 4\"");
    assert_eq!(to_fts_query("a-b-c-d", FtsOperator::And), "\"a b c d\"");
    assert_eq!(to_fts_query("DEC-0054", FtsOperator::And), "\"DEC 0054\"");
    assert_eq!(
        to_fts_query("gpt-4 foo", FtsOperator::And),
        "\"gpt 4\" AND \"foo\"*"
    );
}

#[test]
fn text_fts_to_fts_query_preserves_quotes_and_hyphenated() {
    assert_eq!(
        to_fts_query("foo \"bar baz\"", FtsOperator::And),
        "\"foo\"* AND \"bar baz\""
    );
    assert_eq!(
        to_fts_query("gpt-4 \"bar baz\" multi-agent", FtsOperator::Or),
        "\"gpt 4\" OR \"bar baz\" OR \"multi agent\""
    );
}

#[test]
fn tests_get_trigrams_returns_lowercase_string_for_short_input() {
    let t = get_trigrams("AB");
    assert!(t.contains("ab"));
    assert_eq!(t.len(), 1);
}

#[test]
fn tests_get_trigrams_slides_window_for_long_input() {
    let t = get_trigrams("Hello");
    assert!(t.contains("hel"));
    assert!(t.contains("ell"));
    assert!(t.contains("llo"));
    assert_eq!(t.len(), 3);
}

#[test]
fn tests_sanitize_strips_special_chars_and_collapses_whitespace() {
    assert_eq!(sanitize_fts_query("  foo \"bar*  baz^ "), "foo bar baz");
}

#[test]
fn tests_sanitize_empty_returns_empty_string() {
    assert_eq!(sanitize_fts_query("   "), "");
}

#[test]
fn tests_to_fts_query_and_default() {
    assert_eq!(
        to_fts_query("foo bar", FtsOperator::And),
        "\"foo\"* AND \"bar\"*"
    );
}

#[test]
fn tests_to_fts_query_or() {
    assert_eq!(
        to_fts_query("foo bar baz", FtsOperator::Or),
        "\"foo\"* OR \"bar\"* OR \"baz\"*"
    );
}

#[test]
fn tests_to_fts_query_empty_returns_literal_empty() {
    assert_eq!(to_fts_query("", FtsOperator::And), LITERAL_EMPTY_FTS);
    assert_eq!(to_fts_query("   ", FtsOperator::And), LITERAL_EMPTY_FTS);
}

#[test]
fn tests_to_fts_query_strips_special_chars_before_quoting() {
    assert_eq!(
        to_fts_query("foo*bar", FtsOperator::And),
        "\"foo\"* AND \"bar\"*"
    );
}

#[test]
fn tests_build_trigram_or_query_quotes_each_trigram() {
    assert_eq!(
        build_trigram_or_query("hello"),
        "\"hel\" OR \"ell\" OR \"llo\""
    );
}

#[test]
fn tests_build_trigram_or_query_short_input_returns_quoted_text() {
    assert_eq!(build_trigram_or_query("ab"), "\"ab\"");
}

#[test]
fn tests_build_trigram_or_query_strips_inner_quotes() {
    assert!(!build_trigram_or_query("a\"bc").contains("\"a\"b\""));
}

#[test]
fn tests_to_fts_query_hyphenated_tokens() {
    assert_eq!(to_fts_query("gpt-4", FtsOperator::And), "\"gpt 4\"");
    assert_eq!(to_fts_query("a-b-c-d", FtsOperator::And), "\"a b c d\"");
    assert_eq!(to_fts_query("DEC-0054", FtsOperator::And), "\"DEC 0054\"");
    assert_eq!(
        to_fts_query("gpt-4 foo", FtsOperator::And),
        "\"gpt 4\" AND \"foo\"*"
    );
}

#[test]
fn tests_to_fts_query_preserves_quotes_and_hyphenated() {
    assert_eq!(
        to_fts_query("foo \"bar baz\"", FtsOperator::And),
        "\"foo\"* AND \"bar baz\""
    );
    assert_eq!(
        to_fts_query("gpt-4 \"bar baz\" multi-agent", FtsOperator::Or),
        "\"gpt 4\" OR \"bar baz\" OR \"multi agent\""
    );
}

#[test]
fn to_fts_query_negates_single_bare_term() {
    assert_eq!(
        to_fts_query("rust -async", FtsOperator::And),
        "\"rust\"* NOT \"async\"*"
    );
}

#[test]
fn to_fts_query_negates_multiple_bare_terms() {
    assert_eq!(
        to_fts_query("rust -async -tokio", FtsOperator::And),
        "\"rust\"* NOT \"async\"* NOT \"tokio\"*"
    );
}

#[test]
fn to_fts_query_all_negative_returns_empty_string() {
    assert_eq!(to_fts_query("-async", FtsOperator::And), "");
    assert_eq!(to_fts_query("-async -tokio", FtsOperator::And), "");
}

#[test]
fn to_fts_query_keeps_negation_inside_quotes_literal() {
    assert_eq!(
        to_fts_query("\"hello -world\"", FtsOperator::And),
        "\"hello -world\""
    );
}

#[test]
fn shared_trigrams_count_query_trigrams_found_in_title() {
    let q = get_trigrams("hello");
    let t = get_trigrams("help");
    assert_eq!(count_shared_trigrams(&q, &t), 1);
    assert_eq!(count_shared_trigrams(&q, &q), 3);
    assert_eq!(count_shared_trigrams(&get_trigrams("xyz"), &get_trigrams("abc")), 0);
}

#[test]
fn trigrams_are_nfd_lowercased() {
    let t = get_trigrams("CAFÉ");
    assert!(t.contains("caf"));
    assert!(t.contains("afe"));
    assert_eq!(t.len(), 3);
}

#[test]
fn trigrams_deduplicate_repeated_windows() {
    let t = get_trigrams("aaaa");
    assert!(t.contains("aaa"));
    assert_eq!(t.len(), 1);
}

#[test]
fn fts_negated_hyphenated_term_becomes_not_phrase() {
    assert_eq!(
        to_fts_query("rust -gpt-4", FtsOperator::Or),
        "\"rust\"* NOT \"gpt 4\""
    );
}

#[test]
fn fts_quoted_phrase_of_specials_is_dropped() {
    assert_eq!(to_fts_query("\"**\"", FtsOperator::And), LITERAL_EMPTY_FTS);
    assert_eq!(to_fts_query("foo \"(\"", FtsOperator::And), "\"foo\"*");
}

#[test]
fn fts_unterminated_quote_runs_to_end() {
    assert_eq!(to_fts_query("\"open phrase", FtsOperator::And), "\"open phrase\"");
}

#[test]
fn trigram_or_query_drops_quotes_from_windows() {
    assert_eq!(build_trigram_or_query("a\"bc"), "\"ab\" OR \"bc\"");
    assert_eq!(build_trigram_or_query("a\""), "\"a\"");
}

#[test]
fn sanitize_is_idempotent_on_example() {
    let once = sanitize_fts_query(" (a)  b^ ");
    assert_eq!(once, "a b");
    assert_eq!(sanitize_fts_query(&once), once);
}
