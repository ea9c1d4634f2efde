use talon_core::search::input::{WhereClause, WhereOperator};
use talon_core::search::pre_filter::{glob_clause_accepts, glob_clause_matches};
use talon_core::search::retrieval::fuzzy_scored_aliases;
use talon_core::search::text_fts::bare_term_fts_pieces;
use talon_core::text::chunker::{hex_digest, keeps_chunk};
use talon_core::text::frontmatter::links::clean_captured_tags;
use talon_core::text::nfd::normalize;
use talon_core::text::processing::normalize_vault_path;

fn strings(v: &[&str]) -> Vec<String> {
    v.iter().map(|s| (*s).to_string()).collect()
}

#[test]
fn glob_clause_accepts_on_any_matching_candidate() {
    let clause = WhereClause { key: "path".to_string(), op: WhereOperator::GlobMatch, value: Some("*.md".to_string()) };
    let no_pattern = WhereClause { key: "path".to_string(), op: WhereOperator::GlobMatch, value: None };
    assert!(glob_clause_accepts(&clause, &[false, true]));
    assert!(!glob_clause_accepts(&clause, &[false, false]));
    assert!(!glob_clause_accepts(&clause, &[]));
    assert!(!glob_clause_accepts(&no_pattern, &[true]));
    assert!(glob_clause_matches(&clause, &strings(&["x.txt", "a.md"])));
}

#[test]
fn bare_terms_become_phrases_or_prefix_words() {
    assert_eq!(bare_term_fts_pieces("gpt-4", true), strings(&["\"gpt 4\""]));
    assert_eq!(bare_term_fts_pieces("gpt-4", false), strings(&["\"gpt-4\"*"]));
    assert_eq!(bare_term_fts_pieces("a(b)", false), strings(&["\"a\"*", "\"b\"*"]));
    assert_eq!(bare_term_fts_pieces("rust", false), strings(&["\"rust\"*"]));
}

#[test]
fn captured_tags_lose_trailing_punctuation() {
    assert_eq!(clean_captured_tags(&strings(&["rust).", "!!", "a/b", "x"])), strings(&["rust", "a/b", "x"]));
    assert!(clean_captured_tags(&[]).is_empty());
}

#[test]
fn chunks_are_kept_on_content_and_estimate() {
    assert!(keeps_chunk("body words go here", 20, 16));
    assert!(!keeps_chunk("body words go here", 3, 16));
    assert!(!keeps_chunk("   ", 100, 0));
}

#[test]
fn digests_are_written_as_lowercase_hex() {
    assert_eq!(hex_digest(&[0x00, 0xab, 0x10, 0xff]), "00ab10ff");
    assert_eq!(hex_digest(&[]), "");
}

#[test]
fn only_aliases_of_three_characters_are_scored() {
    assert_eq!(fuzzy_scored_aliases(&strings(&["ab", "abc", "éé", "ééé"])), strings(&["abc", "ééé"]));
}

#[test]
fn ascii_text_and_paths_normalize_to_themselves() {
    assert_eq!(normalize("notes/hello.md"), "notes/hello.md");
    assert_eq!(normalize(""), "");
    assert_eq!(normalize_vault_path("a\\b\\c.md"), "a/b/c.md");
    assert_eq!(normalize_vault_path("notes/caf\u{e9}.md"), normalize_vault_path("notes/cafe\u{301}.md"));
    let once = normalize_vault_path("Dir\\Caf\u{e9}.md");
    assert!(!once.contains('\\'));
    assert_eq!(normalize_vault_path(&once), once);
}
