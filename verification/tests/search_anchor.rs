use talon_core::search::anchor::{
    assemble_anchors, bm25_expansion_query, heading_breadcrumb_before, heading_from_chunk_row,
    needs_heading_lookup, pick_expanded_snippet, resolve_snippet_heading, scan_content_for_heading,
    snippet_probe, SemanticMatch,
};
use talon_core::search::output::AnchorKind;
use talon_core::search::text_fts::{to_fts_query, FtsOperator};

fn no_semantic() -> SemanticMatch {
    SemanticMatch { heading: None, char_start: None, char_end: None, scored: false }
}

#[test]
fn breadcrumb_collects_each_level_up_to_the_top() {
    let content = "# A\n## B\n### C\nbody content for heading fallback";
    let pos = content.find("body").unwrap();
    assert_eq!(heading_breadcrumb_before(content, pos).as_deref(), Some("A > B > C"));
}

#[test]
fn breadcrumb_stops_at_the_nearest_top_level_heading() {
    let content = "# Top\n## Sub\n# Other\n### Deep\ntext";
    let pos = content.find("text").unwrap();
    assert_eq!(heading_breadcrumb_before(content, pos).as_deref(), Some("Other > Deep"));
}

#[test]
fn breadcrumb_skips_headings_deeper_than_one_already_found() {
    let content = "## B\n### C\n## D\ntext";
    let pos = content.find("text").unwrap();
    assert_eq!(heading_breadcrumb_before(content, pos).as_deref(), Some("D"));
}

#[test]
fn breadcrumb_folds_deep_levels_into_the_fourth() {
    let content = "# A\n##### Five\nx";
    let pos = content.find('x').unwrap();
    assert_eq!(heading_breadcrumb_before(content, pos).as_deref(), Some("A > Five"));
}

#[test]
fn breadcrumb_ignores_hashes_without_whitespace_and_empty_headings() {
    let content = "#tag\n##   \n  ## Real  \nx";
    let pos = content.find('x').unwrap();
    assert_eq!(heading_breadcrumb_before(content, pos).as_deref(), Some("Real"));
}

#[test]
fn breadcrumb_none_without_headings_or_off_boundary() {
    assert_eq!(heading_breadcrumb_before("plain\ntext", 6), None);
    assert_eq!(heading_breadcrumb_before("# é\nx", 3), None);
    assert_eq!(heading_breadcrumb_before("# A\nx", 100), None);
    assert_eq!(heading_breadcrumb_before("# A\nx", 4).as_deref(), Some("A"));
}

#[test]
fn content_scan_finds_heading_before_fragment() {
    let content = "# Top Level\n\n## Sub Section\n\nThis fragment is scannable from context.";
    let probe = snippet_probe("This fragment is scannable from context.", 1).unwrap();
    assert_eq!(
        scan_content_for_heading(content, &probe).as_deref(),
        Some("Top Level > Sub Section")
    );
    assert_eq!(scan_content_for_heading(content, "not in the note"), None);
}

#[test]
fn probe_strips_markers_trims_and_takes_forty_chars() {
    assert_eq!(
        snippet_probe("......  This is a matching snippet for tests. ", 8).as_deref(),
        Some("This is a matching snippet for tests.")
    );
    assert_eq!(
        snippet_probe("abcdefghijklmnopqrstuvwxyz0123456789ABCDEFGHIJ", 8).as_deref(),
        Some("abcdefghijklmnopqrstuvwxyz0123456789ABCD")
    );
    assert_eq!(snippet_probe("...short", 8), None);
    assert_eq!(snippet_probe("...short", 1).as_deref(), Some("short"));
    assert_eq!(snippet_probe("... ", 0), None);
}

#[test]
fn chunk_row_heading_prefers_heading_path() {
    let content = "# A\n## B\n### C\nbody";
    let start = i64::try_from(content.find("body").unwrap()).unwrap();
    assert_eq!(
        heading_from_chunk_row(Some("Results".to_string()), Some(start), content).as_deref(),
        Some("Results")
    );
    assert_eq!(
        heading_from_chunk_row(None, Some(start), content).as_deref(),
        Some("A > B > C")
    );
    assert_eq!(
        heading_from_chunk_row(Some(String::new()), Some(start), content).as_deref(),
        Some("A > B > C")
    );
    assert_eq!(heading_from_chunk_row(None, None, content), None);
    assert_eq!(heading_from_chunk_row(None, Some(-1), content), None);
    assert_eq!(heading_from_chunk_row(None, Some(i64::MAX), content), None);
}

#[test]
fn bm25_anchor_carries_looked_up_heading() {
    let anchors = assemble_anchors(
        "This is a matching snippet for tests.",
        Some(Some("Results".to_string())),
        no_semantic(),
    );
    assert_eq!(anchors.len(), 1);
    assert_eq!(anchors[0].kind, AnchorKind::Bm25);
    assert_eq!(anchors[0].heading_path.as_deref(), Some("Results"));
    assert_eq!(anchors[0].match_text, "This is a matching snippet for tests.");
    assert_eq!(anchors[0].char_start, None);
}

#[test]
fn semantic_anchor_from_chunk_metadata() {
    let sem = SemanticMatch {
        heading: Some("Methods > Setup".to_string()),
        char_start: Some(100),
        char_end: Some(200),
        scored: true,
    };
    let anchors = assemble_anchors("semantic chunk text", None, sem);
    assert_eq!(anchors.len(), 1);
    assert_eq!(anchors[0].kind, AnchorKind::Semantic);
    assert_eq!(anchors[0].heading_path.as_deref(), Some("Methods > Setup"));
    assert_eq!(anchors[0].char_start, Some(100));
    assert_eq!(anchors[0].char_end, Some(200));
}

#[test]
fn semantic_anchor_dropped_when_it_repeats_bm25_text() {
    let sem = SemanticMatch {
        heading: Some("Intro".to_string()),
        char_start: Some(10),
        char_end: Some(30),
        scored: true,
    };
    let anchors = assemble_anchors("shared block text here", Some(Some("Intro".to_string())), sem);
    assert_eq!(anchors.len(), 1);
    assert_eq!(anchors[0].kind, AnchorKind::Bm25);
}

#[test]
fn semantic_anchor_empty_heading_is_absent_and_empty_text_gives_none() {
    let sem = SemanticMatch { heading: Some(String::new()), char_start: None, char_end: None, scored: false };
    let anchors = assemble_anchors("text", None, sem);
    assert_eq!(anchors.len(), 1);
    assert_eq!(anchors[0].heading_path, None);
    let sem = SemanticMatch { heading: None, char_start: None, char_end: None, scored: true };
    assert!(assemble_anchors("", Some(None), sem).is_empty());
    assert!(assemble_anchors("text", None, no_semantic()).is_empty());
}

#[test]
fn expansion_only_for_short_snippets_and_real_queries() {
    let q = bm25_expansion_query("short", "rust async").unwrap();
    assert_eq!(q.0, to_fts_query("rust async", FtsOperator::Or));
    assert_eq!(q.1, 75);
    let long = "x".repeat(150);
    assert_eq!(bm25_expansion_query(&long, "rust"), None);
    assert!(bm25_expansion_query(&"x".repeat(149), "rust").is_some());
    assert_eq!(bm25_expansion_query("short", "   "), None);
}

#[test]
fn expanded_snippet_only_when_longer() {
    assert_eq!(
        pick_expanded_snippet("abc", Some("  longer text  ".to_string())).as_deref(),
        Some("longer text")
    );
    assert_eq!(pick_expanded_snippet("a longer snippet", Some(" x ".to_string())), None);
    assert_eq!(pick_expanded_snippet("abc", None), None);
}

#[test]
fn snippet_heading_prefers_semantic_heading() {
    let sem = Some("Sem".to_string());
    assert!(!needs_heading_lookup(&sem, "body"));
    assert!(needs_heading_lookup(&Some(String::new()), "body"));
    assert!(!needs_heading_lookup(&None, ""));
    assert_eq!(resolve_snippet_heading(sem, "body", Some("X".to_string())).as_deref(), Some("Sem"));
    assert_eq!(resolve_snippet_heading(None, "", Some("X".to_string())), None);
    assert_eq!(resolve_snippet_heading(None, "body", Some("X".to_string())).as_deref(), Some("X"));
}
