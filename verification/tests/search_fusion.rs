use talon_core::search::fuse::{rerank_tier, RerankTier};
use talon_core::search::rerank::{rerank_text, uncached_indices};
use talon_core::search::rrf::first_hit_by_path;

fn paths(v: &[&str]) -> Vec<String> {
    v.iter().map(|s| (*s).to_string()).collect()
}

#[test]
fn first_hit_wins_for_metadata_priority() {
    // Same path in the semantic list (snippet "from semantic") and in the
    // BM25 list (snippet "from bm25"); semantic comes first in priority.
    let snippets = [vec!["from semantic"], vec!["from bm25"]];
    let lists = vec![paths(&["a.md"]), paths(&["a.md"])];
    let hits = first_hit_by_path(&lists);
    assert_eq!(hits.len(), 1);
    let (path, list, rank) = &hits[0];
    assert_eq!(path, "a.md");
    assert_eq!(snippets[*list][*rank], "from semantic");
}

#[test]
fn first_hits_keep_first_occurrence_order_and_position() {
    let lists = vec![
        paths(&["b.md", "a.md"]),
        paths(&["c.md", "b.md", "c.md"]),
        paths(&[]),
        paths(&["a.md", "d.md"]),
    ];
    let hits = first_hit_by_path(&lists);
    assert_eq!(
        hits,
        vec![
            ("b.md".to_string(), 0, 0),
            ("a.md".to_string(), 0, 1),
            ("c.md".to_string(), 1, 0),
            ("d.md".to_string(), 3, 1),
        ]
    );
}

#[test]
fn first_hits_of_no_rows_are_empty() {
    assert!(first_hit_by_path(&[]).is_empty());
    assert!(first_hit_by_path(&[paths(&[]), paths(&[])]).is_empty());
}

#[test]
fn rerank_weight_partitions_into_three_tiers() {
    assert_eq!(rerank_tier(0), RerankTier::Top);
    assert_eq!(rerank_tier(9), RerankTier::Top);
    assert_eq!(rerank_tier(10), RerankTier::Mid);
    assert_eq!(rerank_tier(19), RerankTier::Mid);
    assert_eq!(rerank_tier(20), RerankTier::Low);
    assert_eq!(rerank_tier(100), RerankTier::Low);
}

#[test]
fn rerank_text_joins_title_and_snippet_with_blank_line() {
    assert_eq!(rerank_text("Title a.md", "snippet for a.md"), "Title a.md\n\nsnippet for a.md");
    assert_eq!(rerank_text("", ""), "\n\n");
}

#[test]
fn uncached_indices_lists_misses_in_order() {
    assert_eq!(uncached_indices(&[true, false, false, true, false]), vec![1, 2, 4]);
    assert_eq!(uncached_indices(&[true, true]), Vec::<usize>::new());
    assert_eq!(uncached_indices(&[]), Vec::<usize>::new());
}
