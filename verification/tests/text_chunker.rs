use tokenx_rs::estimate_token_count;
use talon_core::text::chunker::{
    assemble_chunks, assemble_chunks_checked, build_embedding_text, build_heading_path,
    make_chunk_hash, strip_obsidian_comments, ChunkerConfig,
};

#[test]
fn test_build_heading_path() {
    assert_eq!(build_heading_path(&[]), "");
    assert_eq!(build_heading_path(&["Intro".to_string()]), "Intro");
    assert_eq!(
        build_heading_path(&["Intro".to_string(), "Deep".to_string()]),
        "Intro > Deep"
    );
}

#[test]
fn test_build_embedding_text() {
    let text = build_embedding_text(
        "My Title",
        "notes/test.md",
        &["Section".to_string()],
        "body",
    );
    assert_eq!(
        text,
        "Title: My Title\nPath: notes/test.md\nHeadings: Section\n\nbody"
    );
}

#[test]
fn test_make_chunk_hash() {
    let hash = make_chunk_hash("hello world");
    assert_eq!(hash.len(), 64);
    assert_eq!(
        make_chunk_hash("hello world"),
        make_chunk_hash("hello world")
    );
    assert_ne!(make_chunk_hash("hello"), make_chunk_hash("world"));
}

#[test]
fn tests_test_tokenx_estimates_representative_inputs() {
    assert_eq!(estimate_token_count(""), 0);
    assert_eq!(estimate_token_count("你好世界"), 4);
    assert_eq!(estimate_token_count("12345"), 1);
    assert_eq!(estimate_token_count("3.14"), 3);
    assert_eq!(estimate_token_count("process_items"), 13);
}

#[test]
fn chunk_hash_is_sha256_hex() {
    assert_eq!(
        make_chunk_hash("hello world"),
        "b94d27b9934d3e08a52e52d7da7dabfac484efe37a5380ee9088f7ace2efcde9"
    );
}

#[test]
fn comments_are_stripped_inline_and_across_lines() {
    assert_eq!(strip_obsidian_comments("a %%hidden%% b"), "a  b");
    assert_eq!(strip_obsidian_comments("x\n%%\nblock\n%%\ny"), "x\n\ny");
    assert_eq!(strip_obsidian_comments("keep %% open"), "keep %% open");
    assert_eq!(strip_obsidian_comments("%%%%z"), "z");
}

#[test]
fn chunker_config_defaults() {
    let c = ChunkerConfig::default();
    assert_eq!(c.chunk_tokens, 512);
    assert_eq!(c.chunk_overlap, 64);
    assert_eq!(c.chunk_min_tokens, 16);
}

#[test]
fn assembled_chunks_carry_headings_lines_and_offsets() {
    let cleaned = "# Top\nintro text here\n## Sub\nbody words go here\n";
    let first = "intro text here\n".to_string();
    let second = "body words go here\n".to_string();
    let splits = vec![
        (6usize, first.clone()),
        (29usize, second.clone()),
        (0usize, "# Top\n".to_string()),
    ];
    assert_eq!(&cleaned[6..6 + first.len()], first);
    assert_eq!(&cleaned[29..29 + second.len()], second);
    let chunks = assemble_chunks(cleaned, &splits, "T", "t.md", 1);
    assert_eq!(chunks.len(), 2);
    assert_eq!(chunks[0].text, "intro text here");
    assert_eq!(chunks[0].headings, vec!["Top".to_string()]);
    assert_eq!(chunks[0].char_start, 6);
    assert_eq!(chunks[0].char_end, 22);
    assert_eq!(chunks[0].line_start, 2);
    assert_eq!(chunks[0].line_end, 2);
    assert_eq!(chunks[1].heading_path, "Top > Sub");
    assert_eq!(chunks[1].line_start, 4);
    assert_eq!(
        chunks[1].embedding_text,
        "Title: T\nPath: t.md\nHeadings: Top > Sub\n\nbody words go here"
    );
    assert_eq!(chunks[1].chunk_hash, make_chunk_hash("body words go here"));
}

#[test]
fn checked_assembly_rejects_splits_that_do_not_fit() {
    let cleaned = "hello world";
    assert!(assemble_chunks_checked(cleaned, &[(3, "xyz".to_string())], "T", "p", 0).is_none());
    assert!(assemble_chunks_checked(cleaned, &[(40, "hello".to_string())], "T", "p", 0).is_none());
    let ok = assemble_chunks_checked(cleaned, &[(6, "world".to_string())], "T", "p", 0).unwrap();
    assert_eq!(ok.len(), 1);
    assert_eq!(ok[0].text, "world");
}
