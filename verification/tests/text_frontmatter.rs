use talon_core::text::frontmatter::links::extract_inline_tags;
use talon_core::text::frontmatter::{
    extract_wikilinks, normalize_keyword, normalize_vault_path, FrontmatterReverseIndex,
    ReverseSourceIndex,
};

#[test]
fn test_normalize_keyword() {
    assert_eq!(normalize_keyword("Hello World"), "helloworld");
    assert_eq!(normalize_keyword("  Test  "), "test");
    assert_eq!(normalize_keyword("CAFÉ"), "café");
}

#[test]
fn test_extract_wikilinks() {
    let content =
        "Check [[My Note]] and [[Other#section]].\n```\n[[not a link]]\n```\nAnd [[Target|alias]].";
    let links = extract_wikilinks(content);
    assert_eq!(links.len(), 3);
    assert_eq!(links[0].target, "My Note");
    assert_eq!(links[1].target, "Other");
    assert_eq!(links[1].heading, Some("section".to_string()));
    assert_eq!(links[2].target, "Target");
    assert_eq!(links[2].alias, Some("alias".to_string()));
}

#[test]
fn test_extract_inline_tags() {
    let content = "Some text #hello #world and #foo.\n```\n#not a tag\n```";
    let tags = extract_inline_tags(content);
    assert!(tags.contains(&"hello".to_string()));
    assert!(tags.contains(&"world".to_string()));
    assert!(tags.contains(&"foo".to_string()));
}

#[test]
fn test_reverse_index() {
    let mut idx = FrontmatterReverseIndex::default();
    idx.insert("path1.md", "tag", "rust");
    idx.insert("path2.md", "tag", "rust");
    idx.insert("path3.md", "tag", "python");

    let results = idx.lookup("tag", "rust");
    assert!(results.is_some());
    assert_eq!(results.unwrap().len(), 2);

    let results = idx.lookup("tag", "python");
    assert!(results.is_some());
    assert_eq!(results.unwrap().len(), 1);
}

#[test]
fn test_reverse_source_index() {
    let mut idx = ReverseSourceIndex::default();
    idx.insert("a.md".to_string(), "b.md".to_string());
    idx.insert("c.md".to_string(), "b.md".to_string());

    let sources = idx.get("b.md");
    assert!(sources.is_some());
    assert_eq!(sources.unwrap().len(), 2);
}

#[test]
fn wikilink_offsets_are_characters_and_lines_count_from_one() {
    let content = "é [[A]]\nx [[B|b ]]";
    let links = extract_wikilinks(content);
    assert_eq!(links.len(), 2);
    assert_eq!(links[0].char_start, 2);
    assert_eq!(links[0].char_end, 7);
    assert_eq!(links[0].line_start, 1);
    assert_eq!(links[0].text, "[[A]]");
    assert_eq!(links[1].char_start, 10);
    assert_eq!(links[1].line_start, 2);
    assert_eq!(links[1].alias, Some("b".to_string()));
    for link in &links {
        let text: String = content.chars().skip(link.char_start).take(link.char_end - link.char_start).collect();
        assert_eq!(text, link.text);
    }
}

#[test]
fn wikilink_inside_inline_code_is_skipped() {
    let links = extract_wikilinks("`[[Hidden]]` and [[Shown]] and ``x [[Also]]``");
    assert_eq!(links.len(), 1);
    assert_eq!(links[0].target, "Shown");
}

#[test]
fn empty_wikilink_and_blank_heading_are_not_links_or_headings() {
    let links = extract_wikilinks("[[]] [[Note#  ]]");
    assert_eq!(links.len(), 1);
    assert_eq!(links[0].target, "Note");
    assert_eq!(links[0].heading, None);
    assert_eq!(links[0].raw_target, "Note#");
}

#[test]
fn inline_tags_trim_trailing_punctuation_and_skip_headings() {
    let tags = extract_inline_tags("# Title #nope\nsee #a/b.c), #x!?\n#start");
    assert_eq!(tags, vec!["a/b.c", "x", "start"]);
}

#[test]
fn reverse_index_lookup_key_keeps_to_its_own_key() {
    let mut idx = FrontmatterReverseIndex::default();
    idx.insert("x.md", "a:b", "c");
    idx.insert("y.md", "a", "b:c");
    assert_eq!(idx.lookup_key("a"), vec!["y.md".to_string()]);
    assert_eq!(idx.lookup_key("A:B"), vec!["x.md".to_string()]);
    assert!(idx.lookup_key("b").is_empty());
}

#[test]
fn reverse_index_lookup_key_collects_every_value_in_order() {
    let mut idx = FrontmatterReverseIndex::default();
    idx.insert("b.md", "Tag", "Rust Lang");
    idx.insert("a.md", "tag", "python");
    idx.insert("b.md", "TAG", "rustlang");
    idx.insert("c.md", "other", "rust");
    assert_eq!(idx.lookup("tag", "rustlang").unwrap().len(), 1);
    assert_eq!(idx.lookup_key(" tag "), vec!["a.md".to_string(), "b.md".to_string()]);
    assert!(idx.lookup("tag", "go").is_none());
}

#[test]
fn reverse_source_index_keeps_sources_sorted_and_unique() {
    let mut idx = ReverseSourceIndex::default();
    idx.insert("z.md".to_string(), "t.md".to_string());
    idx.insert("a.md".to_string(), "t.md".to_string());
    idx.insert("z.md".to_string(), "t.md".to_string());
    assert_eq!(idx.get("t.md").unwrap(), &vec!["a.md".to_string(), "z.md".to_string()]);
    assert!(idx.get("a.md").is_none());
}

#[test]
fn vault_path_is_slashed_and_lowercased() {
    assert_eq!(normalize_vault_path("Notes\\Sub\\Café.md"), normalize_vault_path("notes/sub/CAFÉ.md"));
    assert_eq!(normalize_vault_path("A\\B.md"), "a/b.md");
}
