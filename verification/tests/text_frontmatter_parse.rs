use talon_core::text::frontmatter::parse::{
    escape_double_quoted, extract_aliases, extract_frontmatter_yaml, extract_frontmatter_yaml_checked,
    extract_string_tags_from_yaml, extract_tags, find_end_marker, flatten_list_value, is_date_value,
    needs_scalar_quoting, normalize_obsidian_scalars, normalize_obsidian_scalars_checked,
    normalize_unique_list, split_list_text, YamlValue,
};

fn s(v: &str) -> String {
    v.to_string()
}

fn str_value(v: &str) -> YamlValue {
    YamlValue::Str(v.to_string(), None)
}

#[test]
fn frontmatter_block_splits_body_and_raw() {
    let content = "---\ntitle: Hello\nauthor: World\n---\n\nBody text.";
    let (body, raw) = extract_frontmatter_yaml(content);
    assert_eq!(body.trim(), "Body text.");
    assert_eq!(body, "\n\nBody text.");
    assert_eq!(raw, "title: Hello\nauthor: World\n");
}

#[test]
fn frontmatter_block_closed_by_dots() {
    let (body, raw) = extract_frontmatter_yaml("---\na: 1\n...\nrest");
    assert_eq!(raw, "a: 1\n");
    assert_eq!(body, "\nrest");
}

#[test]
fn no_frontmatter_keeps_whole_content() {
    let content = "No frontmatter here.";
    let (body, raw) = extract_frontmatter_yaml(content);
    assert_eq!(body, content);
    assert_eq!(raw, "");
    let (body, raw) = extract_frontmatter_yaml("---\nnever closed");
    assert_eq!(body, "---\nnever closed");
    assert_eq!(raw, "");
}

#[test]
fn frontmatter_split_fails_where_offsets_leave_the_text() {
    assert_eq!(extract_frontmatter_yaml_checked("------"), None);
    assert_eq!(extract_frontmatter_yaml_checked("---\na\r\nb\r\n\u{e9}\r\n---\nx"), None);
    assert!(extract_frontmatter_yaml_checked("---\n---\n").is_some());
}

#[test]
fn end_marker_offsets_count_lines_and_breaks() {
    assert_eq!(find_end_marker("a\n  ...  \nb"), Some(2));
    assert_eq!(find_end_marker("---"), Some(0));
    assert_eq!(find_end_marker("ab\ncd\n---\n"), Some(6));
    assert_eq!(find_end_marker("no marker"), None);
}

#[test]
fn scalar_quoting_decisions() {
    assert!(needs_scalar_quoting("a:b"));
    assert!(needs_scalar_quoting("  Note: sub  "));
    assert!(!needs_scalar_quoting("\"a:b\""));
    assert!(!needs_scalar_quoting("'x:y'"));
    assert!(!needs_scalar_quoting("[a:b]"));
    assert!(!needs_scalar_quoting("{a: b}"));
    assert!(!needs_scalar_quoting("|x:"));
    assert!(!needs_scalar_quoting("&anchor:"));
    assert!(!needs_scalar_quoting(""));
    assert!(!needs_scalar_quoting("plain"));
    assert!(!needs_scalar_quoting("true"));
}

#[test]
fn escape_for_double_quotes() {
    assert_eq!(escape_double_quoted(" a\\b\"c "), "a\\\\b\\\"c");
    assert_eq!(escape_double_quoted("plain"), "plain");
}

#[test]
fn obsidian_scalars_get_quoted() {
    let raw = "title: Note: sub\nurl: http://x\nplain: v\nkey with space: a:b\ntags: [a, b]";
    assert_eq!(
        normalize_obsidian_scalars(raw),
        "title: \"Note: sub\"\nurl: \"http://x\"\nplain: v\nkey with space: a:b\ntags: [a, b]"
    );
    assert_eq!(normalize_obsidian_scalars("q: say \"hi\": now"), "q: \"say \\\"hi\\\": now\"");
}

#[test]
fn obsidian_scalars_cut_indented_lines_at_the_trimmed_offset() {
    assert_eq!(normalize_obsidian_scalars("  k: a:b"), ": \"a:b\"");
    assert_eq!(normalize_obsidian_scalars_checked("\u{3000}k: a:b"), None);
    assert_eq!(normalize_obsidian_scalars("a: 1\r\nb: 2\n").as_str(), "a: 1\nb: 2");
}

#[test]
fn list_text_splits_on_commas_and_lines() {
    assert_eq!(split_list_text("a, 'b',\n\"c\", ,d"), vec![s("a"), s("b"), s("c"), s("d")]);
    assert!(split_list_text("  ,\n").is_empty());
    assert_eq!(split_list_text("\"\""), Vec::<String>::new());
}

#[test]
fn unique_list_keeps_first_of_each_keyword() {
    let r = normalize_unique_list(
        vec![s("Rust"), s(" rust "), s("Python")],
        vec![s("python"), s(" Go "), s("  ")],
    );
    assert_eq!(r, vec![s("Rust"), s("Python"), s("Go")]);
}

#[test]
fn dates_are_recognized() {
    assert!(is_date_value("2024-01-15"));
    assert!(is_date_value("2024-01-15T10:00:00Z"));
    assert!(!is_date_value("2024-13-01"));
    assert!(!is_date_value("hello"));
}

#[test]
fn values_flatten_to_strings() {
    let values = vec![
        str_value("a, b"),
        YamlValue::Number(s("3")),
        YamlValue::Bool(true),
        YamlValue::Sequence(vec![str_value("c")]),
        YamlValue::Null,
        YamlValue::Tagged,
        YamlValue::Str(
            s(" [x, y] "),
            Some(Box::new(YamlValue::Sequence(vec![str_value("x"), str_value("y")]))),
        ),
        YamlValue::Mapping(vec![str_value("m"), YamlValue::Bool(false)]),
        str_value("   "),
    ];
    assert_eq!(
        flatten_list_value(&values),
        vec![s("a"), s("b"), s("3"), s("true"), s("c"), s("x"), s("y"), s("m"), s("false")]
    );
}

#[test]
fn unparsed_structured_text_is_split() {
    let values = vec![str_value("[x, y]")];
    assert_eq!(flatten_list_value(&values), vec![s("[x"), s("y]")]);
}

#[test]
fn aliases_from_lists_and_strings() {
    let entries = vec![
        (s("aliases"), YamlValue::Sequence(vec![str_value("One"), str_value("one")])),
        (s("alias"), str_value("Two, Three")),
    ];
    assert_eq!(extract_aliases(&entries), vec![s("One"), s("Two"), s("Three")]);
    let dated = vec![(s("alias"), str_value("2024-01-01"))];
    assert!(extract_aliases(&dated).is_empty());
    let number = vec![(s("aliases"), YamlValue::Number(s("7")))];
    assert!(extract_aliases(&number).is_empty());
}

#[test]
fn tags_from_yaml_and_body() {
    let entries = vec![
        (s("tags"), YamlValue::Sequence(vec![str_value("a, b"), YamlValue::Number(s("1"))])),
        (s("tag"), str_value("c")),
    ];
    let (fm, inline) = extract_tags(Some(&entries), "text #inline");
    assert_eq!(fm, vec![s("a"), s("b"), s("c")]);
    assert_eq!(inline, vec![s("inline")]);
    let (fm, inline) = extract_tags(None, "#only");
    assert!(fm.is_empty());
    assert_eq!(inline, vec![s("only")]);
    assert!(extract_string_tags_from_yaml(&YamlValue::Bool(true)).is_empty());
}

#[test]
fn split_rebuilds_the_note_exactly() {
    let content = "---\ntitle: Fidelity\nstatus: active\n---\n\n# Body\n\nContent here.\n";
    let (body, raw) = extract_frontmatter_yaml(content);
    assert_eq!(body, "\n\n# Body\n\nContent here.\n");
    assert_eq!(format!("---\n{}---{}", raw, body), content);
}
