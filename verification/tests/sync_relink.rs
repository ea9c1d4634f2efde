use talon_core::sync::relink::relink_plan;

fn row(from: &str, raw: &str, to: &str, resolved: Option<&str>) -> (String, String, String, Option<String>) {
    (from.to_string(), raw.to_string(), to.to_string(), resolved.map(str::to_string))
}

#[test]
fn relink_plan_repoints_rows_that_now_resolve_elsewhere() {
    let rows = vec![
        row("A.md", "Charred Spring Onion", "Charred Spring Onion", Some("Dish - Charred Spring Onion.md")),
        row("A.md", "Genuinely Missing", "Genuinely Missing", None),
        row("C.md", "B", "B.md", Some("B.md")),
    ];
    let plan = relink_plan(&rows);
    assert_eq!(
        plan,
        vec![(
            "A.md".to_string(),
            "Charred Spring Onion".to_string(),
            "Charred Spring Onion".to_string(),
            "Dish - Charred Spring Onion.md".to_string(),
        )]
    );
}

#[test]
fn relink_plan_of_no_rows_is_empty() {
    assert!(relink_plan(&[]).is_empty());
    assert!(relink_plan(&[row("A.md", "X", "X", None)]).is_empty());
}
