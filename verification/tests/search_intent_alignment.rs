use talon_core::search::hybrid_pipeline::build_query_list;
use talon_core::search::intent_alignment::{in_operational_collection, intent_hits, is_operational_intent};
use talon_core::sync::lock::SyncLock;

fn s(v: &str) -> String {
    v.to_string()
}

#[test]
fn intent_hits_count_terms_in_title_path_and_snippet() {
    let terms = vec![s("status"), s("next"), s("missing")];
    assert_eq!(intent_hits("Project Status", "projects/a.md", "Next steps", &terms), (2, 3));
    assert_eq!(intent_hits("Caf\u{e9}", "x.md", "", &[s("cafe")]), (1, 1));
    assert_eq!(intent_hits("a", "b", "c", &[]), (0, 0));
    assert_eq!(intent_hits("title", "path", "body", &[s("")]), (1, 1));
}

#[test]
fn operational_intents_and_collections() {
    assert!(is_operational_intent(&[s("foo"), s("status")]));
    assert!(is_operational_intent(&[s("blockers")]));
    assert!(!is_operational_intent(&[s("Status")]));
    assert!(!is_operational_intent(&[]));
    assert!(in_operational_collection("projects/x.md"));
    assert!(in_operational_collection("artifacts/y.md"));
    assert!(!in_operational_collection("notes/projects/x.md"));
    assert!(!in_operational_collection("projects"));
}

#[test]
fn query_list_puts_the_query_first() {
    assert_eq!(build_query_list("q", false, &[]), vec![s("q")]);
    assert_eq!(build_query_list("q", true, &[]), vec![s("q")]);
    assert_eq!(build_query_list("q", false, &[s("a"), s("b")]), vec![s("q"), s("a"), s("b")]);
    assert_eq!(build_query_list("q", true, &[s("a"), s("b")]), vec![s("a"), s("b")]);
}

#[test]
fn lock_guard_owns_only_its_own_pid() {
    let path = std::path::PathBuf::from("/tmp/vault/.talon/sync.lock");
    let lock = SyncLock::new(path.clone(), 42);
    assert_eq!(lock.path(), path.as_path());
    assert_eq!(lock.pid(), 42);
    assert!(lock.owns(Some(42)));
    assert!(!lock.owns(Some(7)));
    assert!(!lock.owns(None));
}
