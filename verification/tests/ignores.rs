use rsm::ignore::{collect_ignores, entry_hits_name, is_ignored};

fn list(items: &[&str]) -> Vec<String> {
    items.iter().map(|s| s.to_string()).collect()
}

#[test]
fn exact_names_are_ignored() {
    assert!(is_ignored("node_modules", false, &list(&[".git", "node_modules"])));
    assert!(!is_ignored("src", false, &list(&[".git", "node_modules"])));
}

#[test]
fn glob_patterns_are_ignored() {
    assert!(is_ignored("notes.bak", false, &list(&["*.bak"])));
    assert!(is_ignored("secrets.conf", false, &list(&["*.bak", "secrets.conf"])));
    assert!(!is_ignored("main.rs", false, &list(&["*.bak"])));
    assert!(is_ignored("cat", false, &list(&["c?t"])));
}

#[test]
fn invalid_patterns_only_match_themselves() {
    // `a***b` is not a valid glob: only the exact name matches it.
    assert!(!is_ignored("axyb", false, &list(&["a***b"])));
    assert!(is_ignored("a***b", false, &list(&["a***b"])));
    assert!(!entry_hits_name(&"[".to_string(), "x", false));
}

#[test]
fn nothing_is_ignored_by_an_empty_list() {
    assert!(!is_ignored("anything", false, &Vec::new()));
}

#[test]
fn global_ignores_come_first() {
    let r = collect_ignores(&list(&[".git", "*.bak"]), &list(&["secrets.conf"]));
    assert_eq!(r, list(&[".git", "*.bak", "secrets.conf"]));
}

#[test]
fn combined_ignores_hit_what_either_list_hits() {
    let global = list(&[".git"]);
    let local = list(&["*.bak"]);
    let all = collect_ignores(&global, &local);
    for name in [".git", "x.bak", "main.rs"] {
        assert_eq!(
            is_ignored(name, false, &all),
            is_ignored(name, false, &global) || is_ignored(name, false, &local)
        );
    }
}

#[test]
fn directory_entries_hit_only_directories() {
    let ignores = list(&["node_modules/"]);
    assert!(is_ignored("node_modules", true, &ignores));
    assert!(!is_ignored("node_modules", false, &ignores));
    assert!(!is_ignored("src", true, &ignores));
    assert!(is_ignored("build-1", true, &list(&["build-*/"])));
    assert!(!is_ignored("build-1", false, &list(&["build-*/"])));
    assert!(entry_hits_name(&"target/".to_string(), "target", true));
}

#[test]
fn plain_entries_hit_files_and_directories() {
    let ignores = list(&["node_modules", "*.bak"]);
    assert!(is_ignored("node_modules", true, &ignores));
    assert!(is_ignored("node_modules", false, &ignores));
    assert!(is_ignored("old.bak", true, &ignores));
}
