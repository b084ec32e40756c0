use rsm::error::RsmError;
use rsm::symlink::{
    create_link, expand_tilde, expand_tilde_with, prune_dead_links, prune_walks_target,
    resolve_tasks, scan_mode,
    ExistingEntry, LinkAction, LinkProbe, PruneAction, ScanMode, ScannedFile, SourceScan,
    SyncTask,
};
use std::path::{Path, PathBuf};

fn strings(items: &[&str]) -> Vec<String> {
    items.iter().map(|s| s.to_string()).collect()
}

/// Home expansion written with std's paths, for comparison.
fn expand_with_std(path: &str, home: &str) -> String {
    let path = Path::new(path);
    if !path.starts_with("~") {
        return path.to_string_lossy().into_owned();
    }
    let mut new_path = PathBuf::from(home);
    if path.components().count() > 1 {
        new_path.push(path.strip_prefix("~").unwrap());
    }
    new_path.to_string_lossy().into_owned()
}

#[test]
fn tilde_expansion_agrees_with_std() {
    let paths = [
        "~", "~/", "~/.config/hypr/", "~//x/./", "~/./a", "~/a//b", "~user/x", "/etc/x", "x/~",
        "", "~/.", "~/..", "./~",
    ];
    for home in ["/home/alice", "/home/alice/", ""] {
        for p in paths {
            assert_eq!(expand_tilde_with(p, home), expand_with_std(p, home), "{:?} {:?}", p, home);
        }
    }
}

#[test]
fn tilde_expansion_cases() {
    assert_eq!(expand_tilde_with("~/.config/hypr/", "/home/alice"), "/home/alice/.config/hypr");
    assert_eq!(expand_tilde_with("~", "/home/alice"), "/home/alice");
    assert_eq!(expand_tilde_with("~/", "/home/alice"), "/home/alice");
    assert_eq!(expand_tilde_with("~/.bashrc", ""), ".bashrc");
    assert_eq!(expand_tilde_with("/etc/hosts", "/home/alice"), "/etc/hosts");
    assert_eq!(expand_tilde_with("~alice/x", "/home/alice"), "~alice/x");
}

#[test]
fn tilde_expansion_is_idempotent_with_an_absolute_home() {
    for p in ["~", "~/a/b", "~//.x/", "/abs", "rel"] {
        let once = expand_tilde_with(p, "/home/alice");
        assert_eq!(expand_tilde_with(&once, "/home/alice"), once);
    }
}

#[test]
fn tilde_uses_the_home_directory() {
    assert_eq!(expand_tilde("/etc/hosts"), "/etc/hosts");
    let expanded = expand_tilde("~/dotfiles/bashrc");
    assert!(expanded.ends_with("dotfiles/bashrc"));
    assert!(!expanded.starts_with('~'));
}

#[test]
fn scan_modes() {
    assert_eq!(scan_mode(false, true, true), ScanMode::Missing);
    assert_eq!(scan_mode(true, true, true), ScanMode::Tree);
    assert_eq!(scan_mode(true, false, true), ScanMode::Single);
    assert_eq!(scan_mode(true, true, false), ScanMode::Single);
}

fn file(path: &str, canonical: Option<&str>) -> ScannedFile {
    ScannedFile { path: path.to_string(), canonical: canonical.map(|c| c.to_string()) }
}

fn task(source: &str, target: &str) -> SyncTask {
    SyncTask { source: source.to_string(), target: target.to_string() }
}

#[test]
fn missing_source_is_an_error() {
    let r = resolve_tasks("/dots/x", "/home/a/x", &Vec::new(), &Vec::new(), &SourceScan::Missing);
    assert_eq!(r, Err(RsmError::SourceMissing("/dots/x".to_string())));
}

#[test]
fn single_source_links_its_canonical_path() {
    let scan = SourceScan::Single { canonical: Some("/real/dots/bashrc".to_string()), is_dir: false };
    let r = resolve_tasks("/dots/bashrc", "/home/a/.bashrc", &Vec::new(), &Vec::new(), &scan);
    assert_eq!(r, Ok(vec![task("/real/dots/bashrc", "/home/a/.bashrc")]));
}

#[test]
fn single_source_can_be_ignored() {
    let scan = SourceScan::Single { canonical: None, is_dir: false };
    let r = resolve_tasks(
        "/dots/secrets.conf",
        "/home/a/s",
        &strings(&[".git"]),
        &strings(&["secrets.conf"]),
        &scan,
    );
    assert_eq!(r, Ok(Vec::new()));
}

#[test]
fn unresolvable_single_source_is_an_error() {
    let r = resolve_tasks("/dots/x", "/home/a/x", &Vec::new(), &Vec::new(), &SourceScan::Single { canonical: None, is_dir: false });
    assert_eq!(r, Err(RsmError::PathResolution("/dots/x".to_string())));
}

#[test]
fn tree_mirrors_relative_paths() {
    let files = vec![
        file("/dots/hypr/hyprland.conf", Some("/real/hypr/hyprland.conf")),
        file("/dots/hypr/scripts/bar.sh", Some("/real/hypr/scripts/bar.sh")),
    ];
    let r = resolve_tasks("/dots/hypr", "/home/a/.config/hypr", &Vec::new(), &Vec::new(), &SourceScan::Tree(files));
    assert_eq!(
        r,
        Ok(vec![
            task("/real/hypr/hyprland.conf", "/home/a/.config/hypr/hyprland.conf"),
            task("/real/hypr/scripts/bar.sh", "/home/a/.config/hypr/scripts/bar.sh"),
        ])
    );
}

#[test]
fn tree_with_trailing_separator_on_the_root() {
    let files = vec![file("/dots/hypr/a.conf", Some("/real/a.conf"))];
    let r = resolve_tasks("/dots/hypr/", "/home/a/hypr/", &Vec::new(), &Vec::new(), &SourceScan::Tree(files));
    assert_eq!(r, Ok(vec![task("/real/a.conf", "/home/a/hypr/a.conf")]));
}

#[test]
fn tree_skips_ignored_names_anywhere_on_the_way() {
    let files = vec![
        file("/dots/hypr/keep.conf", Some("/r/keep.conf")),
        file("/dots/hypr/old.bak", None),
        file("/dots/hypr/node_modules/m.js", None),
        file("/dots/hypr/.git/config", None),
        file("/dots/hypr/sub/deep.conf", Some("/r/sub/deep.conf")),
    ];
    let r = resolve_tasks(
        "/dots/hypr",
        "/t",
        &strings(&[".git", "node_modules"]),
        &strings(&["*.bak"]),
        &SourceScan::Tree(files),
    );
    assert_eq!(r, Ok(vec![task("/r/keep.conf", "/t/keep.conf"), task("/r/sub/deep.conf", "/t/sub/deep.conf")]));
}

#[test]
fn tree_with_an_ignored_root_gives_nothing() {
    let files = vec![file("/dots/.git/config", None), file("/dots/.git/HEAD", Some("/r/HEAD"))];
    let r = resolve_tasks("/dots/.git", "/t", &strings(&[".git"]), &Vec::new(), &SourceScan::Tree(files));
    assert_eq!(r, Ok(Vec::new()));
}

#[test]
fn first_unresolvable_visible_file_is_the_error() {
    let files = vec![
        file("/d/a", Some("/r/a")),
        file("/d/b", None),
        file("/d/c", None),
    ];
    let r = resolve_tasks("/d", "/t", &Vec::new(), &Vec::new(), &SourceScan::Tree(files));
    assert_eq!(r, Err(RsmError::PathResolution("/d/b".to_string())));
}

#[test]
fn empty_tree_gives_no_tasks() {
    let r = resolve_tasks("/d", "/t", &Vec::new(), &Vec::new(), &SourceScan::Tree(Vec::new()));
    assert_eq!(r, Ok(Vec::new()));
}

fn probe(path: &str, points_to: &str, exists: bool) -> LinkProbe {
    LinkProbe { path: path.to_string(), points_to: points_to.to_string(), points_to_exists: exists }
}

#[test]
fn only_dead_links_into_the_source_are_pruned() {
    let probes = vec![
        probe("/t/a", "/dots/a", false),
        probe("/t/b", "/dots/b", true),
        probe("/t/c", "/elsewhere/c", false),
        probe("/t/d", "/dotsx/d", false),
        probe("/t/e", "/dots/sub/e", false),
    ];
    let removed = vec![
        PruneAction::Report("/t/a".to_string()),
        PruneAction::Remove("/t/a".to_string()),
        PruneAction::Report("/t/e".to_string()),
        PruneAction::Remove("/t/e".to_string()),
    ];
    assert_eq!(prune_dead_links("/dots", None, &probes, false), removed);
    assert_eq!(prune_dead_links("/dots/", None, &probes, false), removed);
    assert!(prune_dead_links("/dots", None, &Vec::new(), false).is_empty());
}

#[test]
fn free_target_is_linked() {
    let t = task("/s", "/t");
    assert_eq!(
        create_link(&t, false, false, None),
        Ok(vec![LinkAction::Symlink { source: "/s".to_string(), target: "/t".to_string() }])
    );
}

#[test]
fn occupied_target_needs_force() {
    let t = task("/s", "/t");
    assert_eq!(
        create_link(&t, false, false, Some(ExistingEntry::Other)),
        Err(RsmError::TargetExists("/t".to_string()))
    );
    assert_eq!(
        create_link(&t, false, true, Some(ExistingEntry::Directory)),
        Err(RsmError::TargetExists("/t".to_string()))
    );
}

#[test]
fn force_removes_what_is_there() {
    let t = task("/s", "/t");
    let link = LinkAction::Symlink { source: "/s".to_string(), target: "/t".to_string() };
    assert_eq!(
        create_link(&t, true, false, Some(ExistingEntry::Directory)),
        Ok(vec![LinkAction::RemoveDirAll("/t".to_string()), link.clone()])
    );
    assert_eq!(
        create_link(&t, true, false, Some(ExistingEntry::Other)),
        Ok(vec![LinkAction::RemoveFile("/t".to_string()), link])
    );
}

#[test]
fn dry_run_changes_nothing() {
    let t = task("/s", "/t");
    assert_eq!(create_link(&t, false, true, None), Ok(Vec::new()));
    assert_eq!(create_link(&t, true, true, Some(ExistingEntry::Other)), Ok(Vec::new()));
}

#[test]
fn a_second_sync_changes_nothing_more() {
    let t = task("/s", "/t");
    let link = LinkAction::Symlink { source: "/s".to_string(), target: "/t".to_string() };
    // First run on a free target makes the link.
    assert_eq!(create_link(&t, false, false, None), Ok(vec![link.clone()]));
    // Second run without force finds the link and leaves it.
    assert_eq!(
        create_link(&t, false, false, Some(ExistingEntry::Other)),
        Err(RsmError::TargetExists("/t".to_string()))
    );
    // Second run with force puts the same link back.
    assert_eq!(
        create_link(&t, true, false, Some(ExistingEntry::Other)),
        Ok(vec![LinkAction::RemoveFile("/t".to_string()), link])
    );
}

#[test]
fn directory_patterns_prune_whole_directories() {
    let files = vec![
        file("/dots/a.conf", Some("/r/a.conf")),
        file("/dots/node_modules/x.js", Some("/r/node_modules/x.js")),
        file("/dots/sub/node_modules", Some("/r/sub/node_modules")),
    ];
    let r = resolve_tasks("/dots", "/t", &Vec::new(), &strings(&["node_modules/"]), &SourceScan::Tree(files));
    assert_eq!(
        r,
        Ok(vec![task("/r/a.conf", "/t/a.conf"), task("/r/sub/node_modules", "/t/sub/node_modules")])
    );
}

#[test]
fn directory_pattern_on_a_single_source() {
    let dir = SourceScan::Single { canonical: Some("/r/cache".to_string()), is_dir: true };
    let file_scan = SourceScan::Single { canonical: Some("/r/cache".to_string()), is_dir: false };
    let ignores = strings(&["cache/"]);
    assert_eq!(resolve_tasks("/d/cache", "/t", &Vec::new(), &ignores, &dir), Ok(Vec::new()));
    assert_eq!(
        resolve_tasks("/d/cache", "/t", &Vec::new(), &ignores, &file_scan),
        Ok(vec![task("/r/cache", "/t")])
    );
}

#[test]
fn links_to_the_canonical_source_are_pruned_too() {
    let probes = vec![
        probe("/home/u/t/a", "/data/dots/a", false),
        probe("/home/u/t/b", "/data/dots/b", true),
        probe("/home/u/t/c", "/data/other/c", false),
    ];
    let canonical = "/data/dots".to_string();
    assert_eq!(
        prune_dead_links("/home/u/dots", Some(&canonical), &probes, false),
        vec![PruneAction::Report("/home/u/t/a".to_string()), PruneAction::Remove("/home/u/t/a".to_string())]
    );
    assert!(prune_dead_links("/home/u/dots", None, &probes, false).is_empty());
}

#[test]
fn dry_run_prune_only_reports() {
    let probes = vec![probe("/t/a", "/dots/a", false), probe("/t/b", "/dots/b", false)];
    assert_eq!(
        prune_dead_links("/dots", None, &probes, true),
        vec![PruneAction::Report("/t/a".to_string()), PruneAction::Report("/t/b".to_string())]
    );
}

#[test]
fn a_second_prune_finds_nothing() {
    let probes = vec![probe("/t/a", "/dots/a", false), probe("/t/b", "/dots/b", true)];
    let first = prune_dead_links("/dots", None, &probes, false);
    assert_eq!(first.len(), 2);
    let remaining = vec![probe("/t/b", "/dots/b", true)];
    assert!(prune_dead_links("/dots", None, &remaining, false).is_empty());
}

#[test]
fn prune_walks_only_existing_directories() {
    assert!(prune_walks_target(true, true));
    assert!(!prune_walks_target(true, false));
    assert!(!prune_walks_target(false, false));
}

#[test]
fn targets_lie_under_the_target_and_differ() {
    let files = vec![
        file("/d/a", Some("/r/a")),
        file("/d/sub/a", Some("/r/sub/a")),
        file("/d/sub/b", Some("/r/sub/b")),
    ];
    let ts = resolve_tasks("/d", "/home/u/t", &Vec::new(), &Vec::new(), &SourceScan::Tree(files)).unwrap();
    for t in &ts {
        assert!(Path::new(&t.target).starts_with("/home/u/t"));
    }
    for i in 0..ts.len() {
        for j in i + 1..ts.len() {
            assert_ne!(ts[i].target, ts[j].target);
        }
    }
}

#[test]
fn another_ignore_entry_only_removes_tasks() {
    let files = vec![
        file("/d/a.conf", Some("/r/a.conf")),
        file("/d/b.bak", Some("/r/b.bak")),
        file("/d/c/x", Some("/r/c/x")),
    ];
    let before = resolve_tasks("/d", "/t", &Vec::new(), &strings(&["c/"]), &SourceScan::Tree(files.clone())).unwrap();
    let after = resolve_tasks("/d", "/t", &Vec::new(), &strings(&["c/", "*.bak"]), &SourceScan::Tree(files)).unwrap();
    assert_eq!(before.len(), 2);
    assert_eq!(after, vec![task("/r/a.conf", "/t/a.conf")]);
    for t in &after {
        assert!(before.contains(t));
    }
}

#[test]
fn another_ignore_entry_can_remove_an_error() {
    let files = vec![file("/d/a.conf", Some("/r/a.conf")), file("/d/b.bak", None)];
    assert!(resolve_tasks("/d", "/t", &Vec::new(), &Vec::new(), &SourceScan::Tree(files.clone())).is_err());
    assert_eq!(
        resolve_tasks("/d", "/t", &Vec::new(), &strings(&["*.bak"]), &SourceScan::Tree(files)),
        Ok(vec![task("/r/a.conf", "/t/a.conf")])
    );
}
