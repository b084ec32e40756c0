use rsm::config::LinkEntry;
use rsm::env::Environment;
use rsm::selection::{link_verdict, select_links, target_status, LinkVerdict, TargetStatus};

fn entry(target: &str, os: Option<&str>, host: Option<&str>, tags: Option<&[&str]>) -> LinkEntry {
    LinkEntry {
        target: target.to_string(),
        source: format!("~/dotfiles/{}", target),
        recursive: false,
        tags: tags.map(|ts| ts.iter().map(|t| t.to_string()).collect()),
        os: os.map(|s| s.to_string()),
        host: host.map(|s| s.to_string()),
        ignore: None,
    }
}

fn laptop() -> Environment {
    Environment {
        os: "linux".to_string(),
        hostname: "my-work-laptop".to_string(),
        arch: "x86_64".to_string(),
    }
}

#[test]
fn os_is_checked_before_host_and_tag() {
    let e = entry("a", Some("macos"), Some("other"), Some(&["wm"]));
    assert_eq!(link_verdict(&e, &laptop(), Some(&"shell".to_string())), LinkVerdict::OsMismatch);
}

#[test]
fn host_mismatch_is_reported() {
    let e = entry("a", Some("linux"), Some("other"), None);
    assert_eq!(link_verdict(&e, &laptop(), None), LinkVerdict::HostMismatch);
}

#[test]
fn tag_filter_needs_the_tag() {
    let tagged = entry("a", None, None, Some(&["wm", "ui"]));
    let untagged = entry("b", None, None, None);
    let wm = "wm".to_string();
    let shell = "shell".to_string();
    assert_eq!(link_verdict(&tagged, &laptop(), Some(&wm)), LinkVerdict::Keep);
    assert_eq!(link_verdict(&tagged, &laptop(), Some(&shell)), LinkVerdict::TagMismatch);
    assert_eq!(link_verdict(&untagged, &laptop(), Some(&wm)), LinkVerdict::TagMismatch);
    assert_eq!(link_verdict(&untagged, &laptop(), None), LinkVerdict::Keep);
}

#[test]
fn matching_os_and_host_keep_the_link() {
    let e = entry("a", Some("linux"), Some("my-work-laptop"), None);
    assert_eq!(link_verdict(&e, &laptop(), None), LinkVerdict::Keep);
}

#[test]
fn selection_keeps_applicable_links_in_order() {
    let links = vec![
        entry("hypr", Some("linux"), None, Some(&["wm", "ui"])),
        entry("bashrc", None, Some("my-work-laptop"), Some(&["shell"])),
        entry("mac", Some("macos"), None, Some(&["wm"])),
        entry("other-host", None, Some("desk"), None),
        entry("plain", None, None, None),
    ];
    let all = select_links(links.clone(), &laptop(), None);
    let names: Vec<&str> = all.iter().map(|l| l.target.as_str()).collect();
    assert_eq!(names, vec!["hypr", "bashrc", "plain"]);

    let wm = "wm".to_string();
    let tagged = select_links(links, &laptop(), Some(&wm));
    let names: Vec<&str> = tagged.iter().map(|l| l.target.as_str()).collect();
    assert_eq!(names, vec!["hypr"]);
}

#[test]
fn selection_of_nothing_is_empty() {
    assert!(select_links(Vec::new(), &laptop(), None).is_empty());
}

#[test]
fn check_statuses() {
    assert_eq!(target_status(true, true), TargetStatus::Linked);
    assert_eq!(target_status(true, false), TargetStatus::Linked);
    assert_eq!(target_status(false, true), TargetStatus::Conflict);
    assert_eq!(target_status(false, false), TargetStatus::Missing);
}
