use rsm::path::{components_of, file_name_of, join_path, starts_with_path};
use std::path::{Component, Path};

fn std_components(p: &str) -> Vec<String> {
    Path::new(p)
        .components()
        .map(|c| match c {
            Component::RootDir => "/".to_string(),
            Component::CurDir => ".".to_string(),
            Component::ParentDir => "..".to_string(),
            Component::Normal(n) => n.to_string_lossy().into_owned(),
            Component::Prefix(p) => p.as_os_str().to_string_lossy().into_owned(),
        })
        .collect()
}

const SAMPLES: &[&str] = &[
    "", "/", "//", "a", "a/", "a//b", "/a/b/c", "./a", ".", "..", "../a", "a/./b", "a/.",
    "./", ".//x", "/./x", "a/../b", "~", "~/", "~/.config/hypr/", "~//x/./", "x/..", ".a",
    "a/.b", "/a/b/", "~user/x", "dir/.hidden",
];

#[test]
fn components_agree_with_std() {
    for p in SAMPLES {
        assert_eq!(components_of(p), std_components(p), "components of {:?}", p);
    }
}

#[test]
fn components_drop_repeated_separators_and_dots() {
    assert_eq!(components_of("/a//b/./c/"), vec!["/", "a", "b", "c"]);
    assert_eq!(components_of("./a"), vec![".", "a"]);
    assert_eq!(components_of("a/../b"), vec!["a", "..", "b"]);
    assert!(components_of("").is_empty());
}

#[test]
fn file_names_agree_with_std() {
    for p in SAMPLES {
        let ours = file_name_of(p);
        let theirs = Path::new(p).file_name().map(|n| n.to_string_lossy().into_owned());
        assert_eq!(ours, theirs, "file name of {:?}", p);
    }
}

#[test]
fn file_name_cases() {
    assert_eq!(file_name_of("/x/dir/"), Some("dir".to_string()));
    assert_eq!(file_name_of("a/."), Some("a".to_string()));
    assert_eq!(file_name_of("/"), None);
    assert_eq!(file_name_of("a/.."), None);
}

#[test]
fn joins_agree_with_std() {
    for base in SAMPLES {
        for rest in ["x", "x/y", "", "/abs", "./x", ".hidden"] {
            let ours = join_path(base, rest);
            let theirs = Path::new(base).join(rest).to_string_lossy().into_owned();
            assert_eq!(ours, theirs, "join {:?} {:?}", base, rest);
        }
    }
}

#[test]
fn join_cases() {
    assert_eq!(join_path("/home/u", ".config"), "/home/u/.config");
    assert_eq!(join_path("/home/u/", "x"), "/home/u/x");
    assert_eq!(join_path("", "x"), "x");
    assert_eq!(join_path("a", "/abs"), "/abs");
    assert_eq!(join_path("a", ""), "a/");
}

#[test]
fn starts_with_agrees_with_std() {
    for p in SAMPLES {
        for base in SAMPLES {
            assert_eq!(
                starts_with_path(p, base),
                Path::new(p).starts_with(base),
                "{:?} starts with {:?}",
                p,
                base
            );
        }
    }
}

#[test]
fn starts_with_compares_whole_components() {
    assert!(starts_with_path("/a/b/c", "/a/b"));
    assert!(starts_with_path("/a/b", "/a/b/"));
    assert!(!starts_with_path("/a/bc", "/a/b"));
    assert!(!starts_with_path("a/b", "/a"));
}
