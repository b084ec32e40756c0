use rsm::env::Environment;
use rsm::error::RsmError;

#[test]
fn messages_name_the_error() {
    let p = "/x".to_string();
    assert_eq!(RsmError::Io("denied".to_string()).message(), "I/O Error: denied");
    assert_eq!(RsmError::Config("bad".to_string()).message(), "Configuration Error: bad");
    assert_eq!(
        RsmError::TargetExists(p.clone()).message(),
        "Target already exists at /x. Use --force to overwrite."
    );
    assert_eq!(RsmError::SourceMissing(p.clone()).message(), "Source does not exist: /x");
    assert_eq!(RsmError::TomlParse("eof".to_string()).message(), "Failed to parse TOML: eof");
    assert_eq!(
        RsmError::PathResolution(p.clone()).message(),
        "Failed to resolve absolute path for: /x"
    );
    assert_eq!(RsmError::WalkDir("loop".to_string()).message(), "Directory traversal error: loop");
    assert_eq!(RsmError::PatternError("[".to_string()).message(), "Invalid glob pattern: [");
}

#[test]
fn environment_keeps_the_given_names() {
    let e = Environment::current("linux", "x86_64");
    assert_eq!(e.os, "linux");
    assert_eq!(e.arch, "x86_64");
}
