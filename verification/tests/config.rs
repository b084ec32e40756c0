use rsm::config::{Config, CONFIG_TEMPLATE};
use rsm::error::RsmError;

fn strings(items: &[&str]) -> Vec<String> {
    items.iter().map(|s| s.to_string()).collect()
}

#[test]
fn cli_path_is_the_only_candidate() {
    let p = "/etc/rsm/custom.toml".to_string();
    assert_eq!(Config::config_candidates(Some(&p)), vec![p.clone()]);
}

#[test]
fn default_candidates_start_in_the_current_directory() {
    let c = Config::config_candidates(None);
    assert_eq!(c[0], "rsm.toml");
    assert!(c.len() <= 3);
    for later in &c[1..] {
        assert!(later.ends_with("/rsm.toml"));
        assert!(later.len() > "/rsm.toml".len());
    }
}

#[test]
fn an_existing_cli_path_is_taken() {
    let p = "custom.toml".to_string();
    let r = Config::resolve_path(Some(&p), &vec![p.clone()], &vec![true]);
    assert_eq!(r, Ok(p));
}

#[test]
fn a_missing_cli_path_is_an_error() {
    let p = "custom.toml".to_string();
    let r = Config::resolve_path(Some(&p), &vec![p.clone()], &vec![false]);
    assert_eq!(
        r,
        Err(RsmError::Config("Provided config path does not exist: custom.toml".to_string()))
    );
}

#[test]
fn the_first_existing_candidate_wins() {
    let c = strings(&["rsm.toml", "/home/a/.config/rsm/rsm.toml"]);
    assert_eq!(Config::resolve_path(None, &c, &vec![true, true]), Ok("rsm.toml".to_string()));
    assert_eq!(
        Config::resolve_path(None, &c, &vec![false, true]),
        Ok("/home/a/.config/rsm/rsm.toml".to_string())
    );
}

#[test]
fn no_existing_candidate_is_an_error() {
    let c = strings(&["rsm.toml", "/home/a/.config/rsm/rsm.toml"]);
    assert_eq!(
        Config::resolve_path(None, &c, &vec![false, false]),
        Err(RsmError::Config(
            "Could not find rsm.toml in current directory or ~/.config/rsm/".to_string()
        ))
    );
    assert!(Config::resolve_path(None, &strings(&["rsm.toml"]), &vec![false]).is_err());
}

#[test]
fn init_refuses_an_existing_file() {
    let p = "rsm.toml".to_string();
    assert_eq!(Config::init_template(&p, true), Err(RsmError::TargetExists(p.clone())));
}

#[test]
fn init_writes_the_template() {
    let p = "rsm.toml".to_string();
    let t = Config::init_template(&p, false).unwrap();
    assert_eq!(t, CONFIG_TEMPLATE);
    assert!(t.starts_with("# RSM Configuration\n\n[[links]]\n"));
    assert!(t.contains("target = \"~/.bashrc\""));
    assert!(t.ends_with("tags = [\"shell\"]\n"));
}

#[test]
fn a_missing_cli_path_never_falls_back() {
    let p = "custom.toml".to_string();
    let c = strings(&["custom.toml", "rsm.toml"]);
    assert_eq!(
        Config::resolve_path(Some(&p), &c, &vec![false, true]),
        Err(RsmError::Config("Provided config path does not exist: custom.toml".to_string()))
    );
}

#[test]
fn candidates_in_lookup_order() {
    let p = "custom.toml".to_string();
    let xdg = "/home/a/.config/rsm".to_string();
    let home = "/home/a".to_string();
    assert_eq!(Config::candidates_with_dirs(Some(&p), Some(&xdg), Some(&home)), vec![p.clone()]);
    assert_eq!(
        Config::candidates_with_dirs(None, Some(&xdg), Some(&home)),
        strings(&["rsm.toml", "/home/a/.config/rsm/rsm.toml", "/home/a/.config/rsm/rsm.toml"])
    );
    let mac = "/Users/a/Library/Application Support/rsm".to_string();
    assert_eq!(
        Config::candidates_with_dirs(None, Some(&mac), Some(&"/Users/a".to_string())),
        strings(&[
            "rsm.toml",
            "/Users/a/.config/rsm/rsm.toml",
            "/Users/a/Library/Application Support/rsm/rsm.toml",
        ])
    );
    assert_eq!(Config::candidates_with_dirs(None, None, None), strings(&["rsm.toml"]));
}

#[test]
fn the_documented_file_comes_before_the_system_directory() {
    let mac = "/Users/a/Library/Application Support/rsm".to_string();
    let c = Config::candidates_with_dirs(None, Some(&mac), Some(&"/Users/a".to_string()));
    assert_eq!(
        Config::resolve_path(None, &c, &vec![false, true, true]),
        Ok("/Users/a/.config/rsm/rsm.toml".to_string())
    );
    assert_eq!(Config::resolve_path(None, &c, &vec![true, true, true]), Ok("rsm.toml".to_string()));
}

#[test]
fn the_system_directory_is_the_one_for_rsm() {
    let c = Config::config_candidates(None);
    for later in &c[1..] {
        assert!(later.ends_with("rsm/rsm.toml"));
    }
}
