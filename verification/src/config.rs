//! The declarative configuration: which links to keep, where the
//! configuration file is found, and the template that `init` writes.
use vstd::prelude::*;
use crate::error::{ErrorView, RsmError};
use crate::path::{join, join_path, lemma_views_push, views};
use crate::symlink::user_home_dir;

verus! {

/// One link of the configuration: `target` should be a symlink to `source`.
#[derive(Debug, Clone)]
pub struct LinkEntry {
    /// Where the link is made.
    pub target: String,
    /// What the link points to.
    pub source: String,
    /// Mirror every file under `source` instead of linking `source` itself.
    pub recursive: bool,
    /// Tags that `--tag` selects by.
    pub tags: Option<Vec<String>>,
    /// Only on this operating system.
    pub os: Option<String>,
    /// Only on this host.
    pub host: Option<String>,
    /// Names and glob patterns to leave out of this entry.
    pub ignore: Option<Vec<String>>,
}

/// A whole configuration file.
#[derive(Debug, Clone)]
pub struct Config {
    /// Names and glob patterns left out of every entry.
    pub global_ignores: Option<Vec<String>>,
    /// The links, in file order.
    pub links: Vec<LinkEntry>,
}

/// The file that `init` writes.
pub const CONFIG_TEMPLATE: &'static str = "# RSM Configuration\n\n[[links]]\ntarget = \"~/.config/hypr/hyprland.conf\"\nsource = \"~/dotfiles/hyprland/hyprland.conf\"\ntags = [\"wm\", \"ui\"]\nos = \"linux\"\n\n[[links]]\ntarget = \"~/.bashrc\"\nsource = \"~/dotfiles/bash/bashrc\"\ntags = [\"shell\"]\n";

/// Every character of `name` is a lowercase ASCII letter.
pub open spec fn is_plain_app_name(name: Seq<char>) -> bool {
    name.len() > 0 && forall|i: int| 0 <= i < name.len() ==> 'a' <= #[trigger] name[i] <= 'z'
}

/// The configuration directory of `application` from
/// `directories::ProjectDirs::from("", "", application)` and its `config_dir`,
/// converted lossily to a string. The directory depends on the environment
/// (`$HOME`, `$XDG_CONFIG_HOME`), so the contract claims only what the crate's
/// Linux and macOS sources show of every outcome for a lowercase name without
/// spaces: the directory is some base directory joined with the name itself.
/// Which base it is stays unsaid.
#[verifier::external_body]
fn project_config_dir(application: &str) -> (r: Option<String>)
    requires
        is_plain_app_name(application@),
    ensures
        r matches Some(d) ==> exists|base: Seq<char>| d@ == #[trigger] join(base, application@),
{
    directories::ProjectDirs::from("", "", application).map(
        |dirs| dirs.config_dir().to_string_lossy().into_owned(),
    )
}

/// A directory, as plain characters.
pub open spec fn root_or_none(dir: Option<&String>) -> Option<Seq<char>> {
    match dir {
        Some(d) => Some(d@),
        None => None,
    }
}

/// `rsm.toml` in the system's configuration directory for `rsm`, when there
/// is one.
pub open spec fn system_part(config_dir: Option<Seq<char>>) -> Seq<Seq<char>> {
    match config_dir {
        Some(d) => seq![join(d, "rsm.toml"@)],
        None => Seq::empty(),
    }
}

/// `~/.config/rsm/rsm.toml`, when the home directory is known.
pub open spec fn home_part(home: Option<Seq<char>>) -> Seq<Seq<char>> {
    match home {
        Some(h) => seq![join(h, ".config/rsm/rsm.toml"@)],
        None => Seq::empty(),
    }
}

/// The candidates for the configuration file, in lookup order: the
/// command-line path alone; or `./rsm.toml`, then `~/.config/rsm/rsm.toml`,
/// then `rsm.toml` in the configuration directory for `rsm` that the system
/// reports (the same file where that directory is `~/.config/rsm`, elsewhere
/// only after the documented one).
pub open spec fn candidate_list(
    cli: Option<Seq<char>>,
    config_dir: Option<Seq<char>>,
    home: Option<Seq<char>>,
) -> Seq<Seq<char>> {
    match cli {
        Some(p) => seq![p],
        None => seq!["rsm.toml"@] + home_part(home) + system_part(config_dir),
    }
}

/// The message when an explicitly given configuration path is missing.
pub open spec fn missing_cli_message(p: Seq<char>) -> Seq<char> {
    "Provided config path does not exist: "@ + p
}

/// The message when no configuration file is found anywhere.
pub open spec fn not_found_message() -> Seq<char> {
    "Could not find rsm.toml in current directory or ~/.config/rsm/"@
}

/// The path given on the command line, as plain characters.
pub open spec fn cli_view(cli_path: Option<&String>) -> Option<Seq<char>> {
    match cli_path {
        Some(p) => Some(p@),
        None => None,
    }
}

/// A result carrying a path, as plain values.
pub open spec fn string_result_view(r: Result<String, RsmError>) -> Result<Seq<char>, ErrorView> {
    match r {
        Ok(s) => Ok(s@),
        Err(e) => Err(e@),
    }
}

/// The first candidate that exists.
pub open spec fn first_existing(candidates: Seq<Seq<char>>, found: Seq<bool>) -> Option<Seq<char>>
    decreases found.len(),
{
    if found.len() == 0 || candidates.len() == 0 {
        None
    } else if found[0] {
        Some(candidates[0])
    } else {
        first_existing(candidates.drop_first(), found.drop_first())
    }
}

/// Which configuration file is used: the command-line path when it exists
/// (an error when it does not), else the first existing candidate (an error
/// when none exists).
pub open spec fn config_resolution(
    cli: Option<Seq<char>>,
    candidates: Seq<Seq<char>>,
    found: Seq<bool>,
) -> Result<Seq<char>, ErrorView> {
    match cli {
        Some(p) => if found[0] {
            Ok(p)
        } else {
            Err(ErrorView::Config(missing_cli_message(p)))
        },
        None => match first_existing(candidates, found) {
            Some(c) => Ok(c),
            None => Err(ErrorView::Config(not_found_message())),
        },
    }
}

/// Index `i` is the first one at which `found` holds.
pub open spec fn is_first_found(found: Seq<bool>, i: int) -> bool {
    0 <= i < found.len() && found[i] && forall|j: int| 0 <= j < i ==> !#[trigger] found[j]
}

impl Config {
    /// Where the configuration is looked for, in order: the path given on the
    /// command line alone; otherwise `./rsm.toml`, then `~/.config/rsm/rsm.toml`,
    /// then `rsm.toml` in the system's configuration directory for `rsm`. The
    /// two directories are asked of the environment; `candidates_with_dirs`
    /// states the list exactly.
    pub fn config_candidates(cli_path: Option<&String>) -> (r: Vec<String>)
        ensures
            exists|config_dir: Option<Seq<char>>, home: Option<Seq<char>>|
                (config_dir is Some ==> exists|base: Seq<char>|
                    config_dir->0 == #[trigger] join(base, "rsm"@)) && (home is Some
                    ==> home->0.len() > 0) && views(r@) == #[trigger] candidate_list(
                    cli_view(cli_path),
                    config_dir,
                    home,
                ),
    {
        match cli_path {
            Some(_) => {
                let r = Self::candidates_with_dirs(cli_path, None, None);
                assert(views(r@) == candidate_list(cli_view(cli_path), None, None));
                r
            },
            None => {
                proof {
                    reveal_strlit("rsm");
                }
                let config_dir = project_config_dir("rsm");
                let home = user_home_dir();
                let config_ref = config_dir.as_ref();
                let home_ref = home.as_ref();
                let r = Self::candidates_with_dirs(cli_path, config_ref, home_ref);
                assert(views(r@) == candidate_list(
                    cli_view(cli_path),
                    root_or_none(config_ref),
                    root_or_none(home_ref),
                ));
                r
            },
        }
    }

    /// The candidates for the configuration file, given the system's
    /// configuration directory for `rsm` and the home directory (when known).
    pub fn candidates_with_dirs(
        cli_path: Option<&String>,
        config_dir: Option<&String>,
        home: Option<&String>,
    ) -> (r: Vec<String>)
        ensures
            views(r@) == candidate_list(
                cli_view(cli_path),
                root_or_none(config_dir),
                root_or_none(home),
            ),
    {
        let mut r: Vec<String> = Vec::new();
        match cli_path {
            Some(p) => {
                r.push(p.clone());
                assert(views(r@) =~= seq![p@]);
            },
            None => {
                let local = "rsm.toml".to_owned();
                r.push(local);
                assert(views(r@) =~= seq!["rsm.toml"@]);
                match home {
                    Some(h) => {
                        let user = join_path(h.as_str(), ".config/rsm/rsm.toml");
                        proof {
                            lemma_views_push(r@, user);
                        }
                        r.push(user);
                    },
                    None => {},
                }
                let ghost before = views(r@);
                assert(before == seq!["rsm.toml"@] + home_part(root_or_none(home))) by {
                    assert(seq!["rsm.toml"@] + Seq::<Seq<char>>::empty() =~= seq!["rsm.toml"@]);
                    if home is Some {
                        assert(seq!["rsm.toml"@].push(join(home->0@, ".config/rsm/rsm.toml"@))
                            =~= seq!["rsm.toml"@] + seq![join(home->0@, ".config/rsm/rsm.toml"@)]);
                    }
                }
                match config_dir {
                    Some(d) => {
                        let sys = join_path(d.as_str(), "rsm.toml");
                        proof {
                            lemma_views_push(r@, sys);
                        }
                        r.push(sys);
                        assert(views(r@) =~= before + seq![sys@]);
                    },
                    None => {
                        assert(views(r@) =~= before + Seq::<Seq<char>>::empty());
                    },
                }
            },
        }
        r
    }

    /// Picks the configuration file, given the candidates of
    /// `config_candidates` and whether each exists. A path given on the
    /// command line is taken if it exists and is an error otherwise; without
    /// one, the first existing candidate is taken.
    pub fn resolve_path(cli_path: Option<&String>, candidates: &Vec<String>, found: &Vec<bool>) -> (r:
        Result<String, RsmError>)
        requires
            found@.len() == candidates@.len(),
            cli_path is Some ==> found@.len() >= 1,
        ensures
            string_result_view(r) == config_resolution(cli_view(cli_path), views(candidates@), found@),
    {
        match cli_path {
            Some(p) => {
                if found[0] {
                    Ok(p.clone())
                } else {
                    let mut m = "Provided config path does not exist: ".to_owned();
                    m.append(p.as_str());
                    Err(RsmError::Config(m))
                }
            },
            None => {
                let mut i: usize = 0;
                assert(views(candidates@).skip(0) =~= views(candidates@));
                assert(found@.skip(0) =~= found@);
                while i < found.len()
                    invariant
                        i <= found@.len(),
                        found@.len() == candidates@.len(),
                        cli_path is None,
                        first_existing(views(candidates@), found@) == first_existing(
                            views(candidates@).skip(i as int),
                            found@.skip(i as int),
                        ),
                    decreases found@.len() - i,
                {
                    assert(views(candidates@).skip(i as int).drop_first() =~= views(candidates@).skip(
                        i + 1,
                    ));
                    assert(found@.skip(i as int).drop_first() =~= found@.skip(i + 1));
                    assert(views(candidates@).skip(i as int)[0] == candidates@[i as int]@);
                    assert(found@.skip(i as int)[0] == found@[i as int]);
                    if found[i] {
                        return Ok(candidates[i].clone());
                    }
                    i = i + 1;
                }
                Err(RsmError::Config(
                    "Could not find rsm.toml in current directory or ~/.config/rsm/".to_owned(),
                ))
            },
        }
    }

    /// The text to write for `init`, refused when `path` already exists.
    pub fn init_template(path: &String, exists: bool) -> (r: Result<String, RsmError>)
        ensures
            exists ==> (r matches Err(e) && e@ == ErrorView::TargetExists(path@)),
            !exists ==> (r matches Ok(t) && t@ == CONFIG_TEMPLATE@),
    {
        if exists {
            Err(RsmError::TargetExists(path.clone()))
        } else {
            Ok(CONFIG_TEMPLATE.to_owned())
        }
    }
}

/// A path given on the command line is never passed over for another file:
/// whatever the other candidates, it is taken when it exists and refused when
/// it does not.
pub proof fn lemma_cli_path_has_no_fallback(
    p: Seq<char>,
    candidates: Seq<Seq<char>>,
    found: Seq<bool>,
)
    requires
        found.len() >= 1,
    ensures
        found[0] ==> config_resolution(Some(p), candidates, found) == Ok::<Seq<char>, ErrorView>(p),
        !found[0] ==> config_resolution(Some(p), candidates, found) == Err::<Seq<char>, ErrorView>(
            ErrorView::Config(missing_cli_message(p)),
        ),
{
}

/// Without a command-line path, the file used is an existing candidate and
/// no earlier candidate exists; when none exists the lookup fails.
pub proof fn lemma_first_existing_candidate_wins(candidates: Seq<Seq<char>>, found: Seq<bool>)
    requires
        found.len() == candidates.len(),
    ensures
        config_resolution(None, candidates, found) matches Ok(c) ==> exists|i: int|
            is_first_found(found, i) && #[trigger] candidates[i] == c,
        config_resolution(None, candidates, found) is Err <==> forall|i: int|
            0 <= i < found.len() ==> !#[trigger] found[i],
    decreases found.len(),
{
    if found.len() > 0 {
        let (c2, f2) = (candidates.drop_first(), found.drop_first());
        lemma_first_existing_candidate_wins(c2, f2);
        if found[0] {
            assert(is_first_found(found, 0) && candidates[0] == candidates[0]);
        } else {
            if config_resolution(None, c2, f2) is Ok {
                let c = config_resolution(None, c2, f2)->Ok_0;
                let i = choose|i: int| is_first_found(f2, i) && #[trigger] c2[i] == c;
                assert forall|j: int| 0 <= j < i + 1 implies !#[trigger] found[j] by {
                    if j > 0 {
                        assert(found[j] == f2[j - 1]);
                    }
                }
                assert(is_first_found(found, i + 1));
                assert(candidates[i + 1] == c);
            } else {
                assert forall|i: int| 0 <= i < found.len() implies !#[trigger] found[i] by {
                    if i > 0 {
                        assert(found[i] == f2[i - 1]);
                    }
                }
            }
            if forall|i: int| 0 <= i < found.len() ==> !#[trigger] found[i] {
                assert forall|i: int| 0 <= i < f2.len() implies !#[trigger] f2[i] by {
                    assert(f2[i] == found[i + 1]);
                }
            }
        }
    }
}

/// The documented lookup order: without a command-line path, `./rsm.toml` is
/// used when it exists, else `~/.config/rsm/rsm.toml` when it exists; the
/// system's own configuration directory is consulted only after both.
pub proof fn lemma_documented_lookup_order(
    config_dir: Option<Seq<char>>,
    home: Seq<char>,
    found: Seq<bool>,
)
    requires
        found.len() == candidate_list(None, config_dir, Some(home)).len(),
    ensures
        found[0] ==> config_resolution(None, candidate_list(None, config_dir, Some(home)), found)
            == Ok::<Seq<char>, ErrorView>("rsm.toml"@),
        !found[0] && found[1] ==> config_resolution(
            None,
            candidate_list(None, config_dir, Some(home)),
            found,
        ) == Ok::<Seq<char>, ErrorView>(join(home, ".config/rsm/rsm.toml"@)),
{
    let c = candidate_list(None, config_dir, Some(home));
    assert(c[0] == "rsm.toml"@);
    assert(c[1] == join(home, ".config/rsm/rsm.toml"@));
    if !found[0] && found[1] {
        assert(c.drop_first()[0] == c[1]);
        assert(found.drop_first()[0] == found[1]);
        assert(first_existing(c, found) == first_existing(c.drop_first(), found.drop_first()));
        assert(first_existing(c.drop_first(), found.drop_first()) == Some(c[1]));
    }
}

} // verus!
