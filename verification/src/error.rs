//! The errors of the link engine.
use vstd::prelude::*;

verus! {

/// What went wrong, with the detail that the message shows.
#[derive(Debug, Clone, PartialEq, Eq)]
pub enum RsmError {
    /// A filesystem operation failed.
    Io(String),
    /// The configuration could not be found or is unusable.
    Config(String),
    /// A link target is already occupied and overwriting was not asked for.
    TargetExists(String),
    /// A link source does not exist.
    SourceMissing(String),
    /// The configuration file is not valid TOML for the schema.
    TomlParse(String),
    /// The absolute path of a source could not be resolved.
    PathResolution(String),
    /// Walking a directory tree failed.
    WalkDir(String),
    /// An ignore pattern is not a valid glob.
    PatternError(String),
}

/// An error as plain values.
pub enum ErrorView {
    Io(Seq<char>),
    Config(Seq<char>),
    TargetExists(Seq<char>),
    SourceMissing(Seq<char>),
    TomlParse(Seq<char>),
    PathResolution(Seq<char>),
    WalkDir(Seq<char>),
    PatternError(Seq<char>),
}

impl View for RsmError {
    type V = ErrorView;

    open spec fn view(&self) -> ErrorView {
        match self {
            RsmError::Io(s) => ErrorView::Io(s@),
            RsmError::Config(s) => ErrorView::Config(s@),
            RsmError::TargetExists(s) => ErrorView::TargetExists(s@),
            RsmError::SourceMissing(s) => ErrorView::SourceMissing(s@),
            RsmError::TomlParse(s) => ErrorView::TomlParse(s@),
            RsmError::PathResolution(s) => ErrorView::PathResolution(s@),
            RsmError::WalkDir(s) => ErrorView::WalkDir(s@),
            RsmError::PatternError(s) => ErrorView::PatternError(s@),
        }
    }
}

/// The text shown for an error.
pub open spec fn error_message(e: ErrorView) -> Seq<char> {
    match e {
        ErrorView::Io(s) => "I/O Error: "@ + s,
        ErrorView::Config(s) => "Configuration Error: "@ + s,
        ErrorView::TargetExists(s) => "Target already exists at "@ + s
            + ". Use --force to overwrite."@,
        ErrorView::SourceMissing(s) => "Source does not exist: "@ + s,
        ErrorView::TomlParse(s) => "Failed to parse TOML: "@ + s,
        ErrorView::PathResolution(s) => "Failed to resolve absolute path for: "@ + s,
        ErrorView::WalkDir(s) => "Directory traversal error: "@ + s,
        ErrorView::PatternError(s) => "Invalid glob pattern: "@ + s,
    }
}

/// `prefix` followed by `detail`.
fn prefixed(prefix: &str, detail: &String) -> (r: String)
    ensures
        r@ == prefix@ + detail@,
{
    let mut r = prefix.to_owned();
    r.append(detail.as_str());
    r
}

impl RsmError {
    /// The text shown for this error.
    pub fn message(&self) -> (r: String)
        ensures
            r@ == error_message(self@),
    {
        match self {
            RsmError::Io(s) => prefixed("I/O Error: ", s),
            RsmError::Config(s) => prefixed("Configuration Error: ", s),
            RsmError::TargetExists(s) => {
                let mut r = prefixed("Target already exists at ", s);
                r.append(". Use --force to overwrite.");
                r
            },
            RsmError::SourceMissing(s) => prefixed("Source does not exist: ", s),
            RsmError::TomlParse(s) => prefixed("Failed to parse TOML: ", s),
            RsmError::PathResolution(s) => prefixed("Failed to resolve absolute path for: ", s),
            RsmError::WalkDir(s) => prefixed("Directory traversal error: ", s),
            RsmError::PatternError(s) => prefixed("Invalid glob pattern: ", s),
        }
    }
}

} // verus!
