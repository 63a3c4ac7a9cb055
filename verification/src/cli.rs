//! The command line, once it is parsed.
use vstd::prelude::*;

verus! {

/// The command line.
#[derive(Debug)]
pub struct Cli {
    pub command: Command,
}

/// What to do.
#[derive(Debug)]
pub enum Command {
    /// Classify the hunks of a diff and show the report.
    Review(ReviewArgs),
}

/// What is reviewed, and how the report is shown.
#[derive(Debug)]
pub struct ReviewArgs {
    /// The revision before the change. Needed outside the event of a pull
    /// request.
    pub base: Option<String>,
    /// The revision after the change.
    pub head: String,
    /// Where the repository is.
    pub repo: String,
    /// The format. `Auto` is markdown for a comment, plain text for a terminal
    /// and JSON otherwise.
    pub format: FormatChoice,
    /// Whether to use colors.
    pub color: ColorChoice,
    /// Post or update the sticky comment on the pull request.
    pub post_comment: bool,
    /// The owner of the repository. Else that of the event.
    pub owner: Option<String>,
    /// The name of the repository. Else that of the event.
    pub repo_name: Option<String>,
    /// The number of the pull request. Else that of the event.
    pub pr: Option<u64>,
    /// Ask a model about the hunks that no rule made a finding on.
    pub llm: bool,
    /// Whom to ask. Else whoever there is a key for.
    pub llm_provider: Option<String>,
    /// Which model to ask. Else the provider's default.
    pub llm_model: Option<String>,
    /// Where to ask.
    pub llm_base_url: Option<String>,
    /// Where `garbelour.toml` is.
    pub config: String,
}

/// The format that is asked for.
#[derive(Copy, Clone, Debug, PartialEq, Eq, Structural)]
pub enum FormatChoice {
    Auto,
    Human,
    Markdown,
    Json,
}

/// The use of colors that is asked for.
#[derive(Copy, Clone, Debug, PartialEq, Eq, Structural)]
pub enum ColorChoice {
    Auto,
    Always,
    Never,
}

/// The format that is used.
#[derive(Copy, Clone, Debug, PartialEq, Eq, Structural)]
pub enum Format {
    Human,
    Markdown,
    Json,
}

} // verus!
