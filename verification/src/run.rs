//! The steps of a review, from the command line to the report.
//!
//! Between the steps the caller reads and sends: the event, the diff, the
//! contents of files, the questions to a model and their answers, the comment.
use vstd::prelude::*;

use crate::classifiers::generated;
use crate::classify;
use crate::classify::{
    Category, Classified, ClassifiedView, Classifier, Finding, FindingView, HunkFindings,
    HunkFindingsView, Level, PipelineConfig, Source, SourceView, Unclassified, UnclassifiedView,
};
use crate::cli::{ColorChoice, Format, FormatChoice, ReviewArgs};
use crate::config::Config;
use crate::consolidate;
use crate::consolidate::Item;
use crate::diff::{Diff, FileDiffView, LineRange};
use crate::github;
use crate::github::{GitHubClient, GitHubError, PrEvent, PrEventView};
use crate::json;
use crate::llm;
use crate::llm::{ApiKeys, LlmConfig, ProviderError};
use crate::order;
use crate::render;
use crate::render::comment;
use crate::render::comment::RepoRefView;
use crate::render::report;
use crate::render::terminal;
use crate::render::RepoRef;
use crate::text;

verus! {

/// Why a review does not come to its end.
#[derive(Clone, Copy, Debug, PartialEq, Eq, Structural)]
pub enum RunError {
    /// There is no revision to compare with.
    NoBase,
    /// The pull request to comment on is not known.
    NoTarget,
    /// The comment cannot be posted.
    GitHub(GitHubError),
}

impl RunError {
    /// What the user is told.
    pub fn message(&self) -> (r: &'static str)
        ensures
            r@ == (match self {
                RunError::NoBase => "--base is required (and no GITHUB_EVENT_PATH was found)"@,
                RunError::NoTarget =>
                    "--post-comment requires owner/repo/pr (CLI or event payload)"@,
                RunError::GitHub(e) => github::error_message(*e),
            }),
    {
        match self {
            RunError::NoBase => "--base is required (and no GITHUB_EVENT_PATH was found)",
            RunError::NoTarget => "--post-comment requires owner/repo/pr (CLI or event payload)",
            RunError::GitHub(e) => e.message(),
        }
    }
}

// --- what is compared ----------------------------------------------------

/// Something is left out on the command line that the event may know.
pub open spec fn leaves_out(args: ReviewArgs) -> bool {
    args.base is None || args.owner is None || args.repo_name is None || args.pr is None
}

/// Whether the event of the pull request has to be read.
pub fn needs_event(args: &ReviewArgs) -> (r: bool)
    ensures
        r == leaves_out(*args),
{
    args.base.is_none() || args.owner.is_none() || args.repo_name.is_none() || args.pr.is_none()
}

/// The two revisions that are compared.
#[derive(Debug)]
pub struct Revisions {
    pub base: String,
    pub head: String,
}

/// The revision before the change: the one on the command line, or else that
/// of the event.
pub open spec fn base_of(args: ReviewArgs, event: Option<PrEventView>) -> Option<Seq<char>> {
    match (args.base, event) {
        (Some(b), _) => Some(b@),
        (None, Some(e)) => Some(e.base_sha),
        (None, None) => None,
    }
}

/// The revision after the change: the one on the command line. `HEAD` stands
/// for that of the event, where there is one.
pub open spec fn head_of(args: ReviewArgs, event: Option<PrEventView>) -> Seq<char> {
    match event {
        Some(e) => if args.head@ == "HEAD"@ {
            e.head_sha
        } else {
            args.head@
        },
        None => args.head@,
    }
}

/// Works out which revisions are compared.
pub fn resolve_revisions(args: &ReviewArgs, event: Option<&PrEvent>) -> (r: Result<
    Revisions,
    RunError,
>)
    ensures
        match r {
            Ok(v) => base_of(*args, text::opt_view(event)) == Some(v.base@) && v.head@ == head_of(
                *args,
                text::opt_view(event),
            ),
            Err(e) => base_of(*args, text::opt_view(event)) is None && e == RunError::NoBase,
        },
{
    let base: String = match (&args.base, event) {
        (Some(b), _) => b.clone(),
        (None, Some(e)) => e.base_sha.clone(),
        (None, None) => return Err(RunError::NoBase),
    };
    let head: String = match event {
        Some(e) => if text::str_same(args.head.as_str(), "HEAD") {
            e.head_sha.clone()
        } else {
            args.head.clone()
        },
        None => args.head.clone(),
    };
    Ok(Revisions { base, head })
}

// --- which rules run -----------------------------------------------------

/// What the standard pipeline is built from: the globs and names of the
/// configuration, each once and in order, and the paths that `.gitattributes`
/// marks as generated.
pub fn build_pipeline_config(config: &Config, gitattributes: &str) -> (r: PipelineConfig)
    ensures
        text::views(r.generated_globs@) == order::sorted_distinct(
            text::views(config.classify.generated_globs@),
        ),
        text::views(r.lockfile_names@) == order::sorted_distinct(
            text::views(config.classify.lockfile_names@),
        ),
        text::views(r.generated_paths@) == generated::marked_in(text::lines_of(gitattributes@)),
        r.max_findings_per_classifier == 5,
{
    PipelineConfig {
        generated_globs: order::sort_distinct(text::clone_all(&config.classify.generated_globs)),
        lockfile_names: order::sort_distinct(text::clone_all(&config.classify.lockfile_names)),
        generated_paths: generated::read_gitattributes_generated(gitattributes),
        max_findings_per_classifier: 5,
    }
}

// --- asking a model ------------------------------------------------------

/// The text on the command line, or else that of the configuration.
pub open spec fn either(a: Option<String>, b: Option<String>) -> Option<Seq<char>> {
    match (a, b) {
        (Some(x), _) => Some(x@),
        (None, Some(y)) => Some(y@),
        (None, None) => None,
    }
}

fn first_of<'a>(a: &'a Option<String>, b: &'a Option<String>) -> (r: Option<&'a str>)
    ensures
        text::opt_view(r) == either(*a, *b),
{
    match (a, b) {
        (Some(x), _) => Some(x.as_str()),
        (None, Some(y)) => Some(y.as_str()),
        (None, None) => None,
    }
}

/// Works out which model is asked: none, unless the command line wants one.
/// `anthropic_model` is the model for Anthropic where none is named.
pub fn choose_model(
    args: &ReviewArgs,
    config: &Config,
    keys: &ApiKeys,
    anthropic_model: &str,
) -> (r: Result<Option<LlmConfig>, ProviderError>)
    ensures
        !args.llm ==> r == Ok::<Option<LlmConfig>, ProviderError>(None),
        args.llm ==> (r matches Ok(c) ==> c is Some) && llm::provider_detected(
            either(args.llm_provider, config.llm.provider),
            either(args.llm_model, config.llm.model),
            text::opt_view(args.llm_base_url),
            *keys,
            anthropic_model@,
            match r {
                Ok(c) => Ok(c.unwrap()),
                Err(e) => Err(e),
            },
        ),
{
    if !args.llm {
        return Ok(None);
    }
    let url: Option<&str> = match &args.llm_base_url {
        Some(u) => Some(u.as_str()),
        None => None,
    };
    match llm::detect_provider(
        first_of(&args.llm_provider, &config.llm.provider),
        first_of(&args.llm_model, &config.llm.model),
        url,
        keys,
        anthropic_model,
    ) {
        Ok(c) => Ok(Some(c)),
        Err(e) => Err(e),
    }
}

/// What the model says of the hunks: `bodies` are the bodies of the replies to
/// `llm::build_requests`, in order. `None` where there is not one for each
/// request, or one is no JSON document.
pub fn read_verdicts(hunks: &Vec<Unclassified>, bodies: &Vec<String>, config: &LlmConfig) -> (r:
    Option<Vec<Classified>>)
    ensures
        ({
            let batches = llm::batches_of(text::views(hunks@));
            let want = llm::replies_of(
                text::views(bodies@),
                batches,
                config.provider,
                config.model@,
            );
            match r {
                Some(cs) => bodies@.len() == batches.len() && want == Some(text::views(cs@)),
                None => bodies@.len() != batches.len() || want is None,
            }
        }),
{
    if llm::build_batches(hunks).len() != bodies.len() {
        return None;
    }
    llm::classify_hunks(hunks, bodies, config)
}

// --- every hunk has findings ---------------------------------------------

/// A verdict of the model as findings on its hunk. The lines of the old file
/// are those of the hunk that was asked about.
pub open spec fn verdict_findings(c: ClassifiedView, hunks: Seq<UnclassifiedView>) -> HunkFindingsView {
    HunkFindingsView {
        hunk_id: c.hunk_id,
        file_path: c.file_path,
        old_range: match llm::hunk_with_id(hunks, c.hunk_id) {
            Some(u) => u.old_range,
            None => c.new_range,
        },
        new_range: c.new_range,
        findings: seq![c.classification],
    }
}

/// Where the findings on a hunk stand; the length where there are none.
pub open spec fn index_of_hunk(fs: Seq<HunkFindingsView>, id: Seq<char>) -> nat
    decreases fs.len(),
{
    if fs.len() == 0 || fs[0].hunk_id == id {
        0
    } else {
        1 + index_of_hunk(fs.drop_first(), id)
    }
}

/// The findings with more on a hunk: behind those that it has, or as the first.
pub open spec fn with_findings(fs: Seq<HunkFindingsView>, more: HunkFindingsView) -> Seq<
    HunkFindingsView,
> {
    let i = index_of_hunk(fs, more.hunk_id) as int;
    if i < fs.len() {
        fs.update(
            i,
            HunkFindingsView { findings: fs[i].findings + more.findings, ..fs[i] },
        )
    } else {
        fs.push(more)
    }
}

/// The findings with those of the model.
pub open spec fn with_verdicts(
    fs: Seq<HunkFindingsView>,
    verdicts: Seq<ClassifiedView>,
    hunks: Seq<UnclassifiedView>,
) -> Seq<HunkFindingsView>
    decreases verdicts.len(),
{
    if verdicts.len() == 0 {
        fs
    } else {
        with_findings(
            with_verdicts(fs, verdicts.drop_last(), hunks),
            verdict_findings(verdicts.last(), hunks),
        )
    }
}

/// Why a hunk without findings is to be reviewed.
pub open spec fn default_rationale(asked: bool) -> Seq<char> {
    if asked {
        "no heuristic match and LLM declined to verdict, defaulting to review"@
    } else {
        "no heuristic match and LLM not run: defaulting to review"@
    }
}

/// The finding on a hunk that has no other.
pub open spec fn default_finding(asked: bool) -> FindingView {
    FindingView {
        level: Level::Review,
        category: Category::LlmAssessed,
        rationale: default_rationale(asked),
        source: SourceView::Heuristic { name: "default"@ },
        focus_lines: None,
    }
}

pub open spec fn default_findings(u: UnclassifiedView, asked: bool) -> HunkFindingsView {
    HunkFindingsView {
        hunk_id: u.hunk_id,
        file_path: u.file_path,
        old_range: u.old_range,
        new_range: u.new_range,
        findings: seq![default_finding(asked)],
    }
}

/// The findings, and one more on each of these hunks that has none.
pub open spec fn with_defaults(
    fs: Seq<HunkFindingsView>,
    hunks: Seq<UnclassifiedView>,
    asked: bool,
) -> Seq<HunkFindingsView>
    decreases hunks.len(),
{
    if hunks.len() == 0 {
        fs
    } else {
        let before = with_defaults(fs, hunks.drop_last(), asked);
        let u = hunks.last();
        if index_of_hunk(before, u.hunk_id) < before.len() {
            before
        } else {
            before.push(default_findings(u, asked))
        }
    }
}

/// All findings: those of the rules, those of the model where one was asked,
/// and one on each hunk that is then left over.
pub open spec fn settled(
    fs: Seq<HunkFindingsView>,
    hunks: Seq<UnclassifiedView>,
    verdicts: Option<Seq<ClassifiedView>>,
) -> Seq<HunkFindingsView> {
    match verdicts {
        Some(vs) => with_defaults(with_verdicts(fs, vs, hunks), hunks, true),
        None => with_defaults(fs, hunks, false),
    }
}

proof fn lemma_index_of_hunk(fs: Seq<HunkFindingsView>, id: Seq<char>, n: int)
    requires
        0 <= n <= fs.len(),
        forall|k: int| 0 <= k < n ==> (#[trigger] fs[k]).hunk_id != id,
        n < fs.len() ==> fs[n].hunk_id == id,
    ensures
        index_of_hunk(fs, id) == n,
    decreases n,
{
    if n > 0 {
        assert(fs[0].hunk_id != id);
        let rest = fs.drop_first();
        assert forall|k: int| 0 <= k < n - 1 implies (#[trigger] rest[k]).hunk_id != id by {
            assert(fs[k + 1].hunk_id != id);
        }
        lemma_index_of_hunk(rest, id, n - 1);
    }
}

proof fn lemma_index_is(fs: Seq<HunkFindingsView>, id: Seq<char>)
    ensures
        index_of_hunk(fs, id) <= fs.len(),
        index_of_hunk(fs, id) < fs.len() ==> fs[index_of_hunk(fs, id) as int].hunk_id == id,
        forall|k: int| 0 <= k < index_of_hunk(fs, id) ==> (#[trigger] fs[k]).hunk_id != id,
    decreases fs.len(),
{
    if fs.len() > 0 && fs[0].hunk_id != id {
        let rest = fs.drop_first();
        lemma_index_is(rest, id);
        assert forall|k: int| 0 <= k < index_of_hunk(fs, id) implies (#[trigger] fs[k]).hunk_id
            != id by {
            if k > 0 {
                assert(rest[k - 1] == fs[k]);
            }
        }
    }
}

fn hunk_position(fs: &Vec<HunkFindings>, id: &str) -> (r: usize)
    ensures
        r == index_of_hunk(text::views(fs@), id@),
        r <= fs@.len(),
{
    let ghost all = text::views(fs@);
    let mut i: usize = 0;
    while i < fs.len() && !text::str_same(fs[i].hunk_id.0.as_str(), id)
        invariant
            i <= fs.len(),
            all == text::views(fs@),
            forall|k: int| 0 <= k < i ==> (#[trigger] all[k]).hunk_id != id@,
        decreases fs.len() - i,
    {
        assert(all[i as int] == fs@[i as int]@);
        i = i + 1;
    }
    proof {
        if i < fs@.len() {
            assert(all[i as int] == fs@[i as int]@);
        }
        lemma_index_of_hunk(all, id@, i as int);
    }
    i
}

impl HunkFindings {
    /// Adds a finding behind those that are there.
    fn add(&mut self, f: Finding)
        ensures
            final(self)@ == (HunkFindingsView {
                findings: old(self)@.findings.push(f@),
                ..old(self)@
            }),
    {
        let ghost before = self.findings@;
        self.findings.push(f);
        proof {
            text::lemma_views_push(before, f);
        }
    }
}

fn add_verdict(fs: &mut Vec<HunkFindings>, c: Classified, hunks: &Vec<Unclassified>)
    ensures
        text::views(final(fs)@) == with_findings(
            text::views(old(fs)@),
            verdict_findings(c@, text::views(hunks@)),
        ),
{
    let ghost all = text::views(fs@);
    let ghost before = fs@;
    let ghost given = c@;
    let i: usize = hunk_position(fs, c.hunk_id.0.as_str());
    if i < fs.len() {
        fs[i].add(c.classification);
        proof {
            let more = verdict_findings(given, text::views(hunks@)).findings;
            assert(all[i as int] == before[i as int]@);
            assert(all[i as int].findings.push(given.classification) =~= all[i as int].findings
                + more);
            assert(text::views(fs@) =~= all.update(i as int, fs@[i as int]@));
        }
    } else {
        let old_range: LineRange = match llm::find_hunk(hunks, c.hunk_id.0.as_str()) {
            Some(u) => u.old_range,
            None => c.new_range,
        };
        let findings: Vec<Finding> = vec![c.classification];
        assert(text::views(findings@) =~= seq![given.classification]);
        let x: HunkFindings = HunkFindings {
            hunk_id: c.hunk_id,
            file_path: c.file_path,
            old_range,
            new_range: c.new_range,
            findings,
        };
        fs.push(x);
        proof {
            text::lemma_views_push(before, x);
        }
    }
}

fn add_verdicts(fs: &mut Vec<HunkFindings>, verdicts: Vec<Classified>, hunks: &Vec<Unclassified>)
    ensures
        text::views(final(fs)@) == with_verdicts(
            text::views(old(fs)@),
            text::views(verdicts@),
            text::views(hunks@),
        ),
{
    let ghost start = text::views(fs@);
    let ghost all = text::views(verdicts@);
    let mut rest: Vec<Classified> = verdicts;
    let ghost mut done: int = 0;
    assert(all.skip(0) == all);
    while rest.len() > 0
        invariant
            0 <= done <= all.len(),
            rest@.len() == all.len() - done,
            text::views(rest@) == all.skip(done),
            text::views(fs@) == with_verdicts(start, all.take(done), text::views(hunks@)),
        decreases rest.len(),
    {
        let ghost waiting = rest@;
        let c: Classified = rest.remove(0);
        proof {
            assert(text::views(waiting)[0] == c@);
            assert(all.skip(done)[0] == all[done]);
            assert(text::views(rest@) =~= text::views(waiting).skip(1));
            assert(all.skip(done).skip(1) =~= all.skip(done + 1));
            assert(all.take(done + 1).drop_last() == all.take(done));
            assert(all.take(done + 1).last() == c@);
            done = done + 1;
        }
        add_verdict(fs, c, hunks);
    }
    assert(all.take(done) == all);
}

fn default_for(u: &Unclassified, asked: bool) -> (r: HunkFindings)
    ensures
        r@ == default_findings(u@, asked),
{
    let rationale: String = if asked {
        "no heuristic match and LLM declined to verdict, defaulting to review".to_string()
    } else {
        "no heuristic match and LLM not run: defaulting to review".to_string()
    };
    let findings: Vec<Finding> = vec![
        Finding {
            level: Level::Review,
            category: Category::LlmAssessed,
            rationale,
            source: Source::Heuristic { name: "default".to_string() },
            focus_lines: None,
        },
    ];
    assert(text::views(findings@) =~= seq![default_finding(asked)]);
    HunkFindings {
        hunk_id: u.hunk_id.clone(),
        file_path: u.file_path.clone(),
        old_range: u.old_range,
        new_range: u.new_range,
        findings,
    }
}

fn add_defaults(fs: &mut Vec<HunkFindings>, hunks: &Vec<Unclassified>, asked: bool)
    ensures
        text::views(final(fs)@) == with_defaults(
            text::views(old(fs)@),
            text::views(hunks@),
            asked,
        ),
{
    let ghost start = text::views(fs@);
    let ghost all = text::views(hunks@);
    let mut i: usize = 0;
    while i < hunks.len()
        invariant
            i <= hunks.len(),
            all == text::views(hunks@),
            text::views(fs@) == with_defaults(start, all.take(i as int), asked),
        decreases hunks.len() - i,
    {
        proof {
            assert(all.take(i + 1).drop_last() == all.take(i as int));
            assert(all.take(i + 1).last() == hunks@[i as int]@);
        }
        let ghost before = fs@;
        if hunk_position(fs, hunks[i].hunk_id.0.as_str()) == fs.len() {
            let x: HunkFindings = default_for(&hunks[i], asked);
            fs.push(x);
            proof {
                text::lemma_views_push(before, x);
            }
        }
        i = i + 1;
    }
    assert(all.take(i as int) == all);
}

/// Puts all findings together: those of the rules, those of the model where one
/// was asked, and one on each hunk that is then left over.
pub fn settle(
    classified: Vec<HunkFindings>,
    unclassified: &Vec<Unclassified>,
    verdicts: Option<Vec<Classified>>,
) -> (r: Vec<HunkFindings>)
    ensures
        text::views(r@) == settled(
            text::views(classified@),
            text::views(unclassified@),
            match verdicts {
                Some(vs) => Some(text::views(vs@)),
                None => None,
            },
        ),
{
    let mut fs: Vec<HunkFindings> = classified;
    match verdicts {
        Some(vs) => {
            add_verdicts(&mut fs, vs, unclassified);
            add_defaults(&mut fs, unclassified, true);
        },
        None => {
            add_defaults(&mut fs, unclassified, false);
        },
    }
    fs
}

// --- how the report is shown ---------------------------------------------

/// The format: the one that is asked for; else markdown for a comment, plain
/// text for a terminal and JSON otherwise.
pub open spec fn format_of(args: ReviewArgs, is_tty: bool) -> Format {
    match args.format {
        FormatChoice::Human => Format::Human,
        FormatChoice::Markdown => Format::Markdown,
        FormatChoice::Json => Format::Json,
        FormatChoice::Auto => if args.post_comment {
            Format::Markdown
        } else if is_tty {
            Format::Human
        } else {
            Format::Json
        },
    }
}

/// Works out the format.
pub fn resolve_format(args: &ReviewArgs, is_tty: bool) -> (r: Format)
    ensures
        r == format_of(*args, is_tty),
{
    match args.format {
        FormatChoice::Human => Format::Human,
        FormatChoice::Markdown => Format::Markdown,
        FormatChoice::Json => Format::Json,
        FormatChoice::Auto => {
            if args.post_comment {
                Format::Markdown
            } else if is_tty {
                Format::Human
            } else {
                Format::Json
            }
        },
    }
}

/// Colors are used: as is asked for; else on a terminal, unless `NO_COLOR` is
/// in the environment.
pub open spec fn color_of(args: ReviewArgs, is_tty: bool, no_color: bool) -> bool {
    match args.color {
        ColorChoice::Always => true,
        ColorChoice::Never => false,
        ColorChoice::Auto => is_tty && !no_color,
    }
}

/// Works out whether colors are used.
pub fn resolve_color(args: &ReviewArgs, is_tty: bool, no_color: bool) -> (r: bool)
    ensures
        r == color_of(*args, is_tty, no_color),
{
    match args.color {
        ColorChoice::Always => true,
        ColorChoice::Never => false,
        ColorChoice::Auto => is_tty && !no_color,
    }
}

/// The pull request: as far as the command line does not say, that of the
/// event. It is known only if all of it is.
pub open spec fn repo_ref_of(args: ReviewArgs, event: Option<PrEventView>) -> Option<RepoRefView> {
    let owner = match (args.owner, event) {
        (Some(x), _) => Some(x@),
        (None, Some(e)) => Some(e.owner),
        (None, None) => None,
    };
    let repo = match (args.repo_name, event) {
        (Some(x), _) => Some(x@),
        (None, Some(e)) => Some(e.repo),
        (None, None) => None,
    };
    let pr = match (args.pr, event) {
        (Some(n), _) => Some(n),
        (None, Some(e)) => Some(e.pr_number),
        (None, None) => None,
    };
    match (owner, repo, pr) {
        (Some(owner), Some(repo), Some(pr)) => Some(
            RepoRefView { host: "https://github.com"@, owner, repo, pr },
        ),
        _ => None,
    }
}

/// Works out the pull request.
pub fn build_repo_ref(args: &ReviewArgs, event: Option<&PrEvent>) -> (r: Option<RepoRef>)
    ensures
        text::opt_view(r) == repo_ref_of(*args, text::opt_view(event)),
{
    let owner: String = match (&args.owner, event) {
        (Some(x), _) => x.clone(),
        (None, Some(e)) => e.owner.clone(),
        (None, None) => return None,
    };
    let repo: String = match (&args.repo_name, event) {
        (Some(x), _) => x.clone(),
        (None, Some(e)) => e.repo.clone(),
        (None, None) => return None,
    };
    let pr: u64 = match (args.pr, event) {
        (Some(n), _) => n,
        (None, Some(e)) => e.pr_number,
        (None, None) => return None,
    };
    Some(RepoRef { host: "https://github.com".to_string(), owner, repo, pr })
}

/// What is done with the report.
#[derive(Debug)]
pub enum Output {
    /// Both are printed, the summary to the standard error.
    Terminal { summary: String, report: String },
    /// The markdown is printed.
    Markdown(String),
    /// The document is printed, on lines of its own.
    Json(String),
    /// The body is posted to the pull request.
    Comment { client: GitHubClient, target: RepoRef, body: String },
}

/// Where the API is found: as the configuration says, or else at the usual
/// place.
pub open spec fn api_url_of(config: Config) -> Seq<char> {
    match config.github.base_url {
        Some(u) => u@,
        None => github::API_URL@,
    }
}

/// Makes the report, and says what is done with it. A comment is posted only as
/// markdown; it needs a token and a pull request.
pub fn present(
    args: &ReviewArgs,
    config: &Config,
    diff: &Diff,
    items: &Vec<Item>,
    event: Option<&PrEvent>,
    is_tty: bool,
    no_color: bool,
    token: Option<String>,
) -> (r: Result<Output, RunError>)
    ensures
        ({
            let all = text::views(items@);
            let target = repo_ref_of(*args, text::opt_view(event));
            let body = comment::markdown_text(all, target);
            match format_of(*args, is_tty) {
                Format::Human => {
                    &&& r matches Ok(Output::Terminal { summary, report })
                    &&& summary@ == render::summary_text(all)
                    &&& report@ == terminal::human_text(all, color_of(*args, is_tty, no_color))
                },
                Format::Markdown => if !args.post_comment {
                    &&& r matches Ok(Output::Markdown(s))
                    &&& s@ == body
                } else if token is None {
                    r == Err::<Output, RunError>(RunError::GitHub(GitHubError::NoToken))
                } else if target is None {
                    r == Err::<Output, RunError>(RunError::NoTarget)
                } else {
                    &&& r matches Ok(Output::Comment { client, target: to, body: s })
                    &&& client.token() == token.unwrap()@
                    &&& client.base_url() == api_url_of(*config)
                    &&& to@ == target.unwrap()
                    &&& s@ == body
                },
                Format::Json => {
                    &&& r matches Ok(Output::Json(s))
                    &&& s@ == json::json_pretty(report::report_json(diff@, all))
                },
            }
        }),
{
    match resolve_format(args, is_tty) {
        Format::Human => Ok(
            Output::Terminal {
                summary: render::summary_line(items),
                report: render::human(diff, items, resolve_color(args, is_tty, no_color)),
            },
        ),
        Format::Markdown => {
            let target: Option<RepoRef> = build_repo_ref(args, event);
            let body: String = render::markdown(diff, items, target.as_ref());
            if !args.post_comment {
                return Ok(Output::Markdown(body));
            }
            let client: GitHubClient = match GitHubClient::from_env(token) {
                Ok(c) => c,
                Err(e) => return Err(RunError::GitHub(e)),
            };
            let client: GitHubClient = match &config.github.base_url {
                Some(u) => client.with_base_url(u.clone()),
                None => client,
            };
            match target {
                Some(target) => Ok(Output::Comment { client, target, body }),
                None => Err(RunError::NoTarget),
            }
        },
        Format::Json => match render::json(diff, items) {
            Ok(s) => Ok(Output::Json(s)),
            Err(_) => Ok(Output::Json(String::new())),
        },
    }
}

/// What the user is told once the comment is posted.
pub fn posted_line(pr: u64) -> (r: String)
    ensures
        r@ == "garbelour: posted review map to PR #"@ + text::dec(pr as nat),
{
    let mut out: String = "garbelour: posted review map to PR #".to_string();
    out.append(text::decimal(pr).as_str());
    out
}

// --- laws ----------------------------------------------------------------

/// There are findings on a hunk.
pub open spec fn has_findings(fs: Seq<HunkFindingsView>, id: Seq<char>) -> bool {
    exists|i: int|
        0 <= i < fs.len() && (#[trigger] fs[i]).hunk_id == id && fs[i].findings.len() > 0
}

/// No hunk is listed without findings.
pub open spec fn none_empty(fs: Seq<HunkFindingsView>) -> bool {
    forall|i: int| 0 <= i < fs.len() ==> (#[trigger] fs[i]).findings.len() > 0
}

/// `after` has the hunks of `before` in their places, with their findings and
/// maybe more behind them.
pub open spec fn keeps(before: Seq<HunkFindingsView>, after: Seq<HunkFindingsView>) -> bool {
    &&& before.len() <= after.len()
    &&& forall|i: int|
        0 <= i < before.len() ==> (#[trigger] after[i]).hunk_id == before[i].hunk_id
            && after[i].file_path == before[i].file_path && after[i].old_range
            == before[i].old_range && after[i].new_range == before[i].new_range
            && before[i].findings.is_prefix_of(after[i].findings)
}

proof fn lemma_keeps_findings(
    before: Seq<HunkFindingsView>,
    after: Seq<HunkFindingsView>,
    id: Seq<char>,
)
    requires
        keeps(before, after),
        has_findings(before, id),
    ensures
        has_findings(after, id),
{
    let i = choose|i: int|
        0 <= i < before.len() && (#[trigger] before[i]).hunk_id == id && before[i].findings.len()
            > 0;
    assert(after[i].hunk_id == id);
}

proof fn lemma_with_findings(fs: Seq<HunkFindingsView>, more: HunkFindingsView)
    requires
        none_empty(fs),
        more.findings.len() > 0,
    ensures
        none_empty(with_findings(fs, more)),
        keeps(fs, with_findings(fs, more)),
        has_findings(with_findings(fs, more), more.hunk_id),
{
    lemma_index_is(fs, more.hunk_id);
    let i = index_of_hunk(fs, more.hunk_id) as int;
    let after = with_findings(fs, more);
    assert(after[i].hunk_id == more.hunk_id);
}

proof fn lemma_with_verdicts(
    fs: Seq<HunkFindingsView>,
    verdicts: Seq<ClassifiedView>,
    hunks: Seq<UnclassifiedView>,
)
    requires
        none_empty(fs),
    ensures
        none_empty(with_verdicts(fs, verdicts, hunks)),
        keeps(fs, with_verdicts(fs, verdicts, hunks)),
    decreases verdicts.len(),
{
    if verdicts.len() > 0 {
        let before = with_verdicts(fs, verdicts.drop_last(), hunks);
        lemma_with_verdicts(fs, verdicts.drop_last(), hunks);
        lemma_with_findings(before, verdict_findings(verdicts.last(), hunks));
    }
}

proof fn lemma_with_defaults(
    fs: Seq<HunkFindingsView>,
    hunks: Seq<UnclassifiedView>,
    asked: bool,
)
    requires
        none_empty(fs),
    ensures
        none_empty(with_defaults(fs, hunks, asked)),
        keeps(fs, with_defaults(fs, hunks, asked)),
        forall|k: int|
            0 <= k < hunks.len() ==> has_findings(
                with_defaults(fs, hunks, asked),
                (#[trigger] hunks[k]).hunk_id,
            ),
    decreases hunks.len(),
{
    if hunks.len() > 0 {
        let before = with_defaults(fs, hunks.drop_last(), asked);
        let after = with_defaults(fs, hunks, asked);
        let u = hunks.last();
        lemma_with_defaults(fs, hunks.drop_last(), asked);
        lemma_index_is(before, u.hunk_id);
        assert(keeps(before, after));
        assert forall|k: int| 0 <= k < hunks.len() implies has_findings(
            after,
            (#[trigger] hunks[k]).hunk_id,
        ) by {
            if k < hunks.len() - 1 {
                assert(has_findings(before, hunks.drop_last()[k].hunk_id));
                lemma_keeps_findings(before, after, hunks[k].hunk_id);
            } else {
                assert(after[index_of_hunk(before, u.hunk_id) as int].hunk_id == u.hunk_id);
            }
        }
    }
}

/// In the end every hunk has findings: those that the rules made stay as they
/// are, and no hunk that the rules said nothing of is left without.
pub proof fn law_every_hunk_has_findings(
    fs: Seq<HunkFindingsView>,
    hunks: Seq<UnclassifiedView>,
    verdicts: Option<Seq<ClassifiedView>>,
)
    requires
        none_empty(fs),
    ensures
        none_empty(settled(fs, hunks, verdicts)),
        keeps(fs, settled(fs, hunks, verdicts)),
        forall|k: int|
            0 <= k < hunks.len() ==> has_findings(
                settled(fs, hunks, verdicts),
                (#[trigger] hunks[k]).hunk_id,
            ),
{
    match verdicts {
        Some(vs) => {
            lemma_with_verdicts(fs, vs, hunks);
            lemma_with_defaults(with_verdicts(fs, vs, hunks), hunks, true);
        },
        None => {
            lemma_with_defaults(fs, hunks, false);
        },
    }
}

proof fn lemma_no_index(fs: Seq<HunkFindingsView>, more: HunkFindingsView, id: Seq<char>)
    requires
        index_of_hunk(fs, id) >= fs.len(),
        more.hunk_id != id,
    ensures
        index_of_hunk(with_findings(fs, more), id) == with_findings(fs, more).len(),
{
    lemma_index_is(fs, id);
    lemma_index_is(fs, more.hunk_id);
    let after = with_findings(fs, more);
    lemma_index_of_hunk(after, id, after.len() as int);
}

proof fn lemma_no_verdict(
    fs: Seq<HunkFindingsView>,
    verdicts: Seq<ClassifiedView>,
    hunks: Seq<UnclassifiedView>,
    id: Seq<char>,
)
    requires
        index_of_hunk(fs, id) >= fs.len(),
        forall|v: int| 0 <= v < verdicts.len() ==> (#[trigger] verdicts[v]).hunk_id != id,
    ensures
        index_of_hunk(with_verdicts(fs, verdicts, hunks), id) >= with_verdicts(
            fs,
            verdicts,
            hunks,
        ).len(),
    decreases verdicts.len(),
{
    if verdicts.len() > 0 {
        assert(verdicts[verdicts.len() - 1].hunk_id != id);
        lemma_no_verdict(fs, verdicts.drop_last(), hunks, id);
        lemma_no_index(
            with_verdicts(fs, verdicts.drop_last(), hunks),
            verdict_findings(verdicts.last(), hunks),
            id,
        );
    }
}

proof fn lemma_default_stands(
    fs: Seq<HunkFindingsView>,
    hunks: Seq<UnclassifiedView>,
    asked: bool,
    k: int,
)
    requires
        0 <= k < hunks.len(),
        index_of_hunk(fs, hunks[k].hunk_id) >= fs.len(),
    ensures
        exists|i: int|
            0 <= i < with_defaults(fs, hunks, asked).len() && (#[trigger] with_defaults(
                fs,
                hunks,
                asked,
            )[i]).hunk_id == hunks[k].hunk_id && with_defaults(fs, hunks, asked)[i].findings
                == seq![default_finding(asked)],
    decreases hunks.len(),
{
    let id = hunks[k].hunk_id;
    let shorter = hunks.drop_last();
    let before = with_defaults(fs, shorter, asked);
    let after = with_defaults(fs, hunks, asked);
    lemma_index_is(before, hunks.last().hunk_id);
    if exists|m: int| 0 <= m < shorter.len() && (#[trigger] shorter[m]).hunk_id == id {
        let m = choose|m: int| 0 <= m < shorter.len() && (#[trigger] shorter[m]).hunk_id == id;
        lemma_default_stands(fs, shorter, asked, m);
        let i = choose|i: int|
            0 <= i < before.len() && (#[trigger] before[i]).hunk_id == id && before[i].findings
                == seq![default_finding(asked)];
        assert(after[i] == before[i]);
    } else {
        if k < hunks.len() - 1 {
            assert(shorter[k].hunk_id == id);
        }
        lemma_defaults_elsewhere(fs, shorter, asked, id);
        assert(after[before.len() as int].hunk_id == id);
    }
}

proof fn lemma_defaults_elsewhere(
    fs: Seq<HunkFindingsView>,
    hunks: Seq<UnclassifiedView>,
    asked: bool,
    id: Seq<char>,
)
    requires
        index_of_hunk(fs, id) >= fs.len(),
        forall|m: int| 0 <= m < hunks.len() ==> (#[trigger] hunks[m]).hunk_id != id,
    ensures
        index_of_hunk(with_defaults(fs, hunks, asked), id) >= with_defaults(fs, hunks, asked).len(),
    decreases hunks.len(),
{
    if hunks.len() > 0 {
        let before = with_defaults(fs, hunks.drop_last(), asked);
        let after = with_defaults(fs, hunks, asked);
        assert(hunks[hunks.len() - 1].hunk_id != id);
        lemma_defaults_elsewhere(fs, hunks.drop_last(), asked, id);
        lemma_index_is(before, id);
        lemma_index_of_hunk(after, id, after.len() as int);
    }
}

/// A hunk that neither a rule nor the model says anything of is to be reviewed.
pub proof fn law_silence_means_review(
    fs: Seq<HunkFindingsView>,
    hunks: Seq<UnclassifiedView>,
    verdicts: Option<Seq<ClassifiedView>>,
    k: int,
)
    requires
        0 <= k < hunks.len(),
        forall|i: int| 0 <= i < fs.len() ==> (#[trigger] fs[i]).hunk_id != hunks[k].hunk_id,
        verdicts matches Some(vs) ==> forall|v: int|
            0 <= v < vs.len() ==> (#[trigger] vs[v]).hunk_id != hunks[k].hunk_id,
    ensures
        exists|i: int|
            0 <= i < settled(fs, hunks, verdicts).len() && (#[trigger] settled(
                fs,
                hunks,
                verdicts,
            )[i]).hunk_id == hunks[k].hunk_id && settled(fs, hunks, verdicts)[i].findings
                == seq![default_finding(verdicts is Some)],
        default_finding(verdicts is Some).level == Level::Review,
        default_finding(verdicts is Some).category == Category::LlmAssessed,
        default_finding(verdicts is Some).focus_lines is None,
        default_finding(verdicts is Some).rationale == if verdicts is Some {
            "no heuristic match and LLM declined to verdict, defaulting to review"@
        } else {
            "no heuristic match and LLM not run: defaulting to review"@
        },
{
    let id = hunks[k].hunk_id;
    lemma_index_of_hunk(fs, id, fs.len() as int);
    let asked = verdicts is Some;
    let start = match verdicts {
        Some(vs) => with_verdicts(fs, vs, hunks),
        None => fs,
    };
    match verdicts {
        Some(vs) => {
            lemma_no_verdict(fs, vs, hunks, id);
        },
        None => {},
    }
    lemma_default_stands(start, hunks, asked, k);
    let all = with_defaults(start, hunks, asked);
    let i = choose|i: int|
        0 <= i < all.len() && (#[trigger] all[i]).hunk_id == id && all[i].findings
            == seq![default_finding(asked)];
    assert(settled(fs, hunks, verdicts)[i].hunk_id == id);
}

/// Every hunk of a diff is shown: whatever the rules and the model say, there is
/// an item that points at it.
pub proof fn law_every_hunk_is_shown(
    rules: Seq<Box<dyn Classifier>>,
    cap: nat,
    files: Seq<FileDiffView>,
    verdicts: Option<Seq<ClassifiedView>>,
    id: Seq<char>,
)
    requires
        classify::all_ids(files).contains(id),
        ({
            let out = classify::run_files(rules, cap, files);
            consolidate::input_fits(settled(out.classified, out.unclassified, verdicts))
        }),
    ensures
        ({
            let out = classify::run_files(rules, cap, files);
            let items = consolidate::items_of(
                settled(out.classified, out.unclassified, verdicts),
            );
            exists|k: int|
                0 <= k < items.len() && !consolidate::new_place(
                    (#[trigger] items[k]).locations,
                    id,
                )
        }),
{
    let out = classify::run_files(rules, cap, files);
    let input = settled(out.classified, out.unclassified, verdicts);
    let items = consolidate::items_of(input);
    let cids = classify::classified_ids(out.classified);
    let uids = classify::unclassified_ids(out.unclassified);
    classify::law_every_hunk_once(rules, cap, files);
    law_every_hunk_has_findings(out.classified, out.unclassified, verdicts);
    classify::all_ids(files).to_multiset_ensures();
    (cids + uids).to_multiset_ensures();
    assert(classify::all_ids(files).to_multiset().count(id) > 0);
    assert((cids + uids).contains(id));
    let p = choose|p: int| 0 <= p < (cids + uids).len() && (cids + uids)[p] == id;
    assert(has_findings(input, id)) by {
        if p < cids.len() {
            assert(out.classified[p].hunk_id == id);
            assert(has_findings(out.classified, id));
            lemma_keeps_findings(out.classified, input, id);
        } else {
            let q = p - cids.len();
            assert(out.unclassified[q].hunk_id == id);
        }
    }
    let i = choose|i: int|
        0 <= i < input.len() && (#[trigger] input[i]).hunk_id == id && input[i].findings.len() > 0;
    consolidate::law_no_finding_is_lost(input, i, 0);
    let (k, m) = choose|k: int, m: int|
        0 <= k < items.len() && 0 <= m < items[k].findings.len() && consolidate::says_same(
            #[trigger] items[k].findings[m],
            input[i].findings[0],
        ) && !consolidate::new_place(items[k].locations, input[i].hunk_id);
    assert(!consolidate::new_place(items[k].locations, id));
}

// --- where the findings come from ----------------------------------------

/// There is an entry for this hunk that holds this finding.
pub open spec fn is_settled(all: Seq<HunkFindingsView>, id: Seq<char>, f: FindingView) -> bool {
    exists|i: int|
        0 <= i < all.len() && (#[trigger] all[i]).hunk_id == id && all[i].findings.contains(f)
}

/// The entry is one of the rules', maybe with more findings, or it is that of a
/// hunk that was asked about, in its file and at its lines.
pub open spec fn is_placed(
    e: HunkFindingsView,
    fs: Seq<HunkFindingsView>,
    hunks: Seq<UnclassifiedView>,
) -> bool {
    ||| exists|k: int|
        0 <= k < fs.len() && e.hunk_id == (#[trigger] fs[k]).hunk_id && e.file_path
            == fs[k].file_path && e.old_range == fs[k].old_range && e.new_range == fs[k].new_range
    ||| exists|k: int|
        0 <= k < hunks.len() && e.hunk_id == (#[trigger] hunks[k]).hunk_id && e.file_path
            == hunks[k].file_path && e.old_range == hunks[k].old_range && e.new_range
            == hunks[k].new_range
}

/// The finding on a hunk was made by a rule, or it is what the model says of it,
/// or it is that nothing was said of it.
pub open spec fn is_said(
    id: Seq<char>,
    f: FindingView,
    fs: Seq<HunkFindingsView>,
    hunks: Seq<UnclassifiedView>,
    vs: Seq<ClassifiedView>,
    asked: bool,
) -> bool {
    ||| exists|k: int|
        0 <= k < fs.len() && (#[trigger] fs[k]).hunk_id == id && fs[k].findings.contains(f)
    ||| exists|k: int|
        0 <= k < vs.len() && (#[trigger] vs[k]).hunk_id == id && vs[k].classification == f
    ||| {
        &&& f == default_finding(asked)
        &&& exists|k: int| 0 <= k < hunks.len() && (#[trigger] hunks[k]).hunk_id == id
        &&& forall|k: int| 0 <= k < fs.len() ==> (#[trigger] fs[k]).hunk_id != id
        &&& forall|k: int| 0 <= k < vs.len() ==> (#[trigger] vs[k]).hunk_id != id
    }
}

/// The verdict is on one of the hunks that were asked about, in its file and at
/// its lines.
pub open spec fn verdict_fits(v: ClassifiedView, hunks: Seq<UnclassifiedView>) -> bool {
    exists|k: int|
        0 <= k < hunks.len() && (#[trigger] hunks[k]).hunk_id == v.hunk_id && hunks[k].file_path
            == v.file_path && hunks[k].new_range == v.new_range
}

/// No two hunks have the same identifier.
pub open spec fn hunks_differ(hunks: Seq<UnclassifiedView>) -> bool {
    forall|i: int, j: int|
        0 <= i < j < hunks.len() ==> (#[trigger] hunks[i]).hunk_id != (#[trigger] hunks[j]).hunk_id
}

/// Every entry is one of the rules' or that of a hunk that was asked about.
pub open spec fn all_placed(
    all: Seq<HunkFindingsView>,
    fs: Seq<HunkFindingsView>,
    hunks: Seq<UnclassifiedView>,
) -> bool {
    forall|i: int| 0 <= i < all.len() ==> is_placed(#[trigger] all[i], fs, hunks)
}

/// Every finding is one of the rules' or of the model's, or that nothing was
/// said.
pub open spec fn all_said(
    all: Seq<HunkFindingsView>,
    fs: Seq<HunkFindingsView>,
    hunks: Seq<UnclassifiedView>,
    vs: Seq<ClassifiedView>,
    asked: bool,
) -> bool {
    forall|i: int, g: FindingView|
        0 <= i < all.len() && #[trigger] all[i].findings.contains(g) ==> is_said(
            all[i].hunk_id,
            g,
            fs,
            hunks,
            vs,
            asked,
        )
}

proof fn lemma_asked_hunk(hunks: Seq<UnclassifiedView>, k: int)
    requires
        0 <= k < hunks.len(),
        hunks_differ(hunks),
    ensures
        llm::hunk_with_id(hunks, hunks[k].hunk_id) == Some(hunks[k]),
    decreases hunks.len(),
{
    if k < hunks.len() - 1 {
        assert(hunks[k].hunk_id != hunks[hunks.len() - 1].hunk_id);
        let rest = hunks.drop_last();
        assert forall|i: int, j: int| 0 <= i < j < rest.len() implies (#[trigger] rest[i]).hunk_id
            != (#[trigger] rest[j]).hunk_id by {
            assert(hunks[i].hunk_id != hunks[j].hunk_id);
        }
        lemma_asked_hunk(rest, k);
    }
}

proof fn lemma_verdict_step(
    fs: Seq<HunkFindingsView>,
    vs: Seq<ClassifiedView>,
    hunks: Seq<UnclassifiedView>,
    before: Seq<HunkFindingsView>,
    n: int,
)
    requires
        0 <= n < vs.len(),
        verdict_fits(vs[n], hunks),
        hunks_differ(hunks),
        all_placed(before, fs, hunks),
        all_said(before, fs, hunks, vs, true),
    ensures
        ({
            let all = with_findings(before, verdict_findings(vs[n], hunks));
            &&& all_placed(all, fs, hunks)
            &&& all_said(all, fs, hunks, vs, true)
            &&& keeps(before, all)
            &&& is_settled(all, vs[n].hunk_id, vs[n].classification)
        }),
{
    let v = vs[n];
    let more = verdict_findings(v, hunks);
    let all = with_findings(before, more);
    let at = index_of_hunk(before, v.hunk_id) as int;
    lemma_index_is(before, v.hunk_id);
    let h = choose|k: int|
        0 <= k < hunks.len() && (#[trigger] hunks[k]).hunk_id == v.hunk_id && hunks[k].file_path
            == v.file_path && hunks[k].new_range == v.new_range;
    lemma_asked_hunk(hunks, h);
    assert forall|i: int| 0 <= i < all.len() implies is_placed(#[trigger] all[i], fs, hunks) by {
        if i < before.len() {
            assert(is_placed(before[i], fs, hunks));
        } else {
            assert(all[i] == more);
            assert(hunks[h].hunk_id == more.hunk_id);
        }
    }
    assert forall|i: int, g: FindingView|
        0 <= i < all.len() && #[trigger] all[i].findings.contains(g) implies is_said(
        all[i].hunk_id,
        g,
        fs,
        hunks,
        vs,
        true,
    ) by {
        if i < before.len() && before[i].findings.contains(g) {
            assert(is_said(before[i].hunk_id, g, fs, hunks, vs, true));
        } else {
            let j = choose|j: int| 0 <= j < all[i].findings.len() && all[i].findings[j] == g;
            if i < before.len() && j < before[i].findings.len() {
                assert(before[i].findings[j] == g);
            }
            assert(i == at);
            assert(g == v.classification);
            assert(vs[n].hunk_id == all[i].hunk_id);
        }
    }
    assert(all[at].hunk_id == v.hunk_id);
    if at < before.len() {
        assert(all[at].findings[before[at].findings.len() as int] == v.classification);
    } else {
        assert(all[at].findings[0] == v.classification);
    }
}

proof fn lemma_settled_stays(
    before: Seq<HunkFindingsView>,
    all: Seq<HunkFindingsView>,
    id: Seq<char>,
    f: FindingView,
)
    requires
        keeps(before, all),
        is_settled(before, id, f),
    ensures
        is_settled(all, id, f),
{
    let i = choose|i: int|
        0 <= i < before.len() && (#[trigger] before[i]).hunk_id == id && before[i].findings.contains(
            f,
        );
    let j = before[i].findings.index_of(f);
    assert(all[i].hunk_id == before[i].hunk_id);
    assert(all[i].findings[j] == before[i].findings[j]);
}

proof fn lemma_keeps_both(
    a: Seq<HunkFindingsView>,
    b: Seq<HunkFindingsView>,
    c: Seq<HunkFindingsView>,
)
    requires
        keeps(a, b),
        keeps(b, c),
    ensures
        keeps(a, c),
{
    assert forall|i: int| 0 <= i < a.len() implies (#[trigger] c[i]).hunk_id == a[i].hunk_id
        && c[i].file_path == a[i].file_path && c[i].old_range == a[i].old_range && c[i].new_range
        == a[i].new_range && a[i].findings.is_prefix_of(c[i].findings) by {
        assert(b[i].hunk_id == a[i].hunk_id);
        assert(a[i].findings =~= c[i].findings.subrange(0, a[i].findings.len() as int));
    }
}

proof fn lemma_verdicts_sound(
    fs: Seq<HunkFindingsView>,
    vs: Seq<ClassifiedView>,
    hunks: Seq<UnclassifiedView>,
    n: int,
)
    requires
        forall|v: int| 0 <= v < vs.len() ==> verdict_fits(#[trigger] vs[v], hunks),
        hunks_differ(hunks),
        0 <= n <= vs.len(),
    ensures
        ({
            let all = with_verdicts(fs, vs.take(n), hunks);
            &&& all_placed(all, fs, hunks)
            &&& all_said(all, fs, hunks, vs, true)
            &&& keeps(fs, all)
            &&& forall|k: int|
                0 <= k < n ==> is_settled(all, (#[trigger] vs[k]).hunk_id, vs[k].classification)
        }),
    decreases n,
{
    let all = with_verdicts(fs, vs.take(n), hunks);
    if n == 0 {
        lemma_rules_sound(fs, hunks, vs, true);
    } else {
        lemma_verdicts_sound(fs, vs, hunks, n - 1);
        let before = with_verdicts(fs, vs.take(n - 1), hunks);
        assert(vs.take(n).drop_last() =~= vs.take(n - 1));
        assert(vs.take(n).last() == vs[n - 1]);
        lemma_verdict_step(fs, vs, hunks, before, n - 1);
        lemma_keeps_both(fs, before, all);
        assert forall|k: int| 0 <= k < n implies is_settled(
            all,
            (#[trigger] vs[k]).hunk_id,
            vs[k].classification,
        ) by {
            if k < n - 1 {
                lemma_settled_stays(before, all, vs[k].hunk_id, vs[k].classification);
            }
        }
    }
}

proof fn lemma_rules_sound(
    fs: Seq<HunkFindingsView>,
    hunks: Seq<UnclassifiedView>,
    vs: Seq<ClassifiedView>,
    asked: bool,
)
    ensures
        all_placed(fs, fs, hunks),
        all_said(fs, fs, hunks, vs, asked),
        keeps(fs, fs),
{
    assert forall|i: int| 0 <= i < fs.len() implies is_placed(#[trigger] fs[i], fs, hunks) by {
        assert(fs[i].hunk_id == fs[i].hunk_id);
    }
}

proof fn lemma_defaults_sound(
    start: Seq<HunkFindingsView>,
    hunks: Seq<UnclassifiedView>,
    asked: bool,
    n: int,
)
    requires
        0 <= n <= hunks.len(),
    ensures
        ({
            let all = with_defaults(start, hunks.take(n), asked);
            &&& start.len() <= all.len()
            &&& forall|i: int| 0 <= i < start.len() ==> #[trigger] all[i] == start[i]
            &&& forall|i: int|
                start.len() <= i < all.len() ==> {
                    &&& exists|k: int|
                        0 <= k < hunks.len() && #[trigger] all[i] == default_findings(
                            #[trigger] hunks[k],
                            asked,
                        )
                    &&& forall|j: int|
                        0 <= j < start.len() ==> (#[trigger] start[j]).hunk_id != all[i].hunk_id
                }
        }),
    decreases n,
{
    let all = with_defaults(start, hunks.take(n), asked);
    if n > 0 {
        lemma_defaults_sound(start, hunks, asked, n - 1);
        let before = with_defaults(start, hunks.take(n - 1), asked);
        assert(hunks.take(n).drop_last() =~= hunks.take(n - 1));
        assert(hunks.take(n).last() == hunks[n - 1]);
        lemma_index_is(before, hunks[n - 1].hunk_id);
        assert forall|i: int| start.len() <= i < all.len() implies {
            &&& exists|k: int|
                0 <= k < hunks.len() && #[trigger] all[i] == default_findings(
                    #[trigger] hunks[k],
                    asked,
                )
            &&& forall|j: int|
                0 <= j < start.len() ==> (#[trigger] start[j]).hunk_id != all[i].hunk_id
        } by {
            if i < before.len() {
                assert(all[i] == before[i]);
            } else {
                assert(all[i] == default_findings(hunks[n - 1], asked));
                assert forall|j: int| 0 <= j < start.len() implies (#[trigger] start[j]).hunk_id
                    != all[i].hunk_id by {
                    assert(before[j] == start[j]);
                    assert(before[j].hunk_id != hunks[n - 1].hunk_id);
                }
            }
        }
    }
}

proof fn lemma_settled_sound(
    fs: Seq<HunkFindingsView>,
    hunks: Seq<UnclassifiedView>,
    vs: Seq<ClassifiedView>,
    start: Seq<HunkFindingsView>,
    asked: bool,
)
    requires
        all_placed(start, fs, hunks),
        all_said(start, fs, hunks, vs, asked),
        keeps(fs, start),
        forall|k: int|
            0 <= k < vs.len() ==> is_settled(
                start,
                (#[trigger] vs[k]).hunk_id,
                vs[k].classification,
            ),
    ensures
        ({
            let all = with_defaults(start, hunks, asked);
            &&& all_placed(all, fs, hunks)
            &&& all_said(all, fs, hunks, vs, asked)
            &&& forall|i: int| 0 <= i < start.len() ==> #[trigger] all[i] == start[i]
            &&& start.len() <= all.len()
        }),
{
    let all = with_defaults(start, hunks, asked);
    assert(hunks.take(hunks.len() as int) =~= hunks);
    lemma_defaults_sound(start, hunks, asked, hunks.len() as int);
    assert forall|i: int| 0 <= i < all.len() implies is_placed(#[trigger] all[i], fs, hunks) by {
        if i < start.len() {
            assert(all[i] == start[i]);
        } else {
            let k = choose|k: int|
                0 <= k < hunks.len() && all[i] == default_findings(#[trigger] hunks[k], asked);
            assert(all[i].hunk_id == hunks[k].hunk_id);
        }
    }
    assert forall|i: int, g: FindingView|
        0 <= i < all.len() && #[trigger] all[i].findings.contains(g) implies is_said(
        all[i].hunk_id,
        g,
        fs,
        hunks,
        vs,
        asked,
    ) by {
        if i < start.len() {
            assert(all[i] == start[i]);
            assert(start[i].findings.contains(g));
        } else {
            let k = choose|k: int|
                0 <= k < hunks.len() && all[i] == default_findings(#[trigger] hunks[k], asked);
            let id = all[i].hunk_id;
            assert(hunks[k].hunk_id == id);
            assert(g == default_finding(asked));
            assert forall|k: int| 0 <= k < fs.len() implies (#[trigger] fs[k]).hunk_id != id by {
                assert(start[k].hunk_id == fs[k].hunk_id);
                assert(start[k].hunk_id != id);
            }
            assert forall|k: int| 0 <= k < vs.len() implies (#[trigger] vs[k]).hunk_id != id by {
                assert(is_settled(start, vs[k].hunk_id, vs[k].classification));
                let j = choose|j: int|
                    0 <= j < start.len() && (#[trigger] start[j]).hunk_id == vs[k].hunk_id
                        && start[j].findings.contains(vs[k].classification);
                assert(start[j].hunk_id != id);
            }
        }
    }
}

/// Whatever the model says of a hunk is among the findings on it in the end.
/// Every finding is one of the rules' or of the model's on its hunk, or it is
/// that nothing was said of a hunk of which that is true. Every entry is in the
/// file and at the lines of its hunk.
pub proof fn law_findings_come_from_rules_and_model(
    fs: Seq<HunkFindingsView>,
    hunks: Seq<UnclassifiedView>,
    vs: Seq<ClassifiedView>,
)
    requires
        forall|v: int| 0 <= v < vs.len() ==> verdict_fits(#[trigger] vs[v], hunks),
        hunks_differ(hunks),
    ensures
        ({
            let all = settled(fs, hunks, Some(vs));
            &&& forall|k: int|
                0 <= k < vs.len() ==> is_settled(
                    all,
                    (#[trigger] vs[k]).hunk_id,
                    vs[k].classification,
                )
            &&& all_placed(all, fs, hunks)
            &&& all_said(all, fs, hunks, vs, true)
        }),
{
    let all = settled(fs, hunks, Some(vs));
    let start = with_verdicts(fs, vs, hunks);
    let n = vs.len() as int;
    assert(vs.take(n) =~= vs);
    lemma_verdicts_sound(fs, vs, hunks, n);
    lemma_settled_sound(fs, hunks, vs, start, true);
    assert forall|k: int| 0 <= k < vs.len() implies is_settled(
        all,
        (#[trigger] vs[k]).hunk_id,
        vs[k].classification,
    ) by {
        assert(is_settled(start, vs[k].hunk_id, vs[k].classification));
        let i = choose|i: int|
            0 <= i < start.len() && (#[trigger] start[i]).hunk_id == vs[k].hunk_id
                && start[i].findings.contains(vs[k].classification);
        assert(all[i] == start[i]);
    }
}

/// Where no model is asked, every finding is one of the rules', or that nothing
/// was said of a hunk that the rules leave over.
pub proof fn law_findings_come_from_rules(fs: Seq<HunkFindingsView>, hunks: Seq<UnclassifiedView>)
    ensures
        all_placed(settled(fs, hunks, None), fs, hunks),
        all_said(settled(fs, hunks, None), fs, hunks, Seq::empty(), false),
{
    lemma_rules_sound(fs, hunks, Seq::empty(), false);
    lemma_settled_sound(fs, hunks, Seq::empty(), fs, false);
}

// --- what the command line decides ---------------------------------------

/// A format that is asked for is used, wherever the report goes. Else a comment
/// is markdown, what a terminal shows is plain, and all else is JSON.
pub proof fn law_formats(args: ReviewArgs, is_tty: bool)
    ensures
        args.format == FormatChoice::Human ==> format_of(args, is_tty) == Format::Human,
        args.format == FormatChoice::Markdown ==> format_of(args, is_tty) == Format::Markdown,
        args.format == FormatChoice::Json ==> format_of(args, is_tty) == Format::Json,
        args.format == FormatChoice::Auto && args.post_comment ==> format_of(args, is_tty)
            == Format::Markdown,
        args.format == FormatChoice::Auto && !args.post_comment ==> (format_of(args, is_tty)
            == Format::Human <==> is_tty) && (format_of(args, is_tty) == Format::Json <==> !is_tty),
{
}

/// Colors are used where they are asked for and not where they are forbidden,
/// whatever the terminal; else on a terminal alone, and not where the environment
/// forbids them.
pub proof fn law_colors(args: ReviewArgs, is_tty: bool, no_color: bool)
    ensures
        args.color == ColorChoice::Always ==> color_of(args, is_tty, no_color),
        args.color == ColorChoice::Never ==> !color_of(args, is_tty, no_color),
        args.color == ColorChoice::Auto ==> (color_of(args, is_tty, no_color) <==> is_tty
            && !no_color),
{
}

/// What the command line says of the pull request goes before what the event
/// says. The pull request is known exactly where its owner, its repository and its
/// number are, from the one or the other.
pub proof fn law_pull_request(args: ReviewArgs, event: Option<PrEventView>)
    ensures
        repo_ref_of(args, event) is Some <==> {
            &&& args.owner is Some || event is Some
            &&& args.repo_name is Some || event is Some
            &&& args.pr is Some || event is Some
        },
        repo_ref_of(args, event) matches Some(r) ==> {
            &&& args.owner matches Some(o) ==> r.owner == o@
            &&& args.owner is None ==> r.owner == event.unwrap().owner
            &&& args.repo_name matches Some(n) ==> r.repo == n@
            &&& args.repo_name is None ==> r.repo == event.unwrap().repo
            &&& args.pr matches Some(n) ==> r.pr == n
            &&& args.pr is None ==> r.pr == event.unwrap().pr_number
            &&& r.host == "https://github.com"@
        },
{
}

/// The revisions on the command line go before those of the event; `HEAD` stands
/// for the head of the pull request where there is one. The event is read exactly
/// where something is left out.
pub proof fn law_revisions(args: ReviewArgs, event: Option<PrEventView>)
    ensures
        args.base matches Some(b) ==> base_of(args, event) == Some(b@),
        args.base is None ==> (base_of(args, event) is Some <==> event is Some),
        args.base is None && event is Some ==> base_of(args, event) == Some(
            event.unwrap().base_sha,
        ),
        args.head@ != "HEAD"@ || event is None ==> head_of(args, event) == args.head@,
        args.head@ == "HEAD"@ && event is Some ==> head_of(args, event) == event.unwrap().head_sha,
        !leaves_out(args) <==> args.base is Some && args.owner is Some && args.repo_name is Some
            && args.pr is Some,
{
}

/// What the command line says of the model goes before what the configuration
/// says; the address of the API is that of the configuration, or else the usual
/// one.
pub proof fn law_flags_go_first(a: Option<String>, b: Option<String>, config: Config)
    ensures
        a matches Some(x) ==> either(a, b) == Some(x@),
        a is None ==> either(a, b) == text::opt_view(b),
        config.github.base_url matches Some(u) ==> api_url_of(config) == u@,
        config.github.base_url is None ==> api_url_of(config) == "https://api.github.com"@,
{
}

// --- no finding is doubled -----------------------------------------------

/// How many findings there are on all hunks.
pub open spec fn how_many(fs: Seq<HunkFindingsView>) -> nat
    decreases fs.len(),
{
    if fs.len() == 0 {
        0
    } else {
        how_many(fs.drop_last()) + fs.last().findings.len()
    }
}

/// Tells the hunks of which neither the rules nor the model say anything.
pub open spec fn unsaid(fs: Seq<HunkFindingsView>, vs: Seq<ClassifiedView>) -> spec_fn(
    UnclassifiedView,
) -> bool {
    |u: UnclassifiedView|
        {
            &&& forall|k: int| 0 <= k < fs.len() ==> (#[trigger] fs[k]).hunk_id != u.hunk_id
            &&& forall|k: int| 0 <= k < vs.len() ==> (#[trigger] vs[k]).hunk_id != u.hunk_id
        }
}

proof fn lemma_how_many_update(fs: Seq<HunkFindingsView>, i: int, e: HunkFindingsView)
    requires
        0 <= i < fs.len(),
    ensures
        how_many(fs.update(i, e)) + fs[i].findings.len() == how_many(fs) + e.findings.len(),
    decreases fs.len(),
{
    let after = fs.update(i, e);
    if i < fs.len() - 1 {
        lemma_how_many_update(fs.drop_last(), i, e);
        assert(after.drop_last() =~= fs.drop_last().update(i, e));
    } else {
        assert(after.drop_last() =~= fs.drop_last());
    }
}

proof fn lemma_how_many_with(fs: Seq<HunkFindingsView>, more: HunkFindingsView)
    ensures
        how_many(with_findings(fs, more)) == how_many(fs) + more.findings.len(),
{
    lemma_index_is(fs, more.hunk_id);
    let i = index_of_hunk(fs, more.hunk_id) as int;
    if i < fs.len() {
        lemma_how_many_update(
            fs,
            i,
            HunkFindingsView { findings: fs[i].findings + more.findings, ..fs[i] },
        );
    } else {
        assert(fs.push(more).drop_last() =~= fs);
    }
}

proof fn lemma_how_many_verdicts(
    fs: Seq<HunkFindingsView>,
    vs: Seq<ClassifiedView>,
    hunks: Seq<UnclassifiedView>,
)
    ensures
        how_many(with_verdicts(fs, vs, hunks)) == how_many(fs) + vs.len(),
    decreases vs.len(),
{
    if vs.len() > 0 {
        let rest = vs.drop_last();
        lemma_how_many_verdicts(fs, rest, hunks);
        lemma_how_many_with(with_verdicts(fs, rest, hunks), verdict_findings(vs.last(), hunks));
    }
}

/// One of the entries is for this hunk.
pub open spec fn has_entry(fs: Seq<HunkFindingsView>, id: Seq<char>) -> bool {
    exists|k: int| 0 <= k < fs.len() && (#[trigger] fs[k]).hunk_id == id
}

proof fn lemma_entries(
    fs: Seq<HunkFindingsView>,
    vs: Seq<ClassifiedView>,
    hunks: Seq<UnclassifiedView>,
    id: Seq<char>,
)
    ensures
        has_entry(with_verdicts(fs, vs, hunks), id) <==> has_entry(fs, id) || is_answered(vs, id),
    decreases vs.len(),
{
    if vs.len() > 0 {
        let all = with_verdicts(fs, vs, hunks);
        let rest = vs.drop_last();
        let before = with_verdicts(fs, rest, hunks);
        let v = vs.last();
        lemma_entries(fs, rest, hunks, id);
        lemma_index_is(before, v.hunk_id);
        let at = index_of_hunk(before, v.hunk_id) as int;
        assert(all[at].hunk_id == v.hunk_id);
        if is_answered(vs, id) {
            let k = choose|k: int| 0 <= k < vs.len() && (#[trigger] vs[k]).hunk_id == id;
            if k < rest.len() {
                assert(rest[k].hunk_id == id);
            }
        }
        if is_answered(rest, id) {
            let k = choose|k: int| 0 <= k < rest.len() && (#[trigger] rest[k]).hunk_id == id;
            assert(vs[k].hunk_id == id);
        }
        if v.hunk_id == id {
            assert(vs[vs.len() - 1].hunk_id == id);
        }
        if has_entry(all, id) {
            let k = choose|k: int| 0 <= k < all.len() && (#[trigger] all[k]).hunk_id == id;
            if k < before.len() {
                assert(before[k].hunk_id == id);
            }
        }
        if has_entry(before, id) {
            let k = choose|k: int| 0 <= k < before.len() && (#[trigger] before[k]).hunk_id == id;
            assert(all[k].hunk_id == id);
        }
    }
}

/// One of the verdicts is on this hunk.
pub open spec fn is_answered(vs: Seq<ClassifiedView>, id: Seq<char>) -> bool {
    exists|k: int| 0 <= k < vs.len() && (#[trigger] vs[k]).hunk_id == id
}

proof fn lemma_how_many_defaults(
    start: Seq<HunkFindingsView>,
    hunks: Seq<UnclassifiedView>,
    asked: bool,
    test: spec_fn(UnclassifiedView) -> bool,
)
    requires
        hunks_differ(hunks),
        forall|u: UnclassifiedView|
            #[trigger] test(u) <==> forall|k: int|
                0 <= k < start.len() ==> (#[trigger] start[k]).hunk_id != u.hunk_id,
    ensures
        how_many(with_defaults(start, hunks, asked)) == how_many(start) + hunks.filter(test).len(),
        with_defaults(start, hunks, asked).len() == start.len() + hunks.filter(test).len(),
    decreases hunks.len(),
{
    reveal(Seq::filter);
    if hunks.len() > 0 {
        let rest = hunks.drop_last();
        let u = hunks.last();
        let before = with_defaults(start, rest, asked);
        let all = with_defaults(start, hunks, asked);
        assert forall|i: int, j: int| 0 <= i < j < rest.len() implies (#[trigger] rest[i]).hunk_id
            != (#[trigger] rest[j]).hunk_id by {
            assert(hunks[i].hunk_id != hunks[j].hunk_id);
        }
        lemma_how_many_defaults(start, rest, asked, test);
        assert(rest.take(rest.len() as int) =~= rest);
        lemma_defaults_sound(start, rest, asked, rest.len() as int);
        lemma_index_is(before, u.hunk_id);
        let at = index_of_hunk(before, u.hunk_id) as int;
        if at < before.len() {
            if at >= start.len() {
                let k = choose|k: int|
                    0 <= k < rest.len() && before[at] == default_findings(#[trigger] rest[k], asked);
                assert(hunks[k].hunk_id == u.hunk_id);
                assert(hunks[k].hunk_id != hunks[hunks.len() - 1].hunk_id);
            }
            assert(start[at].hunk_id == u.hunk_id);
            assert(!test(u));
        } else {
            assert forall|k: int| 0 <= k < start.len() implies (#[trigger] start[k]).hunk_id
                != u.hunk_id by {
                assert(before[k] == start[k]);
                assert(before[k].hunk_id != u.hunk_id);
            }
            assert(test(u));
            assert(all.drop_last() =~= before);
        }
    }
}

/// There are as many findings in the end as the rules and the model make, and one
/// for each hunk of which neither says anything.
pub proof fn law_findings_are_counted(
    fs: Seq<HunkFindingsView>,
    hunks: Seq<UnclassifiedView>,
    vs: Seq<ClassifiedView>,
)
    requires
        hunks_differ(hunks),
    ensures
        how_many(settled(fs, hunks, Some(vs))) == how_many(fs) + vs.len() + hunks.filter(
            unsaid(fs, vs),
        ).len(),
        how_many(settled(fs, hunks, None)) == how_many(fs) + hunks.filter(
            unsaid(fs, Seq::empty()),
        ).len(),
{
    let start = with_verdicts(fs, vs, hunks);
    lemma_how_many_verdicts(fs, vs, hunks);
    assert forall|u: UnclassifiedView| #[trigger]
        unsaid(fs, vs)(u) <==> forall|k: int|
            0 <= k < start.len() ==> (#[trigger] start[k]).hunk_id != u.hunk_id by {
        lemma_entries(fs, vs, hunks, u.hunk_id);
        if unsaid(fs, vs)(u) {
            assert(!has_entry(fs, u.hunk_id) && !is_answered(vs, u.hunk_id));
            assert(!has_entry(start, u.hunk_id));
        } else {
            assert(has_entry(fs, u.hunk_id) || is_answered(vs, u.hunk_id));
            assert(has_entry(start, u.hunk_id));
        }
    }
    lemma_how_many_defaults(start, hunks, true, unsaid(fs, vs));
    let none = Seq::<ClassifiedView>::empty();
    assert forall|u: UnclassifiedView| #[trigger]
        unsaid(fs, none)(u) <==> forall|k: int|
            0 <= k < fs.len() ==> (#[trigger] fs[k]).hunk_id != u.hunk_id by {}
    lemma_how_many_defaults(fs, hunks, false, unsaid(fs, none));
}

} // verus!
