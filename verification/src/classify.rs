//! Classification core: findings, the `Classifier` trait, and the pipeline.
use vstd::prelude::*;

use crate::classifiers;
use crate::classifiers::comment_only;
use crate::classifiers::control_flow;
use crate::classifiers::error_handling;
use crate::classifiers::generated;
use crate::classifiers::generated::GlobError;
use crate::classifiers::import_reorder;
use crate::classifiers::lockfile;
use crate::classifiers::numerical_calc;
use crate::classifiers::public_api;
use crate::classifiers::{
    CommentOnly, ControlFlow, ErrorHandlingDeleted, Generated, ImportReorder, Lockfile,
    NumericalCalc, PublicApi,
};
use crate::consolidate;
use crate::diff::{Diff, FileDiff, FileDiffView, Hunk, HunkId, HunkView, LineRange};
use crate::lang::Language;
use crate::order;
use crate::text;

verus! {

/// How much attention a reader owes a change.
#[derive(Clone, Copy, Debug, PartialEq, Eq, PartialOrd, Ord, Structural)]
pub enum Level {
    Skip,
    Skim,
    Review,
}

/// Where a level stands: `Review` is above `Skim`, `Skim` above `Skip`.
pub open spec fn rank(level: Level) -> int {
    match level {
        Level::Skip => 0,
        Level::Skim => 1,
        Level::Review => 2,
    }
}

/// The higher of two levels.
pub open spec fn higher(a: Level, b: Level) -> Level {
    if rank(a) >= rank(b) {
        a
    } else {
        b
    }
}

impl Level {
    /// The higher of two levels.
    pub fn max(self, other: Level) -> (r: Level)
        ensures
            r == higher(self, other),
    {
        match (self, other) {
            (Level::Review, _) => self,
            (_, Level::Review) => other,
            (Level::Skim, _) => self,
            (_, Level::Skim) => other,
            _ => self,
        }
    }
}

/// What kind of change a finding is about.
#[derive(Clone, Copy, Debug, PartialEq, Eq, PartialOrd, Ord, Structural)]
pub enum Category {
    // Mechanical noise.
    Generated,
    Lockfile,
    FormatterOnly,
    CommentOnly,
    ImportReorder,
    PureRename,
    TestFixture,
    // Load-bearing.
    PublicApiChange,
    ControlFlow,
    ErrorHandlingDeleted,
    NumericalCalc,
    LargeChange,
    // Any level, by a model.
    LlmAssessed,
}

/// Who made a finding.
#[derive(Debug)]
pub enum Source {
    Heuristic { name: String },
    Llm { provider: String, model: String },
}

pub enum SourceView {
    Heuristic { name: Seq<char> },
    Llm { provider: Seq<char>, model: Seq<char> },
}

impl View for Source {
    type V = SourceView;

    open spec fn view(&self) -> SourceView {
        match self {
            Source::Heuristic { name } => SourceView::Heuristic { name: name@ },
            Source::Llm { provider, model } => SourceView::Llm {
                provider: provider@,
                model: model@,
            },
        }
    }
}

impl Clone for Source {
    fn clone(&self) -> (r: Self)
        ensures
            r@ == self@,
    {
        match self {
            Source::Heuristic { name } => Source::Heuristic { name: name.clone() },
            Source::Llm { provider, model } => Source::Llm {
                provider: provider.clone(),
                model: model.clone(),
            },
        }
    }
}

/// A side of a diff: the file before or after the change.
#[derive(Clone, Copy, Debug, PartialEq, Eq, Structural)]
pub enum Side {
    Old,
    New,
}

/// The lines of a hunk that a finding is about, from `start` to `end`, both
/// among them. The numbers are those of the file on `side`.
#[derive(Clone, Copy, Debug, PartialEq, Eq, Structural)]
pub struct FocusLines {
    pub start: u32,
    pub end: u32,
    pub side: Side,
}

/// One verdict on a region of a hunk. A hunk may have many.
#[derive(Debug)]
pub struct Finding {
    pub level: Level,
    pub category: Category,
    pub rationale: String,
    pub source: Source,
    pub focus_lines: Option<FocusLines>,
}

/// The verdict of a rule that makes at most one on a hunk.
pub type Classification = Finding;

#[verifier::ext_equal]
pub struct FindingView {
    pub level: Level,
    pub category: Category,
    pub rationale: Seq<char>,
    pub source: SourceView,
    pub focus_lines: Option<FocusLines>,
}

impl View for Finding {
    type V = FindingView;

    open spec fn view(&self) -> FindingView {
        FindingView {
            level: self.level,
            category: self.category,
            rationale: self.rationale@,
            source: self.source@,
            focus_lines: self.focus_lines,
        }
    }
}

impl Clone for Finding {
    fn clone(&self) -> (r: Self)
        ensures
            r@ == self@,
    {
        Finding {
            level: self.level,
            category: self.category,
            rationale: self.rationale.clone(),
            source: self.source.clone(),
            focus_lines: self.focus_lines,
        }
    }
}

/// The findings on one hunk.
#[derive(Debug)]
pub struct HunkFindings {
    pub hunk_id: HunkId,
    pub file_path: String,
    pub old_range: LineRange,
    pub new_range: LineRange,
    pub findings: Vec<Finding>,
}

#[verifier::ext_equal]
pub struct HunkFindingsView {
    pub hunk_id: Seq<char>,
    pub file_path: Seq<char>,
    pub old_range: LineRange,
    pub new_range: LineRange,
    pub findings: Seq<FindingView>,
}

impl View for HunkFindings {
    type V = HunkFindingsView;

    open spec fn view(&self) -> HunkFindingsView {
        HunkFindingsView {
            hunk_id: self.hunk_id@,
            file_path: self.file_path@,
            old_range: self.old_range,
            new_range: self.new_range,
            findings: text::views(self.findings@),
        }
    }
}

impl Clone for HunkFindings {
    fn clone(&self) -> (r: Self)
        ensures
            r@ == self@,
    {
        HunkFindings {
            hunk_id: self.hunk_id.clone(),
            file_path: self.file_path.clone(),
            old_range: self.old_range,
            new_range: self.new_range,
            findings: consolidate::clone_findings(&self.findings),
        }
    }
}

/// One classification of one hunk.
#[derive(Debug)]
pub struct Classified {
    pub hunk_id: HunkId,
    pub file_path: String,
    pub new_range: LineRange,
    pub classification: Classification,
}

#[verifier::ext_equal]
pub struct ClassifiedView {
    pub hunk_id: Seq<char>,
    pub file_path: Seq<char>,
    pub new_range: LineRange,
    pub classification: FindingView,
}

impl View for Classified {
    type V = ClassifiedView;

    open spec fn view(&self) -> ClassifiedView {
        ClassifiedView {
            hunk_id: self.hunk_id@,
            file_path: self.file_path@,
            new_range: self.new_range,
            classification: self.classification@,
        }
    }
}

/// A hunk that no rule made a finding on.
#[derive(Debug)]
pub struct Unclassified {
    pub hunk_id: HunkId,
    pub file_path: String,
    pub language: Option<Language>,
    pub old_range: LineRange,
    pub new_range: LineRange,
    pub old_lines: Vec<String>,
    pub new_lines: Vec<String>,
}

#[verifier::ext_equal]
pub struct UnclassifiedView {
    pub hunk_id: Seq<char>,
    pub file_path: Seq<char>,
    pub language: Option<Language>,
    pub old_range: LineRange,
    pub new_range: LineRange,
    pub old_lines: Seq<Seq<char>>,
    pub new_lines: Seq<Seq<char>>,
}

impl View for Unclassified {
    type V = UnclassifiedView;

    open spec fn view(&self) -> UnclassifiedView {
        UnclassifiedView {
            hunk_id: self.hunk_id@,
            file_path: self.file_path@,
            language: self.language,
            old_range: self.old_range,
            new_range: self.new_range,
            old_lines: text::views(self.old_lines@),
            new_lines: text::views(self.new_lines@),
        }
    }
}

impl Clone for Unclassified {
    fn clone(&self) -> (r: Self)
        ensures
            r@ == self@,
    {
        Unclassified {
            hunk_id: self.hunk_id.clone(),
            file_path: self.file_path.clone(),
            language: self.language,
            old_range: self.old_range,
            new_range: self.new_range,
            old_lines: text::clone_all(&self.old_lines),
            new_lines: text::clone_all(&self.new_lines),
        }
    }
}

/// A single deterministic classification rule.
///
/// It returns every finding it makes on the hunk; none means that it makes no
/// claim. The pipeline collects the findings of all rules.
pub trait Classifier: Send + Sync {
    /// The rule's name.
    open spec fn label(&self) -> Seq<char> {
        arbitrary()
    }

    /// The rule's place in the order of rules.
    open spec fn place(&self) -> int {
        arbitrary()
    }

    /// The findings on the hunk of the file.
    open spec fn verdict(&self, file: FileDiffView, hunk: HunkView) -> Seq<FindingView> {
        arbitrary()
    }

    /// What the rule makes of the file it is handed.
    open spec fn effect(&self, file: FileDiffView, hunk: HunkView) -> FileDiffView {
        file
    }

    /// Stable identifier of the rule.
    fn name(&self) -> (r: &'static str)
        ensures
            r@ == self.label(),
    ;

    /// Lower values run first. By path: 0 to 99. By syntax: 100 to 199. By
    /// size: 200 and above.
    fn priority(&self) -> (r: i32)
        ensures
            r == self.place(),
    ;

    /// The findings of the rule on the hunk.
    fn classify(&self, file: &mut FileDiff, hunk: &Hunk) -> (r: Vec<Finding>)
        ensures
            text::views(r@) == self.verdict(old(file)@, hunk@),
            final(file)@ == self.effect(old(file)@, hunk@),
    ;
}

/// What the standard pipeline is built from.
#[derive(Debug)]
pub struct PipelineConfig {
    pub generated_globs: Vec<String>,
    pub generated_paths: Vec<String>,
    pub lockfile_names: Vec<String>,
    /// How many findings any one rule may make on a hunk.
    pub max_findings_per_classifier: usize,
}

impl Default for PipelineConfig {
    fn default() -> (r: Self)
        ensures
            r.generated_globs@.len() == 0,
            r.generated_paths@.len() == 0,
            r.lockfile_names@.len() == 0,
            r.max_findings_per_classifier == 5,
    {
        PipelineConfig {
            generated_globs: Vec::new(),
            generated_paths: Vec::new(),
            lockfile_names: Vec::new(),
            max_findings_per_classifier: 5,
        }
    }
}

/// The rules in the order in which they run, and how many findings each may
/// make on a hunk.
pub struct Pipeline {
    pub(crate) classifiers: Vec<Box<dyn Classifier>>,
    pub(crate) max_findings_per_classifier: usize,
}

/// Rules are ordered by their place.
impl order::Sortable for Box<dyn Classifier> {
    open spec fn le(&self, other: &Self) -> bool {
        self.place() <= other.place()
    }

    fn at_most(&self, other: &Self) -> (r: bool) {
        self.priority() <= other.priority()
    }
}

/// The rules in the order in which they run: by place, those of one place as
/// they stand.
pub open spec fn in_order(rules: Seq<Box<dyn Classifier>>) -> Seq<Box<dyn Classifier>> {
    order::stable_sort(rules, order::natural::<Box<dyn Classifier>>())
}

/// At most the first `cap` findings.
pub open spec fn capped(fs: Seq<FindingView>, cap: nat) -> Seq<FindingView> {
    if fs.len() > cap {
        fs.take(cap as int)
    } else {
        fs
    }
}

/// The findings of these rules on a hunk, one rule after the other, and what
/// has become of the file.
pub open spec fn visit(
    rules: Seq<Box<dyn Classifier>>,
    cap: nat,
    file: FileDiffView,
    hunk: HunkView,
) -> (Seq<FindingView>, FileDiffView)
    decreases rules.len(),
{
    if rules.len() == 0 {
        (Seq::empty(), file)
    } else {
        let (findings, f) = visit(rules.drop_last(), cap, file, hunk);
        let rule = rules.last();
        (findings + capped(rule.verdict(f, hunk), cap), rule.effect(f, hunk))
    }
}

/// Where a run stands: what is classified, what is not, and the file at hand.
#[verifier::ext_equal]
pub struct RunView {
    pub classified: Seq<HunkFindingsView>,
    pub unclassified: Seq<UnclassifiedView>,
    pub file: FileDiffView,
}

/// The run after one more hunk.
pub open spec fn step(
    rules: Seq<Box<dyn Classifier>>,
    cap: nat,
    run: RunView,
    hunk: HunkView,
) -> RunView {
    let (findings, file) = visit(rules, cap, run.file, hunk);
    if findings.len() == 0 {
        RunView {
            classified: run.classified,
            unclassified: run.unclassified.push(
                UnclassifiedView {
                    hunk_id: hunk.id,
                    file_path: file.path,
                    language: file.language,
                    old_range: hunk.old_range,
                    new_range: hunk.new_range,
                    old_lines: hunk.old_lines,
                    new_lines: hunk.new_lines,
                },
            ),
            file,
        }
    } else {
        RunView {
            classified: run.classified.push(
                HunkFindingsView {
                    hunk_id: hunk.id,
                    file_path: file.path,
                    old_range: hunk.old_range,
                    new_range: hunk.new_range,
                    findings,
                },
            ),
            unclassified: run.unclassified,
            file,
        }
    }
}

/// The run after these hunks of the file at hand.
pub open spec fn run_hunks(
    rules: Seq<Box<dyn Classifier>>,
    cap: nat,
    run: RunView,
    hunks: Seq<HunkView>,
) -> RunView
    decreases hunks.len(),
{
    if hunks.len() == 0 {
        run
    } else {
        step(rules, cap, run_hunks(rules, cap, run, hunks.drop_last()), hunks.last())
    }
}

/// What a run over a diff leaves: what is classified, what is not, and the
/// files.
#[verifier::ext_equal]
pub struct OutcomeView {
    pub classified: Seq<HunkFindingsView>,
    pub unclassified: Seq<UnclassifiedView>,
    pub files: Seq<FileDiffView>,
}

/// The run over these files. A rule is handed a file without its hunks; they
/// are put back afterwards.
pub open spec fn run_files(
    rules: Seq<Box<dyn Classifier>>,
    cap: nat,
    files: Seq<FileDiffView>,
) -> OutcomeView
    decreases files.len(),
{
    if files.len() == 0 {
        OutcomeView {
            classified: Seq::empty(),
            unclassified: Seq::empty(),
            files: Seq::empty(),
        }
    } else {
        let before = run_files(rules, cap, files.drop_last());
        let file = files.last();
        let run = run_hunks(
            rules,
            cap,
            RunView {
                classified: before.classified,
                unclassified: before.unclassified,
                file: FileDiffView { hunks: Seq::empty(), ..file },
            },
            file.hunks,
        );
        OutcomeView {
            classified: run.classified,
            unclassified: run.unclassified,
            files: before.files.push(FileDiffView { hunks: file.hunks, ..run.file }),
        }
    }
}

/// The rule at position `k` has this name, place and verdict, and leaves the
/// files it is handed alone.
pub open spec fn behaves_at(
    rules: Seq<Box<dyn Classifier>>,
    k: int,
    label: Seq<char>,
    place: int,
    verdict: spec_fn(FileDiffView, HunkView) -> Seq<FindingView>,
) -> bool {
    &&& rules[k].label() == label
    &&& rules[k].place() == place
    &&& forall|f: FileDiffView, h: HunkView| #[trigger] rules[k].verdict(f, h) == verdict(f, h)
    &&& forall|f: FileDiffView, h: HunkView| #[trigger] rules[k].effect(f, h) == f
}

/// The rules of the standard pipeline, in the order in which they run: by path,
/// and then by syntax.
pub open spec fn is_standard(
    rules: Seq<Box<dyn Classifier>>,
    globs: Seq<Seq<char>>,
    paths: Seq<Seq<char>>,
    names: Seq<Seq<char>>,
) -> bool {
    &&& rules.len() == 8
    &&& behaves_at(
        rules,
        0,
        "generated"@,
        0,
        |f: FileDiffView, h: HunkView|
            classifiers::listed(
                generated::generated_verdict(
                    generated::is_listed(paths, f.path),
                    generated::any_matches(globs, f.path),
                ),
            ),
    )
    &&& behaves_at(
        rules,
        1,
        "lockfile"@,
        1,
        |f: FileDiffView, h: HunkView| classifiers::listed(lockfile::lockfile_verdict(names, f)),
    )
    &&& behaves_at(
        rules,
        2,
        "comment_only"@,
        100,
        |f: FileDiffView, h: HunkView| classifiers::listed(comment_only::comment_verdict(f, h)),
    )
    &&& behaves_at(
        rules,
        3,
        "import_reorder"@,
        110,
        |f: FileDiffView, h: HunkView| classifiers::listed(import_reorder::import_verdict(f, h)),
    )
    &&& behaves_at(
        rules,
        4,
        "public_api"@,
        120,
        |f: FileDiffView, h: HunkView| classifiers::listed(public_api::api_verdict(f, h)),
    )
    &&& behaves_at(
        rules,
        5,
        "control_flow"@,
        130,
        |f: FileDiffView, h: HunkView| classifiers::listed(control_flow::flow_verdict(f, h)),
    )
    &&& behaves_at(
        rules,
        6,
        "numerical_calc"@,
        140,
        |f: FileDiffView, h: HunkView| classifiers::listed(numerical_calc::calc_verdict(f, h)),
    )
    &&& behaves_at(
        rules,
        7,
        "error_handling"@,
        140,
        |f: FileDiffView, h: HunkView| classifiers::listed(error_handling::handling_verdict(f, h)),
    )
}

impl Pipeline {
    /// The rules, in the order in which they run.
    pub closed spec fn rules(&self) -> Seq<Box<dyn Classifier>> {
        self.classifiers@
    }

    /// How many findings a rule may make on a hunk.
    pub closed spec fn cap(&self) -> nat {
        self.max_findings_per_classifier as nat
    }

    /// A pipeline of these rules. They need not be in order.
    pub fn new(classifiers: Vec<Box<dyn Classifier>>) -> (r: Self)
        ensures
            r.rules() == in_order(classifiers@),
            r.cap() == 5,
    {
        Pipeline { classifiers: order::sort(classifiers), max_findings_per_classifier: 5 }
    }

    /// The standard pipeline: the rules by path and those by syntax. A rule may
    /// always make one finding on a hunk.
    pub fn standard(config: &PipelineConfig) -> (r: Result<Self, GlobError>)
        ensures
            ({
                let globs = generated::default_globs() + text::views(config.generated_globs@);
                match r {
                    Ok(p) => {
                        &&& generated::all_valid(globs)
                        &&& generated::set_builds(globs)
                        &&& is_standard(
                            p.rules(),
                            globs,
                            text::views(config.generated_paths@),
                            lockfile::default_names() + text::views(config.lockfile_names@),
                        )
                        &&& p.cap() == (if config.max_findings_per_classifier == 0 {
                            1
                        } else {
                            config.max_findings_per_classifier as nat
                        })
                    },
                    Err(GlobError::Invalid(p)) => generated::first_invalid(globs, p@),
                    Err(GlobError::NoSet) => generated::all_valid(globs) && !generated::set_builds(
                        globs,
                    ),
                }
            }),
    {
        let generated: Generated = match Generated::new(
            text::clone_all(&config.generated_globs),
            text::clone_all(&config.generated_paths),
        ) {
            Ok(g) => g,
            Err(e) => return Err(e),
        };
        let lockfile: Lockfile = Lockfile::new(text::clone_all(&config.lockfile_names));
        let rules: Vec<Box<dyn Classifier>> = vec![
            Box::new(generated),
            Box::new(lockfile),
            Box::new(CommentOnly::new()),
            Box::new(ImportReorder::new()),
            Box::new(PublicApi::new()),
            Box::new(ControlFlow::new()),
            Box::new(NumericalCalc::new()),
            Box::new(ErrorHandlingDeleted::new()),
        ];
        proof {
            assert(is_standard(
                rules@,
                generated::default_globs() + text::views(config.generated_globs@),
                text::views(config.generated_paths@),
                lockfile::default_names() + text::views(config.lockfile_names@),
            ));
            order::law_sorted_stays(rules@, order::natural::<Box<dyn Classifier>>());
        }
        let cap: usize = if config.max_findings_per_classifier == 0 {
            1
        } else {
            config.max_findings_per_classifier
        };
        Ok(Pipeline { classifiers: order::sort(rules), max_findings_per_classifier: cap })
    }

    /// The rules, in the order in which they run.
    pub fn classifiers(&self) -> (r: &[Box<dyn Classifier>])
        ensures
            r@ == self.rules(),
    {
        self.classifiers.as_slice()
    }

    /// Runs the rules on one hunk of a file.
    fn visit_hunk(&self, file: &mut FileDiff, hunk: &Hunk) -> (r: Vec<Finding>)
        ensures
            (text::views(r@), final(file)@) == visit(self.rules(), self.cap(), old(file)@, hunk@),
    {
        let mut findings: Vec<Finding> = Vec::new();
        let ghost rules = self.rules();
        let mut i: usize = 0;
        assert(text::views(findings@) =~= Seq::<FindingView>::empty());
        while i < self.classifiers.len()
            invariant
                i <= self.classifiers.len(),
                rules == self.classifiers@,
                (text::views(findings@), file@) == visit(
                    rules.take(i as int),
                    self.cap(),
                    old(file)@,
                    hunk@,
                ),
            decreases self.classifiers.len() - i,
        {
            let ghost before = findings@;
            let ghost file_before = file@;
            assert(rules.take(i + 1).drop_last() == rules.take(i as int));
            let mut produced: Vec<Finding> = self.classifiers[i].classify(file, hunk);
            let ghost all = text::views(produced@);
            if produced.len() > self.max_findings_per_classifier {
                produced.truncate(self.max_findings_per_classifier);
                assert(text::views(produced@) =~= all.take(self.cap() as int));
            }
            assert(text::views(produced@) == capped(all, self.cap()));
            let ghost more = produced@;
            findings.append(&mut produced);
            assert(text::views(findings@) =~= text::views(before) + text::views(more));
            i = i + 1;
        }
        assert(rules.take(i as int) == rules);
        findings
    }

    /// Runs the rules on one file, and adds to what is classified and what is
    /// not.
    fn visit_file(
        &self,
        file: &mut FileDiff,
        classified: &mut Vec<HunkFindings>,
        unclassified: &mut Vec<Unclassified>,
    )
        ensures
            ({
                let f = old(file)@;
                let run = run_hunks(
                    self.rules(),
                    self.cap(),
                    RunView {
                        classified: text::views(old(classified)@),
                        unclassified: text::views(old(unclassified)@),
                        file: FileDiffView { hunks: Seq::empty(), ..f },
                    },
                    f.hunks,
                );
                &&& text::views(final(classified)@) == run.classified
                &&& text::views(final(unclassified)@) == run.unclassified
                &&& final(file)@ == FileDiffView { hunks: f.hunks, ..run.file }
            }),
    {
        let mut hunks: Vec<Hunk> = Vec::new();
        std::mem::swap(&mut hunks, &mut file.hunks);
        let ghost all = text::views(hunks@);
        let ghost start = RunView {
            classified: text::views(classified@),
            unclassified: text::views(unclassified@),
            file: file@,
        };
        assert(file@.hunks =~= Seq::<HunkView>::empty());
        let mut j: usize = 0;
        while j < hunks.len()
            invariant
                j <= hunks.len(),
                all == text::views(hunks@),
                (RunView {
                    classified: text::views(classified@),
                    unclassified: text::views(unclassified@),
                    file: file@,
                }) == run_hunks(self.rules(), self.cap(), start, all.take(j as int)),
            decreases hunks.len() - j,
        {
            let hunk: &Hunk = &hunks[j];
            assert(all.take(j + 1).drop_last() == all.take(j as int));
            assert(all.take(j + 1).last() == hunk@);
            let findings: Vec<Finding> = self.visit_hunk(file, hunk);
            if findings.len() == 0 {
                let u = Unclassified {
                    hunk_id: hunk.id.clone(),
                    file_path: file.path.clone(),
                    language: file.language,
                    old_range: hunk.old_range,
                    new_range: hunk.new_range,
                    old_lines: text::clone_all(&hunk.old_lines),
                    new_lines: text::clone_all(&hunk.new_lines),
                };
                let ghost before = unclassified@;
                unclassified.push(u);
                proof {
                    text::lemma_views_push(before, u);
                }
            } else {
                let c = HunkFindings {
                    hunk_id: hunk.id.clone(),
                    file_path: file.path.clone(),
                    old_range: hunk.old_range,
                    new_range: hunk.new_range,
                    findings,
                };
                let ghost before = classified@;
                classified.push(c);
                proof {
                    text::lemma_views_push(before, c);
                }
            }
            j = j + 1;
        }
        assert(all.take(j as int) == all);
        file.hunks = hunks;
    }

    /// Runs the rules on every hunk of the diff. Every rule contributes its
    /// findings. A hunk is in the first result where there is a finding on it,
    /// and else in the second.
    pub fn run(&self, diff: &mut Diff) -> (r: (Vec<HunkFindings>, Vec<Unclassified>))
        ensures
            ({
                let outcome = run_files(self.rules(), self.cap(), old(diff)@.files);
                &&& text::views(r.0@) == outcome.classified
                &&& text::views(r.1@) == outcome.unclassified
                &&& final(diff)@.files == outcome.files
                &&& final(diff)@.base_sha == old(diff)@.base_sha
                &&& final(diff)@.head_sha == old(diff)@.head_sha
            }),
    {
        let mut classified: Vec<HunkFindings> = Vec::new();
        let mut unclassified: Vec<Unclassified> = Vec::new();
        let ghost all = diff@.files;
        let mut i: usize = 0;
        assert(text::views(classified@) =~= Seq::<HunkFindingsView>::empty());
        assert(text::views(unclassified@) =~= Seq::<UnclassifiedView>::empty());
        assert(all.take(0) =~= Seq::<FileDiffView>::empty());
        assert(text::views(diff.files@).take(0) =~= Seq::<FileDiffView>::empty());
        while i < diff.files.len()
            invariant
                i <= diff.files@.len() == all.len(),
                diff@.base_sha == old(diff)@.base_sha,
                diff@.head_sha == old(diff)@.head_sha,
                all == old(diff)@.files,
                text::views(diff.files@).skip(i as int) == all.skip(i as int),
                (OutcomeView {
                    classified: text::views(classified@),
                    unclassified: text::views(unclassified@),
                    files: text::views(diff.files@).take(i as int),
                }) == run_files(self.rules(), self.cap(), all.take(i as int)),
            decreases diff.files.len() - i,
        {
            let ghost before = text::views(diff.files@);
            proof {
                assert(before.skip(i as int)[0] == before[i as int]);
                assert(all.skip(i as int)[0] == all[i as int]);
                assert(all.take(i + 1).drop_last() == all.take(i as int));
            }
            self.visit_file(&mut diff.files[i], &mut classified, &mut unclassified);
            proof {
                let after = text::views(diff.files@);
                assert(after =~= before.update(i as int, diff.files@[i as int]@));
                assert(after.take(i + 1) =~= before.take(i as int).push(after[i as int]));
                assert(after.skip(i + 1) =~= before.skip(i as int).skip(1));
                assert(all.skip(i + 1) =~= all.skip(i as int).skip(1));
            }
            i = i + 1;
        }
        assert(all.take(i as int) == all);
        assert(text::views(diff.files@).take(i as int) =~= text::views(diff.files@));
        (classified, unclassified)
    }
}


// --- laws ----------------------------------------------------------------

/// The higher of two levels is one of them and below neither; the order of the
/// two, and of three, does not matter.
pub proof fn law_higher(a: Level, b: Level, c: Level)
    ensures
        higher(a, b) == a || higher(a, b) == b,
        rank(higher(a, b)) >= rank(a),
        rank(higher(a, b)) >= rank(b),
        higher(a, b) == higher(b, a),
        higher(higher(a, b), c) == higher(a, higher(b, c)),
        rank(Level::Review) > rank(Level::Skim) > rank(Level::Skip),
{
}

/// A pipeline runs its rules by place, those of one place in the order they
/// were given in, and none is lost.
pub proof fn law_rules_in_order(rules: Seq<Box<dyn Classifier>>, i: int, j: int)
    requires
        0 <= i < j < in_order(rules).len(),
    ensures
        in_order(rules)[i].place() <= in_order(rules)[j].place(),
        in_order(rules).to_multiset() == rules.to_multiset(),
        order::equals_of(
            in_order(rules),
            in_order(rules)[i],
            order::natural::<Box<dyn Classifier>>(),
        ) == order::equals_of(
            rules,
            in_order(rules)[i],
            order::natural::<Box<dyn Classifier>>(),
        ),
{
    let le = order::natural::<Box<dyn Classifier>>();
    order::law_sorted(rules, le);
    order::law_permutation(rules, le);
    order::law_stable(rules, in_order(rules)[i], le);
}

/// The identifiers of the hunks of these files, in order.
pub open spec fn all_ids(files: Seq<FileDiffView>) -> Seq<Seq<char>>
    decreases files.len(),
{
    if files.len() == 0 {
        Seq::empty()
    } else {
        all_ids(files.drop_last()) + files.last().hunks.map_values(|h: HunkView| h.id)
    }
}

pub open spec fn classified_ids(cs: Seq<HunkFindingsView>) -> Seq<Seq<char>> {
    cs.map_values(|c: HunkFindingsView| c.hunk_id)
}

pub open spec fn unclassified_ids(us: Seq<UnclassifiedView>) -> Seq<Seq<char>> {
    us.map_values(|u: UnclassifiedView| u.hunk_id)
}

/// Every hunk of the diff comes out of a run exactly once: classified, with at
/// least one finding, or unclassified.
pub proof fn law_every_hunk_once(
    rules: Seq<Box<dyn Classifier>>,
    cap: nat,
    files: Seq<FileDiffView>,
)
    ensures
        ({
            let out = run_files(rules, cap, files);
            &&& (classified_ids(out.classified) + unclassified_ids(
                out.unclassified,
            )).to_multiset() == all_ids(files).to_multiset()
            &&& forall|i: int|
                0 <= i < out.classified.len() ==> (#[trigger] out.classified[i]).findings.len() > 0
        }),
    decreases files.len(),
{
    broadcast use vstd::seq_lib::group_to_multiset_ensures;

    if files.len() > 0 {
        law_every_hunk_once(rules, cap, files.drop_last());
        let before = run_files(rules, cap, files.drop_last());
        let file = files.last();
        let start = RunView {
            classified: before.classified,
            unclassified: before.unclassified,
            file: FileDiffView { hunks: Seq::empty(), ..file },
        };
        lemma_hunks_once(rules, cap, start, file.hunks);
        let ids = file.hunks.map_values(|h: HunkView| h.id);
        vstd::seq_lib::lemma_multiset_commutative(all_ids(files.drop_last()), ids);
        vstd::seq_lib::lemma_multiset_commutative(
            classified_ids(before.classified) + unclassified_ids(before.unclassified),
            ids,
        );
    } else {
        let out = run_files(rules, cap, files);
        assert(classified_ids(out.classified) + unclassified_ids(out.unclassified)
            =~= all_ids(files));
    }
}

proof fn lemma_hunks_once(
    rules: Seq<Box<dyn Classifier>>,
    cap: nat,
    start: RunView,
    hunks: Seq<HunkView>,
)
    requires
        forall|i: int|
            0 <= i < start.classified.len() ==> (#[trigger] start.classified[i]).findings.len() > 0,
    ensures
        ({
            let out = run_hunks(rules, cap, start, hunks);
            &&& (classified_ids(out.classified) + unclassified_ids(
                out.unclassified,
            )).to_multiset() == (classified_ids(start.classified) + unclassified_ids(
                start.unclassified,
            ) + hunks.map_values(|h: HunkView| h.id)).to_multiset()
            &&& forall|i: int|
                0 <= i < out.classified.len() ==> (#[trigger] out.classified[i]).findings.len() > 0
        }),
    decreases hunks.len(),
{
    broadcast use vstd::seq_lib::group_to_multiset_ensures;

    let base = classified_ids(start.classified) + unclassified_ids(start.unclassified);
    let ids = hunks.map_values(|h: HunkView| h.id);
    if hunks.len() > 0 {
        lemma_hunks_once(rules, cap, start, hunks.drop_last());
        let mid = run_hunks(rules, cap, start, hunks.drop_last());
        let out = run_hunks(rules, cap, start, hunks);
        let a = classified_ids(mid.classified);
        let b = unclassified_ids(mid.unclassified);
        let id = hunks.last().id;
        let shorter = hunks.drop_last().map_values(|h: HunkView| h.id);
        assert(base + ids =~= (base + shorter).push(id));
        let (findings, file) = visit(rules, cap, mid.file, hunks.last());
        if findings.len() == 0 {
            assert(classified_ids(out.classified) + unclassified_ids(out.unclassified)
                =~= (a + b).push(id));
        } else {
            assert(classified_ids(out.classified) =~= a.push(id));
            vstd::seq_lib::lemma_multiset_commutative(a.push(id), b);
            vstd::seq_lib::lemma_multiset_commutative(a, b);
            assert((a.push(id) + b).to_multiset() =~= (a + b).push(id).to_multiset());
        }
    } else {
        assert(base + ids =~= base);
    }
}

/// A run gives every file its hunks back.
pub proof fn law_hunks_are_restored(
    rules: Seq<Box<dyn Classifier>>,
    cap: nat,
    files: Seq<FileDiffView>,
)
    ensures
        run_files(rules, cap, files).files.len() == files.len(),
        forall|i: int|
            0 <= i < files.len() ==> (#[trigger] run_files(rules, cap, files).files[i]).hunks
                == files[i].hunks,
    decreases files.len(),
{
    if files.len() > 0 {
        law_hunks_are_restored(rules, cap, files.drop_last());
        let before = run_files(rules, cap, files.drop_last()).files;
        let after = run_files(rules, cap, files).files;
        assert forall|i: int| 0 <= i < files.len() implies (#[trigger] after[i]).hunks
            == files[i].hunks by {
            if i < before.len() {
                assert(after[i] == before[i]);
            }
        }
    }
}

/// The rules leave the files they are handed alone.
pub open spec fn leave_files(rules: Seq<Box<dyn Classifier>>) -> bool {
    forall|i: int, f: FileDiffView, h: HunkView|
        0 <= i < rules.len() ==> #[trigger] rules[i].effect(f, h) == f
}

proof fn lemma_visit_leaves(
    rules: Seq<Box<dyn Classifier>>,
    cap: nat,
    file: FileDiffView,
    hunk: HunkView,
)
    requires
        leave_files(rules),
    ensures
        visit(rules, cap, file, hunk).1 == file,
    decreases rules.len(),
{
    if rules.len() > 0 {
        let shorter = rules.drop_last();
        assert forall|i: int, f: FileDiffView, h: HunkView|
            0 <= i < shorter.len() implies #[trigger] shorter[i].effect(f, h) == f by {
            assert(rules[i].effect(f, h) == f);
        }
        lemma_visit_leaves(shorter, cap, file, hunk);
        assert(rules[rules.len() - 1].effect(file, hunk) == file);
    }
}

proof fn lemma_run_leaves(
    rules: Seq<Box<dyn Classifier>>,
    cap: nat,
    start: RunView,
    hunks: Seq<HunkView>,
)
    requires
        leave_files(rules),
    ensures
        run_hunks(rules, cap, start, hunks).file == start.file,
    decreases hunks.len(),
{
    if hunks.len() > 0 {
        lemma_run_leaves(rules, cap, start, hunks.drop_last());
        lemma_visit_leaves(rules, cap, start.file, hunks.last());
    }
}

/// Where the rules leave the files they are handed alone, so does a run.
pub proof fn law_files_are_left(
    rules: Seq<Box<dyn Classifier>>,
    cap: nat,
    files: Seq<FileDiffView>,
)
    requires
        leave_files(rules),
    ensures
        run_files(rules, cap, files).files == files,
    decreases files.len(),
{
    if files.len() > 0 {
        law_files_are_left(rules, cap, files.drop_last());
        let before = run_files(rules, cap, files.drop_last());
        let file = files.last();
        let start = RunView {
            classified: before.classified,
            unclassified: before.unclassified,
            file: FileDiffView { hunks: Seq::empty(), ..file },
        };
        lemma_run_leaves(rules, cap, start, file.hunks);
        assert(files.drop_last().push(file) =~= files);
    }
}

/// No rule contributes more findings on a hunk than it may.
pub proof fn law_findings_are_capped(
    rules: Seq<Box<dyn Classifier>>,
    cap: nat,
    file: FileDiffView,
    hunk: HunkView,
)
    ensures
        visit(rules, cap, file, hunk).0.len() <= cap * rules.len(),
    decreases rules.len(),
{
    if rules.len() > 0 {
        law_findings_are_capped(rules.drop_last(), cap, file, hunk);
        assert(cap * rules.len() == cap * (rules.len() - 1) + cap) by (nonlinear_arith)
            requires
                rules.len() > 0,
        ;
    }
}

/// A rule of the standard pipeline makes at most one finding on a hunk, under
/// its own name, and never that a change is to be skimmed. The first four rules
/// say that it may be skipped, and point at no lines; the others say that it is
/// to be reviewed, and point at lines.
pub proof fn law_standard_findings(
    rules: Seq<Box<dyn Classifier>>,
    globs: Seq<Seq<char>>,
    paths: Seq<Seq<char>>,
    names: Seq<Seq<char>>,
    k: int,
    file: FileDiffView,
    hunk: HunkView,
)
    requires
        is_standard(rules, globs, paths, names),
        0 <= k < rules.len(),
    ensures
        rules[k].verdict(file, hunk).len() <= 1,
        rules[k].verdict(file, hunk).len() == 1 ==> ({
            let f = rules[k].verdict(file, hunk)[0];
            &&& f.source == (SourceView::Heuristic { name: rules[k].label() })
            &&& f.level == if k < 4 {
                Level::Skip
            } else {
                Level::Review
            }
            &&& f.focus_lines is None <==> k < 4
        }),
{
}

/// Only the rules by path make findings on files in a language that is not
/// known.
pub proof fn law_unknown_language(
    rules: Seq<Box<dyn Classifier>>,
    globs: Seq<Seq<char>>,
    paths: Seq<Seq<char>>,
    names: Seq<Seq<char>>,
    k: int,
    file: FileDiffView,
    hunk: HunkView,
)
    requires
        is_standard(rules, globs, paths, names),
        2 <= k < rules.len(),
        file.language is None,
    ensures
        rules[k].verdict(file, hunk).len() == 0,
{
}

// --- what a run says of a hunk -------------------------------------------

proof fn lemma_visit_grows(
    rules: Seq<Box<dyn Classifier>>,
    cap: nat,
    file: FileDiffView,
    hunk: HunkView,
    k: int,
)
    requires
        0 <= k <= rules.len(),
    ensures
        visit(rules.take(k), cap, file, hunk).0.is_prefix_of(visit(rules, cap, file, hunk).0),
    decreases rules.len(),
{
    if k == rules.len() {
        assert(rules.take(k) =~= rules);
        let fs = visit(rules, cap, file, hunk).0;
        assert(fs =~= fs.subrange(0, fs.len() as int));
    } else {
        let rest = rules.drop_last();
        lemma_visit_grows(rest, cap, file, hunk, k);
        assert(rest.take(k) =~= rules.take(k));
        let a = visit(rules.take(k), cap, file, hunk).0;
        let b = visit(rest, cap, file, hunk).0;
        let c = visit(rules, cap, file, hunk).0;
        assert(a =~= c.subrange(0, a.len() as int));
    }
}

/// Every rule has its say on a hunk: its findings, as far as it may make them,
/// stand behind those of the rules before it, in its own order.
pub proof fn law_every_rule_is_heard(
    rules: Seq<Box<dyn Classifier>>,
    cap: nat,
    file: FileDiffView,
    hunk: HunkView,
    k: int,
    t: int,
)
    requires
        leave_files(rules),
        0 <= k < rules.len(),
        0 <= t < rules[k].verdict(file, hunk).len(),
        t < cap,
    ensures
        ({
            let earlier = visit(rules.take(k), cap, file, hunk).0.len();
            let all = visit(rules, cap, file, hunk).0;
            earlier + t < all.len() && all[earlier + t] == rules[k].verdict(file, hunk)[t]
        }),
{
    let upto = rules.take(k + 1);
    assert(upto.drop_last() =~= rules.take(k));
    assert(upto.last() == rules[k]);
    assert forall|i: int, f: FileDiffView, h: HunkView|
        0 <= i < rules.take(k).len() implies #[trigger] rules.take(k)[i].effect(f, h) == f by {
        assert(rules[i].effect(f, h) == f);
    }
    lemma_visit_leaves(rules.take(k), cap, file, hunk);
    lemma_visit_grows(rules, cap, file, hunk, k + 1);
    let a = visit(upto, cap, file, hunk).0;
    let all = visit(rules, cap, file, hunk).0;
    let earlier = visit(rules.take(k), cap, file, hunk).0.len() as int;
    assert(a[earlier + t] == rules[k].verdict(file, hunk)[t]);
    assert(all[earlier + t] == a[earlier + t]);
}

/// Every finding on a hunk is one that some rule makes on it.
pub proof fn law_no_finding_is_made_up(
    rules: Seq<Box<dyn Classifier>>,
    cap: nat,
    file: FileDiffView,
    hunk: HunkView,
    i: int,
)
    requires
        leave_files(rules),
        0 <= i < visit(rules, cap, file, hunk).0.len(),
    ensures
        exists|k: int, t: int|
            0 <= k < rules.len() && 0 <= t < rules[k].verdict(file, hunk).len() && t < cap
                && visit(rules, cap, file, hunk).0[i] == #[trigger] rules[k].verdict(file, hunk)[t],
    decreases rules.len(),
{
    let rest = rules.drop_last();
    let before = visit(rest, cap, file, hunk).0;
    let all = visit(rules, cap, file, hunk).0;
    assert forall|j: int, f: FileDiffView, h: HunkView|
        0 <= j < rest.len() implies #[trigger] rest[j].effect(f, h) == f by {
        assert(rules[j].effect(f, h) == f);
    }
    lemma_visit_leaves(rest, cap, file, hunk);
    let last = rules.len() - 1;
    if i < before.len() {
        law_no_finding_is_made_up(rest, cap, file, hunk, i);
        let (k, t) = choose|k: int, t: int|
            0 <= k < rest.len() && 0 <= t < rest[k].verdict(file, hunk).len() && t < cap
                && before[i] == #[trigger] rest[k].verdict(file, hunk)[t];
        assert(rules[k].verdict(file, hunk)[t] == all[i]);
    } else {
        let t = i - before.len();
        assert(rules[last].verdict(file, hunk)[t] == all[i]);
    }
}

/// The file and hunk that an outcome speaks of: the entry is in the file and at
/// the lines of the hunk, and holds what the rules say of it.
pub open spec fn tells_of(
    c: HunkFindingsView,
    rules: Seq<Box<dyn Classifier>>,
    cap: nat,
    file: FileDiffView,
    hunk: HunkView,
) -> bool {
    &&& c.hunk_id == hunk.id
    &&& c.file_path == file.path
    &&& c.old_range == hunk.old_range
    &&& c.new_range == hunk.new_range
    &&& c.findings == visit(rules, cap, FileDiffView { hunks: Seq::empty(), ..file }, hunk).0
}

/// The entry hands on the lines of the hunk, of which the rules say nothing.
pub open spec fn hands_on(
    u: UnclassifiedView,
    rules: Seq<Box<dyn Classifier>>,
    cap: nat,
    file: FileDiffView,
    hunk: HunkView,
) -> bool {
    &&& u.hunk_id == hunk.id
    &&& u.file_path == file.path
    &&& u.language == file.language
    &&& u.old_range == hunk.old_range
    &&& u.new_range == hunk.new_range
    &&& u.old_lines == hunk.old_lines
    &&& u.new_lines == hunk.new_lines
    &&& visit(rules, cap, FileDiffView { hunks: Seq::empty(), ..file }, hunk).0.len() == 0
}

/// The outcome for the hunk is there: what the rules say of it, or its lines
/// where they say nothing.
pub open spec fn is_told(
    out: OutcomeView,
    rules: Seq<Box<dyn Classifier>>,
    cap: nat,
    file: FileDiffView,
    hunk: HunkView,
) -> bool {
    ||| exists|i: int|
        0 <= i < out.classified.len() && tells_of(
            #[trigger] out.classified[i],
            rules,
            cap,
            file,
            hunk,
        )
    ||| exists|i: int|
        0 <= i < out.unclassified.len() && hands_on(
            #[trigger] out.unclassified[i],
            rules,
            cap,
            file,
            hunk,
        )
}

proof fn lemma_told_stays(
    a: OutcomeView,
    b: OutcomeView,
    rules: Seq<Box<dyn Classifier>>,
    cap: nat,
    file: FileDiffView,
    hunk: HunkView,
)
    requires
        is_told(a, rules, cap, file, hunk),
        a.classified.is_prefix_of(b.classified),
        a.unclassified.is_prefix_of(b.unclassified),
    ensures
        is_told(b, rules, cap, file, hunk),
{
    if exists|i: int|
        0 <= i < a.classified.len() && tells_of(#[trigger] a.classified[i], rules, cap, file, hunk) {
        let i = choose|i: int|
            0 <= i < a.classified.len() && tells_of(
                #[trigger] a.classified[i],
                rules,
                cap,
                file,
                hunk,
            );
        assert(b.classified[i] == a.classified[i]);
    } else {
        let i = choose|i: int|
            0 <= i < a.unclassified.len() && hands_on(
                #[trigger] a.unclassified[i],
                rules,
                cap,
                file,
                hunk,
            );
        assert(b.unclassified[i] == a.unclassified[i]);
    }
}

proof fn lemma_hunks_told(
    rules: Seq<Box<dyn Classifier>>,
    cap: nat,
    start: RunView,
    hunks: Seq<HunkView>,
    file: FileDiffView,
)
    requires
        leave_files(rules),
        start.file == (FileDiffView { hunks: Seq::empty(), ..file }),
    ensures
        ({
            let run = run_hunks(rules, cap, start, hunks);
            let out = OutcomeView {
                classified: run.classified,
                unclassified: run.unclassified,
                files: Seq::empty(),
            };
            &&& start.classified.is_prefix_of(run.classified)
            &&& start.unclassified.is_prefix_of(run.unclassified)
            &&& forall|j: int|
                0 <= j < hunks.len() ==> is_told(out, rules, cap, file, #[trigger] hunks[j])
        }),
    decreases hunks.len(),
{
    let run = run_hunks(rules, cap, start, hunks);
    if hunks.len() == 0 {
        assert(run.classified =~= run.classified.subrange(0, run.classified.len() as int));
        assert(run.unclassified =~= run.unclassified.subrange(0, run.unclassified.len() as int));
    } else {
        let rest = hunks.drop_last();
        let mid = run_hunks(rules, cap, start, rest);
        let last = hunks.last();
        lemma_hunks_told(rules, cap, start, rest, file);
        lemma_run_leaves(rules, cap, start, rest);
        lemma_visit_leaves(rules, cap, mid.file, last);
        let a = OutcomeView {
            classified: mid.classified,
            unclassified: mid.unclassified,
            files: Seq::empty(),
        };
        let b = OutcomeView {
            classified: run.classified,
            unclassified: run.unclassified,
            files: Seq::empty(),
        };
        assert(mid.classified =~= run.classified.subrange(0, mid.classified.len() as int));
        assert(mid.unclassified =~= run.unclassified.subrange(0, mid.unclassified.len() as int));
        assert(start.classified =~= run.classified.subrange(0, start.classified.len() as int));
        assert(start.unclassified =~= run.unclassified.subrange(
            0,
            start.unclassified.len() as int,
        ));
        assert forall|j: int| 0 <= j < hunks.len() implies is_told(
            b,
            rules,
            cap,
            file,
            #[trigger] hunks[j],
        ) by {
            if j < rest.len() {
                assert(rest[j] == hunks[j]);
                lemma_told_stays(a, b, rules, cap, file, hunks[j]);
            } else {
                let (findings, f) = visit(rules, cap, mid.file, last);
                if findings.len() == 0 {
                    assert(hands_on(
                        b.unclassified[mid.unclassified.len() as int],
                        rules,
                        cap,
                        file,
                        hunks[j],
                    ));
                } else {
                    assert(tells_of(
                        b.classified[mid.classified.len() as int],
                        rules,
                        cap,
                        file,
                        hunks[j],
                    ));
                }
            }
        }
    }
}

/// For every hunk of the diff a run tells what the rules say of it, in its file
/// and at its lines, or hands on its lines where they say nothing.
pub proof fn law_every_hunk_is_told(
    rules: Seq<Box<dyn Classifier>>,
    cap: nat,
    files: Seq<FileDiffView>,
    i: int,
    j: int,
)
    requires
        leave_files(rules),
        0 <= i < files.len(),
        0 <= j < files[i].hunks.len(),
    ensures
        is_told(run_files(rules, cap, files), rules, cap, files[i], files[i].hunks[j]),
    decreases files.len(),
{
    let rest = files.drop_last();
    let before = run_files(rules, cap, rest);
    let out = run_files(rules, cap, files);
    let file = files.last();
    let start = RunView {
        classified: before.classified,
        unclassified: before.unclassified,
        file: FileDiffView { hunks: Seq::empty(), ..file },
    };
    lemma_hunks_told(rules, cap, start, file.hunks, file);
    let run = run_hunks(rules, cap, start, file.hunks);
    if i < rest.len() {
        law_every_hunk_is_told(rules, cap, rest, i, j);
        assert(rest[i] == files[i]);
        lemma_told_stays(before, out, rules, cap, files[i], files[i].hunks[j]);
    } else {
        let mid = OutcomeView {
            classified: run.classified,
            unclassified: run.unclassified,
            files: Seq::empty(),
        };
        assert(is_told(mid, rules, cap, file, file.hunks[j]));
        assert(out.classified =~= mid.classified.subrange(0, mid.classified.len() as int));
        assert(out.unclassified =~= mid.unclassified.subrange(0, mid.unclassified.len() as int));
        lemma_told_stays(mid, out, rules, cap, file, file.hunks[j]);
    }
}

/// These findings are the one finding, where there is one, and else none.
pub open spec fn is_just(fs: Seq<FindingView>, f: Option<FindingView>) -> bool {
    match f {
        Some(f) => fs.len() == 1 && fs[0] == f,
        None => fs.len() == 0,
    }
}

/// In the standard pipeline every rule says of every hunk of every file just what
/// its own verdict is, whatever the status of the file: the files that are
/// generated, the lockfiles, comments, imports, public signatures, the flow of
/// control, calculations, and the handling of errors.
pub proof fn law_standard_verdicts(
    rules: Seq<Box<dyn Classifier>>,
    globs: Seq<Seq<char>>,
    paths: Seq<Seq<char>>,
    names: Seq<Seq<char>>,
    file: FileDiffView,
    hunk: HunkView,
)
    requires
        is_standard(rules, globs, paths, names),
    ensures
        rules.len() == 8,
        leave_files(rules),
        is_just(
            rules[0].verdict(file, hunk),
            generated::generated_verdict(
                generated::is_listed(paths, file.path),
                generated::any_matches(globs, file.path),
            ),
        ),
        is_just(rules[1].verdict(file, hunk), lockfile::lockfile_verdict(names, file)),
        is_just(rules[2].verdict(file, hunk), comment_only::comment_verdict(file, hunk)),
        is_just(rules[3].verdict(file, hunk), import_reorder::import_verdict(file, hunk)),
        is_just(rules[4].verdict(file, hunk), public_api::api_verdict(file, hunk)),
        is_just(rules[5].verdict(file, hunk), control_flow::flow_verdict(file, hunk)),
        is_just(rules[6].verdict(file, hunk), numerical_calc::calc_verdict(file, hunk)),
        is_just(rules[7].verdict(file, hunk), error_handling::handling_verdict(file, hunk)),
{
    assert forall|i: int, f: FileDiffView, h: HunkView|
        0 <= i < rules.len() implies #[trigger] rules[i].effect(f, h) == f by {
        assert(i == 0 || i == 1 || i == 2 || i == 3 || i == 4 || i == 5 || i == 6 || i == 7);
    }
}

} // verus!
