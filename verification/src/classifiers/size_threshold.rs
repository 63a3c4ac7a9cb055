//! Large hunks deserve attention. Pure line counting.
use vstd::prelude::*;

use crate::classifiers;
use crate::classify::{Category, Classification, Classifier, Finding, FindingView, Level};
use crate::diff::{FileDiff, FileDiffView, Hunk, HunkView};
use crate::text;

verus! {

/// Asks for review of every hunk that changes more than `threshold` lines.
pub struct SizeThreshold {
    pub threshold: u32,
}

/// How many lines a hunk changes.
pub open spec fn changed(hunk: HunkView) -> nat {
    (hunk.added + hunk.removed) as nat
}

/// The finding on a hunk, if it is too large.
pub open spec fn size_verdict(threshold: u32, hunk: HunkView) -> Option<FindingView> {
    if changed(hunk) > threshold {
        Some(
            classifiers::finding_of(
                Level::Review,
                Category::LargeChange,
                text::dec(changed(hunk)) + " changed lines (>"@ + text::dec(threshold as nat)
                    + " threshold)"@,
                "size_threshold"@,
                None,
            ),
        )
    } else {
        None
    }
}

impl SizeThreshold {
    pub fn new(threshold: u32) -> (r: Self)
        ensures
            r.threshold == threshold,
    {
        SizeThreshold { threshold }
    }

    pub fn classify(&self, file: &mut FileDiff, hunk: &Hunk) -> (r: Option<Classification>)
        ensures
            text::opt_view(r) == size_verdict(self.threshold, hunk@),
            final(file)@ == old(file)@,
    {
        let changed: u64 = hunk.added as u64 + hunk.removed as u64;
        if changed > self.threshold as u64 {
            let mut rationale: String = text::decimal(changed);
            rationale.append(" changed lines (>");
            rationale.append(text::decimal(self.threshold as u64).as_str());
            rationale.append(" threshold)");
            Some(
                classifiers::finding(
                    Level::Review,
                    Category::LargeChange,
                    rationale,
                    "size_threshold",
                    None,
                ),
            )
        } else {
            None
        }
    }
}

impl Classifier for SizeThreshold {
    open spec fn label(&self) -> Seq<char> {
        "size_threshold"@
    }

    open spec fn place(&self) -> int {
        200
    }

    open spec fn verdict(&self, file: FileDiffView, hunk: HunkView) -> Seq<FindingView> {
        classifiers::listed(size_verdict(self.threshold, hunk))
    }

    open spec fn effect(&self, file: FileDiffView, hunk: HunkView) -> FileDiffView {
        file
    }

    fn name(&self) -> (r: &'static str) {
        "size_threshold"
    }

    fn priority(&self) -> (r: i32) {
        200
    }

    fn classify(&self, file: &mut FileDiff, hunk: &Hunk) -> (r: Vec<Finding>) {
        classifiers::list(SizeThreshold::classify(self, file, hunk))
    }
}

/// A hunk is too large exactly where the lines that it adds and removes are more
/// than the threshold. It is then to be reviewed as a whole.
pub proof fn law_large_hunks_are_found(threshold: u32, hunk: HunkView)
    ensures
        size_verdict(threshold, hunk) is Some <==> hunk.added + hunk.removed > threshold,
        size_verdict(threshold, hunk) matches Some(f) ==> f.level == Level::Review && f.category
            == Category::LargeChange && f.focus_lines is None && f.rationale == text::dec(
            (hunk.added + hunk.removed) as nat,
        ) + " changed lines (>"@ + text::dec(threshold as nat) + " threshold)"@,
{
}

} // verus!
