//! The rules. Each module holds one.
use vstd::prelude::*;

use crate::classify::{Category, Finding, FindingView, FocusLines, Level, Side, Source, SourceView};
use crate::diff::HunkView;
use crate::text;

pub mod comment_only;
pub mod control_flow;
pub mod error_handling;
pub mod generated;
pub mod import_reorder;
pub mod lockfile;
pub mod numerical_calc;
pub mod public_api;
pub mod size_threshold;

pub use comment_only::CommentOnly;
pub use control_flow::ControlFlow;
pub use error_handling::ErrorHandlingDeleted;
pub use generated::Generated;
pub use import_reorder::ImportReorder;
pub use lockfile::Lockfile;
pub use numerical_calc::NumericalCalc;
pub use public_api::PublicApi;
pub use size_threshold::SizeThreshold;

verus! {

/// A finding of the rule with this name.
pub open spec fn finding_of(
    level: Level,
    category: Category,
    rationale: Seq<char>,
    name: Seq<char>,
    focus_lines: Option<FocusLines>,
) -> FindingView {
    FindingView {
        level,
        category,
        rationale,
        source: SourceView::Heuristic { name },
        focus_lines,
    }
}

pub(crate) fn finding(
    level: Level,
    category: Category,
    rationale: String,
    name: &str,
    focus_lines: Option<FocusLines>,
) -> (r: Finding)
    ensures
        r@ == finding_of(level, category, rationale@, name@, focus_lines),
{
    Finding {
        level,
        category,
        rationale,
        source: Source::Heuristic { name: name.to_string() },
        focus_lines,
    }
}

/// The finding as a list of at most one.
pub open spec fn listed(f: Option<FindingView>) -> Seq<FindingView> {
    match f {
        Some(f) => seq![f],
        None => Seq::empty(),
    }
}

pub(crate) fn list(f: Option<Finding>) -> (r: Vec<Finding>)
    ensures
        text::views(r@) == listed(text::opt_view(f)),
{
    let ghost want = listed(text::opt_view(f));
    let mut out: Vec<Finding> = Vec::new();
    match f {
        Some(f) => {
            out.push(f);
            assert(text::views(out@) =~= want);
        },
        None => {
            assert(text::views(out@) =~= want);
        },
    }
    out
}

/// What was found, a few words, and the lines it was found at.
pub open spec fn phrase(
    what: Seq<char>,
    words: Seq<char>,
    start: u32,
    end: u32,
) -> Seq<char> {
    what + words + text::dec(start as nat) + "–"@ + text::dec(end as nat)
}

pub(crate) fn say(what: &str, words: &str, start: u32, end: u32) -> (r: String)
    ensures
        r@ == phrase(what@, words@, start, end),
{
    let mut out: String = what.to_string();
    out.append(words);
    out.append(text::decimal(start as u64).as_str());
    out.append("–");
    out.append(text::decimal(end as u64).as_str());
    out
}

/// The lines from `start` to `end` on a side.
pub open spec fn focus(start: u32, end: u32, side: Side) -> Option<FocusLines> {
    Some(FocusLines { start, end, side })
}

/// The lines of a hunk that change on a side.
pub open spec fn changed_lines(hunk: HunkView, side: Side) -> Seq<u32> {
    match side {
        Side::New => hunk.added_lines,
        Side::Old => hunk.removed_lines,
    }
}

/// One of the lines is among those from `start` to `end`.
pub open spec fn spans_a_line(start: u32, end: u32, lines: Seq<u32>) -> bool {
    exists|i: int| 0 <= i < lines.len() && start <= #[trigger] lines[i] <= end
}

} // verus!
