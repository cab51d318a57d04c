//! The decisions of the scripting front-end: which interface runs, when a
//! plan is applied, what the user is asked and told, and how the process
//! exits. The front-end parses the arguments, reads and writes the terminal,
//! and touches the disk.
//!
//! The command line plans and applies in one pass, so there is no window in
//! which the filesystem could drift between the two.

use vstd::prelude::*;

use crate::applying::{ApplyOutcome, ApplyResult};
use crate::planning::{decimal, decimal_string, trim_text, trimmed, RenamePlan};
use crate::text::{ascii_lower, chars_of, concat, eq_ignore_ascii_case};

verus! {

/// How the process ends.
#[derive(Clone, Copy, Debug, PartialEq, Eq, Structural)]
pub enum Exit {
    /// Status 0.
    Success,
    /// Status 1.
    Failure,
    /// Status 2: the arguments or the folder were unusable.
    Usage,
}

/// A message for the user, and where it goes.
pub enum Said {
    Nothing,
    /// To standard output.
    Out(String),
    /// To standard error.
    Error(String),
}

pub enum SaidView {
    Nothing,
    Out(Seq<char>),
    Error(Seq<char>),
}

impl View for Said {
    type V = SaidView;

    open spec fn view(&self) -> SaidView {
        match self {
            Said::Nothing => SaidView::Nothing,
            Said::Out(text) => SaidView::Out(text@),
            Said::Error(text) => SaidView::Error(text@),
        }
    }
}

/// What comes after the plan is printed.
pub enum NextStep {
    /// Stop here.
    Finish { exit: Exit, said: Said },
    /// Ask first, with this prompt.
    Confirm { prompt: String },
    /// Rename now.
    Apply,
}

pub enum NextStepView {
    Finish { exit: Exit, said: SaidView },
    Confirm { prompt: Seq<char> },
    Apply,
}

impl View for NextStep {
    type V = NextStepView;

    open spec fn view(&self) -> NextStepView {
        match self {
            NextStep::Finish { exit, said } => NextStepView::Finish { exit: *exit, said: said@ },
            NextStep::Confirm { prompt } => NextStepView::Confirm { prompt: prompt@ },
            NextStep::Apply => NextStepView::Apply,
        }
    }
}

/// Without a folder, or when asked to, the terminal interface runs.
pub fn opens_interface(tui: bool, folder_given: bool) -> (r: bool)
    ensures
        r == (tui || !folder_given),
{
    tui || !folder_given
}

/// `--dry-run` and `--apply` contradict each other.
pub fn flag_conflict(apply: bool, dry_run: bool) -> (r: Option<String>)
    ensures
        apply && dry_run ==> (r matches Some(message) && message@ == "Error: use either --dry-run or --apply, not both."@),
        !(apply && dry_run) ==> r is None,
{
    if apply && dry_run {
        Some("Error: use either --dry-run or --apply, not both.".to_owned())
    } else {
        None
    }
}

/// The question asked before renaming.
pub open spec fn prompt_text(count: nat) -> Seq<char> {
    "Apply "@ + decimal(count) + " renames? [y/N] "@
}

/// What follows a printed plan: a folder without videos or without subtitles
/// fails; a preview (no `--apply`), or a plan with nothing to do, ends there;
/// otherwise the renames run, after a question unless `--yes` was given.
pub open spec fn next_after_plan(plan: RenamePlan, apply: bool, yes: bool) -> NextStepView {
    if plan.video_count == 0 {
        NextStepView::Finish { exit: Exit::Failure, said: SaidView::Error("No video files found."@) }
    } else if plan.subtitle_count == 0 {
        NextStepView::Finish { exit: Exit::Failure, said: SaidView::Error("No subtitle files found."@) }
    } else if !apply || plan.operations@.len() == 0 {
        NextStepView::Finish { exit: Exit::Success, said: SaidView::Nothing }
    } else if !yes {
        NextStepView::Confirm { prompt: prompt_text(plan.operations@.len()) }
    } else {
        NextStepView::Apply
    }
}

pub fn after_plan(plan: &RenamePlan, apply: bool, yes: bool) -> (r: NextStep)
    ensures
        r@ == next_after_plan(*plan, apply, yes),
{
    if plan.video_count == 0 {
        NextStep::Finish { exit: Exit::Failure, said: Said::Error("No video files found.".to_owned()) }
    } else if plan.subtitle_count == 0 {
        NextStep::Finish { exit: Exit::Failure, said: Said::Error("No subtitle files found.".to_owned()) }
    } else if !apply || plan.operations.len() == 0 {
        NextStep::Finish { exit: Exit::Success, said: Said::Nothing }
    } else if !yes {
        let count = decimal_string(plan.operations.len());
        let head = concat("Apply ", count.as_str());
        NextStep::Confirm { prompt: concat(head.as_str(), " renames? [y/N] ") }
    } else {
        NextStep::Apply
    }
}

/// `a` and `b` are the same text, ignoring ASCII case.
pub open spec fn same_ignoring_case(a: Seq<char>, b: Seq<char>) -> bool {
    a.len() == b.len() && forall|i: int| 0 <= i < a.len() ==> ascii_lower(#[trigger] a[i]) == ascii_lower(b[i])
}

/// An answer agrees when, trimmed, it is `y` or `yes` in any case.
pub open spec fn agrees(answer: Seq<char>) -> bool {
    same_ignoring_case(trimmed(answer), "y"@) || same_ignoring_case(trimmed(answer), "yes"@)
}

fn same_text_ignoring_case(a: &Vec<char>, b: &Vec<char>) -> (r: bool)
    ensures
        r == same_ignoring_case(a@, b@),
{
    if a.len() != b.len() {
        return false;
    }
    let mut i: usize = 0;
    while i < a.len()
        invariant
            i <= a@.len() == b@.len(),
            forall|k: int| 0 <= k < i ==> ascii_lower(#[trigger] a@[k]) == ascii_lower(b@[k]),
        decreases a.len() - i,
    {
        if !eq_ignore_ascii_case(a[i], b[i]) {
            return false;
        }
        i += 1;
    }
    true
}

/// Whether the answer to the question agrees to the renames.
pub fn confirmed(answer: &str) -> (r: bool)
    ensures
        r == agrees(answer@),
{
    let text = trim_text(answer);
    let given = chars_of(text.as_str());
    let short = chars_of("y");
    let long = chars_of("yes");
    same_text_ignoring_case(&given, &short) || same_text_ignoring_case(&given, &long)
}

/// After the question: agreed, the renames run; otherwise nothing happens and
/// the run fails.
pub fn after_answer(agreed: bool) -> (r: NextStep)
    ensures
        agreed ==> r@ == NextStepView::Apply,
        !agreed ==> r@ == (NextStepView::Finish { exit: Exit::Failure, said: SaidView::Out("Aborted."@) }),
{
    if agreed {
        NextStep::Apply
    } else {
        NextStep::Finish { exit: Exit::Failure, said: Said::Out("Aborted.".to_owned()) }
    }
}

/// The line that reports a failed rename.
pub open spec fn failure_line(outcome: ApplyOutcome) -> Seq<char> {
    "- "@ + outcome.source@ + " -> "@ + outcome.target@ + ": "@ + match outcome.error {
        Some(error) => error@,
        None => "unknown error"@,
    }
}

/// How a finished run is reported: how many of the planned renames happened,
/// then one line per failure, and the exit status.
pub struct ApplyReport {
    pub summary: String,
    pub failures: Vec<String>,
    pub exit: Exit,
}

pub fn apply_report(result: &ApplyResult, planned: usize) -> (r: ApplyReport)
    ensures
        r.summary@ == "Renamed "@ + decimal(result.applied@.len()) + " of "@ + decimal(planned as nat) + "."@,
        r.failures@.len() == result.failed@.len(),
        forall|k: int| 0 <= k < result.failed@.len() ==> (#[trigger] r.failures@[k])@ == failure_line(result.failed@[k]),
        r.exit == if result.failed@.len() == 0 { Exit::Success } else { Exit::Failure },
{
    let done = decimal_string(result.applied.len());
    let total = decimal_string(planned);
    let part1 = concat("Renamed ", done.as_str());
    let part2 = concat(part1.as_str(), " of ");
    let part3 = concat(part2.as_str(), total.as_str());
    let summary = concat(part3.as_str(), ".");
    let mut failures: Vec<String> = Vec::new();
    let mut k: usize = 0;
    while k < result.failed.len()
        invariant
            k <= result.failed@.len(),
            failures@.len() == k,
            forall|m: int| 0 <= m < k ==> (#[trigger] failures@[m])@ == failure_line(result.failed@[m]),
        decreases result.failed.len() - k,
    {
        let outcome = &result.failed[k];
        let part1 = concat("- ", outcome.source.as_str());
        let part2 = concat(part1.as_str(), " -> ");
        let part3 = concat(part2.as_str(), outcome.target.as_str());
        let part4 = concat(part3.as_str(), ": ");
        let line = match &outcome.error {
            Some(error) => concat(part4.as_str(), error.as_str()),
            None => concat(part4.as_str(), "unknown error"),
        };
        failures.push(line);
        k += 1;
    }
    let exit = if result.failed.len() == 0 { Exit::Success } else { Exit::Failure };
    ApplyReport { summary, failures, exit }
}

/// A preview never renames: without `--apply` the run always ends after the
/// plan, and with it the renames start only after a yes or with `--yes`.
pub proof fn lemma_previews_never_rename(plan: RenamePlan, apply: bool, yes: bool)
    ensures
        !apply ==> next_after_plan(plan, apply, yes) is Finish,
        next_after_plan(plan, apply, yes) is Apply ==> apply && yes,
{
}

} // verus!
