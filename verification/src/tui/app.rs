//! The terminal interface as a state machine: the four-step wizard, what each
//! key press and click does to it, and what work it hands to the front-end.
//!
//! Nothing here touches the terminal or the disk. The front-end turns terminal
//! events into [`KeyPress`] and [`Hit`] values, carries out the [`Command`]
//! each step returns (checking a folder, scanning, browsing, renaming), and
//! reports the results back.

use vstd::prelude::*;

use crate::applying::{first_error, joined_changes, ApplyResult, PlanChanged, PreparedOperation};
use crate::paths::{display_path, file_name, shown_name, shown_path};
use crate::planning::{
    decimal, decimal_string, subtitle_extensions_spec, trim_text, trimmed, video_extensions_spec,
    PlanOptions, RenamePlan,
};
use crate::presentation::{level_position, level_score, plural, MatchLevel};
use crate::similarity::Score;
use crate::text::{chars_of, concat, views};
use crate::tui::input::{back_over_segment, back_over_separators, TextInput};

verus! {

/// Where the keyboard is.
#[derive(Clone, Copy, Debug, PartialEq, Eq, Structural)]
pub enum Focus {
    Directory,
    Recursive,
    Strict,
    Level,
    Results,
}

/// The position of a focus in the order the tab key walks.
pub open spec fn focus_position(focus: Focus) -> int {
    match focus {
        Focus::Directory => 0,
        Focus::Recursive => 1,
        Focus::Strict => 2,
        Focus::Level => 3,
        Focus::Results => 4,
    }
}

impl Focus {
    fn position(self) -> (r: i64)
        ensures
            r == focus_position(self),
    {
        match self {
            Focus::Directory => 0,
            Focus::Recursive => 1,
            Focus::Strict => 2,
            Focus::Level => 3,
            Focus::Results => 4,
        }
    }

    fn at(position: i64) -> (r: Focus)
        requires
            0 <= position < 5,
        ensures
            focus_position(r) == position,
    {
        if position == 0 {
            Focus::Directory
        } else if position == 1 {
            Focus::Recursive
        } else if position == 2 {
            Focus::Strict
        } else if position == 3 {
            Focus::Level
        } else {
            Focus::Results
        }
    }

    /// The focus `delta` places along the tab order, wrapping around at both
    /// ends.
    #[verifier::spinoff_prover]
    pub fn step(self, delta: isize) -> (r: Focus)
        ensures
            focus_position(r) == (focus_position(self) + delta) % 5,
    {
        let current = self.position() as i128;
        let moved = current + delta as i128;
        let wrapped = ((moved % 5) + 5) % 5;
        proof {
            assert(wrapped == (focus_position(self) + delta) % 5) by (nonlinear_arith)
                requires
                    moved == focus_position(self) + delta,
                    wrapped == ((moved % 5) + 5) % 5,
            ;
        }
        Focus::at(wrapped as i64)
    }
}

#[derive(Clone, Copy, Debug, PartialEq, Eq, Structural)]
pub enum Tab {
    Matched,
    Skipped,
}

#[derive(Clone, Copy, Debug, PartialEq, Eq, Structural)]
pub enum StatusKind {
    Ready,
    Working,
    Success,
    Demo,
    Error,
}

/// The status line: what just happened, and how it went.
pub struct Status {
    pub text: String,
    pub kind: StatusKind,
}

impl Status {
    pub fn new(text: &str, kind: StatusKind) -> (r: Status)
        ensures
            r.text@ == text@,
            r.kind == kind,
    {
        Status { text: text.to_owned(), kind }
    }
}

/// The row a highlight moves to: `delta` rows from the current one (the first
/// when none is, the last when it is past the end), kept inside a list of
/// `count` rows; nothing in an empty list.
pub open spec fn moved_selection(selected: Option<usize>, count: int, delta: int) -> Option<usize> {
    if count <= 0 {
        None
    } else {
        let current: int = match selected {
            Some(s) => if s < count { s as int } else { count - 1 },
            None => 0,
        };
        let moved = current + delta;
        Some((if moved < 0 {
            0
        } else if moved > count - 1 {
            count - 1
        } else {
            moved
        }) as usize)
    }
}

/// Move a list highlight by `delta`, staying inside `0..count`.
pub fn move_selection(selected: Option<usize>, count: usize, delta: isize) -> (r: Option<usize>)
    requires
        count <= isize::MAX,
    ensures
        r == moved_selection(selected, count as int, delta as int),
        r matches Some(i) ==> i < count,
{
    if count == 0 {
        return None;
    }
    let current: i128 = match selected {
        Some(s) => if s < count { s as i128 } else { (count - 1) as i128 },
        None => 0,
    };
    let last = (count - 1) as i128;
    let moved = current + delta as i128;
    let clamped = if moved < 0 {
        0
    } else if moved > last {
        last
    } else {
        moved
    };
    Some(clamped as usize)
}

// ------------------------------------------------------------------ the wizard

/// The four steps of the wizard, left to right.
#[derive(Clone, Copy, Debug, PartialEq, Eq, Structural)]
pub enum Step {
    Folder,
    Rules,
    Preview,
    Apply,
}

/// Where a step sits in the bar of dots.
pub open spec fn step_index(step: Step) -> int {
    match step {
        Step::Folder => 0,
        Step::Rules => 1,
        Step::Preview => 2,
        Step::Apply => 3,
    }
}

impl Step {
    /// Every step, in order.
    pub fn all() -> (r: [Step; 4])
        ensures
            r@ == seq![Step::Folder, Step::Rules, Step::Preview, Step::Apply],
    {
        [Step::Folder, Step::Rules, Step::Preview, Step::Apply]
    }

    pub fn label(self) -> (r: &'static str)
        ensures
            r@ == match self {
                Step::Folder => "Folder"@,
                Step::Rules => "Rules"@,
                Step::Preview => "Preview"@,
                Step::Apply => "Apply"@,
            },
    {
        match self {
            Step::Folder => "Folder",
            Step::Rules => "Rules",
            Step::Preview => "Preview",
            Step::Apply => "Apply",
        }
    }

    pub fn index(self) -> (r: usize)
        ensures
            r == step_index(self),
    {
        match self {
            Step::Folder => 0,
            Step::Rules => 1,
            Step::Preview => 2,
            Step::Apply => 3,
        }
    }
}

/// What can hold the keyboard within a step.
#[derive(Clone, Copy, Debug, PartialEq, Eq, Structural)]
pub enum Control {
    Path,
    Browse,
    Level,
    Recursive,
    List,
    Back,
    Advance,
    Again,
}

/// The controls of each step, in the order the tab key walks them.
pub open spec fn controls_of(step: Step) -> Seq<Control> {
    match step {
        Step::Folder => seq![Control::Path, Control::Browse, Control::Advance],
        Step::Rules => seq![Control::Level, Control::Recursive, Control::Back, Control::Advance],
        Step::Preview => seq![Control::List, Control::Back, Control::Advance],
        Step::Apply => seq![Control::Again],
    }
}

/// The controls of `step`.
pub fn controls(step: Step) -> (r: Vec<Control>)
    ensures
        r@ == controls_of(step),
{
    let r = match step {
        Step::Folder => vec![Control::Path, Control::Browse, Control::Advance],
        Step::Rules => vec![Control::Level, Control::Recursive, Control::Back, Control::Advance],
        Step::Preview => vec![Control::List, Control::Back, Control::Advance],
        Step::Apply => vec![Control::Again],
    };
    assert(r@ =~= controls_of(step));
    r
}

/// What a left click can land on, registered by the draw pass as rectangles.
///
/// Rows carry their index, so one variant per kind of target is all the
/// dispatch needs.
#[derive(Clone, Copy, Debug, PartialEq, Eq, Structural)]
pub enum Hit {
    Dot(usize),
    Control(Control),
    LevelRow(usize),
    Row(usize),
    Skipped,
    TickAll,
    TickNone,
    Help,
    Quit,
    CloseModal,
    PickerRow(usize),
    PickerParent,
    PickerUse,
    PickerCancel,
    ConfirmApply,
    ConfirmCancel,
}

/// A key, as far as the interface tells keys apart.
#[derive(Clone, Copy, Debug, PartialEq, Eq, Structural)]
pub enum Key {
    Char(char),
    Enter,
    Esc,
    Tab,
    BackTab,
    Up,
    Down,
    Left,
    Right,
    Home,
    End,
    PageUp,
    PageDown,
    Backspace,
    Delete,
    F(u8),
    Other,
}

/// A key press with the modifiers the interface reads.
#[derive(Clone, Copy, Debug, PartialEq, Eq, Structural)]
pub struct KeyPress {
    pub key: Key,
    pub control: bool,
    pub alt: bool,
}

/// A change to the path field.
#[derive(Clone, Copy, Debug, PartialEq, Eq, Structural)]
pub enum Edit {
    Backspace,
    Delete,
    Left,
    Right,
    Home,
    End,
    DeleteWord,
    Clear,
}

/// What the folder browser should do; the front-end owns its listing.
#[derive(Clone, Copy, Debug, PartialEq, Eq, Structural)]
pub enum PickerMove {
    By(isize),
    Select(usize),
    Enter,
    Leave,
    Use,
}

/// What a key press or a click asks of the wizard.
#[derive(Clone, Copy, Debug, PartialEq, Eq, Structural)]
pub enum Action {
    Nothing,
    Quit,
    OpenHelp,
    CloseModal,
    FocusNext,
    FocusPrevious,
    FocusPath,
    Type(char),
    Edit(Edit),
    Press(Control),
    Click(Control),
    Advance,
    Back,
    Browse,
    LevelUp,
    LevelDown,
    SetLevel(usize),
    Move(isize),
    ClickRow(usize),
    Tick,
    TickAll(bool),
    ShowSkipped,
    SkippedBy(isize),
    Confirm,
    ApplyConfirmed,
    GoBackTo(usize),
    Picker(PickerMove),
}

/// A preview: a plan, the prepared renames, and the checkboxes over them.
pub struct Preview {
    pub plan: RenamePlan,
    pub prepared: Vec<PreparedOperation>,
    pub ticked: Vec<bool>,
    pub selected: Option<usize>,
}

pub enum Modal {
    Help,
    Confirm { count: usize, examples: Vec<String> },
    Picker,
    Skipped { selected: Option<usize> },
}

/// How the last apply ended.
pub enum Outcome {
    Done { applied: usize },
    Mixed { applied: usize, failed: usize, error: String },
    Refused { reason: String },
}

/// The wizard: everything the screen shows between frames.
///
/// The front-end draws it, turns terminal events into [`KeyPress`] and
/// [`Hit`] values, and carries out the [`Command`] each of them returns.
pub struct App {
    pub directory: TextInput,
    pub recursive: bool,
    pub level: MatchLevel,
    pub step: Step,
    /// Which of the step's controls holds the keyboard.
    pub focus: usize,
    pub preview: Option<Preview>,
    pub modal: Option<Modal>,
    pub status: Status,
    pub scanning: bool,
    pub applying: bool,
    /// Renames done, out of how many.
    pub progress: (usize, usize),
    pub outcome: Option<Outcome>,
    pub should_quit: bool,
    /// Tells the answer of the current scan from those of abandoned ones.
    pub generation: u64,
}

/// Work the front-end carries out for the wizard.
pub enum Command {
    Nothing,
    /// Check that the path names a folder, and report back with
    /// [`App::folder_checked`].
    CheckFolder(String),
    /// Plan the folder, and report back with [`App::scan_finished`].
    Scan { generation: u64, directory: String, options: PlanOptions },
    /// Open the folder browser at this path (the working folder when empty).
    Browse(String),
    Picker(PickerMove),
    /// Rename these prepared operations of the preview, and report back with
    /// [`App::apply_finished`].
    Apply { chosen: Vec<usize>, root: String, force: bool, verify: bool },
}

// ------------------------------------------------------------------ views

pub struct PreviewView {
    pub plan: RenamePlan,
    pub prepared: Seq<PreparedOperation>,
    pub ticked: Seq<bool>,
    pub selected: Option<usize>,
}

pub enum ModalView {
    Help,
    Confirm { count: usize, examples: Seq<Seq<char>> },
    Picker,
    Skipped { selected: Option<usize> },
}

pub enum OutcomeView {
    Done { applied: usize },
    Mixed { applied: usize, failed: usize, error: Seq<char> },
    Refused { reason: Seq<char> },
}

pub struct AppView {
    pub directory: (Seq<char>, usize, usize),
    pub recursive: bool,
    pub level: MatchLevel,
    pub step: Step,
    pub focus: usize,
    pub preview: Option<PreviewView>,
    pub modal: Option<ModalView>,
    pub status: (Seq<char>, StatusKind),
    pub scanning: bool,
    pub applying: bool,
    pub progress: (usize, usize),
    pub outcome: Option<OutcomeView>,
    pub should_quit: bool,
    pub generation: u64,
}

pub enum CommandView {
    Nothing,
    CheckFolder(Seq<char>),
    Scan {
        generation: u64,
        directory: Seq<char>,
        recursive: bool,
        strict: bool,
        overwrite: bool,
        min_score: Score,
        video_exts: Seq<Seq<char>>,
        sub_exts: Seq<Seq<char>>,
    },
    Browse(Seq<char>),
    Picker(PickerMove),
    Apply { chosen: Seq<usize>, root: Seq<char>, force: bool, verify: bool },
}

impl View for Preview {
    type V = PreviewView;

    open spec fn view(&self) -> PreviewView {
        PreviewView { plan: self.plan, prepared: self.prepared@, ticked: self.ticked@, selected: self.selected }
    }
}

impl View for Modal {
    type V = ModalView;

    open spec fn view(&self) -> ModalView {
        match self {
            Modal::Help => ModalView::Help,
            Modal::Confirm { count, examples } => ModalView::Confirm { count: *count, examples: views(examples@) },
            Modal::Picker => ModalView::Picker,
            Modal::Skipped { selected } => ModalView::Skipped { selected: *selected },
        }
    }
}

impl View for Outcome {
    type V = OutcomeView;

    open spec fn view(&self) -> OutcomeView {
        match self {
            Outcome::Done { applied } => OutcomeView::Done { applied: *applied },
            Outcome::Mixed { applied, failed, error } => OutcomeView::Mixed { applied: *applied, failed: *failed, error: error@ },
            Outcome::Refused { reason } => OutcomeView::Refused { reason: reason@ },
        }
    }
}

pub open spec fn option_view<T: View>(o: Option<T>) -> Option<T::V> {
    match o {
        Some(x) => Some(x@),
        None => None,
    }
}

impl View for App {
    type V = AppView;

    open spec fn view(&self) -> AppView {
        AppView {
            directory: self.directory.state(),
            recursive: self.recursive,
            level: self.level,
            step: self.step,
            focus: self.focus,
            preview: option_view(self.preview),
            modal: option_view(self.modal),
            status: (self.status.text@, self.status.kind),
            scanning: self.scanning,
            applying: self.applying,
            progress: self.progress,
            outcome: option_view(self.outcome),
            should_quit: self.should_quit,
            generation: self.generation,
        }
    }
}

impl View for Command {
    type V = CommandView;

    open spec fn view(&self) -> CommandView {
        match self {
            Command::Nothing => CommandView::Nothing,
            Command::CheckFolder(path) => CommandView::CheckFolder(path@),
            Command::Scan { generation, directory, options } => CommandView::Scan {
                generation: *generation,
                directory: directory@,
                recursive: options.recursive,
                strict: options.strict,
                overwrite: options.overwrite_existing,
                min_score: options.min_score,
                video_exts: views(options.video_exts@),
                sub_exts: views(options.sub_exts@),
            },
            Command::Browse(path) => CommandView::Browse(path@),
            Command::Picker(m) => CommandView::Picker(*m),
            Command::Apply { chosen, root, force, verify } => CommandView::Apply { chosen: chosen@, root: root@, force: *force, verify: *verify },
        }
    }
}

// ------------------------------------------------------------ what happens

/// The generation after `g`, wrapping around.
pub open spec fn next_generation(g: u64) -> u64 {
    if g == u64::MAX {
        0
    } else {
        (g + 1) as u64
    }
}

/// The path field after an edit: its text, cursor, and scroll offset.
pub open spec fn edited(d: (Seq<char>, usize, usize), e: Edit) -> (Seq<char>, usize, usize) {
    let (t, c, o) = d;
    match e {
        Edit::Backspace => if c > 0 {
            (t.remove(c - 1), (c - 1) as usize, o)
        } else {
            d
        },
        Edit::Delete => if c < t.len() {
            (t.remove(c as int), c, o)
        } else {
            d
        },
        Edit::Left => (t, if c > 0 { (c - 1) as usize } else { 0usize }, o),
        Edit::Right => (t, if c < t.len() { (c + 1) as usize } else { t.len() as usize }, o),
        Edit::Home => (t, 0usize, o),
        Edit::End => (t, t.len() as usize, o),
        Edit::DeleteWord => {
            let start = back_over_segment(t, back_over_separators(t, c as int));
            (t.take(start) + t.skip(c as int), start as usize, o)
        },
        Edit::Clear => (Seq::empty(), 0usize, 0usize),
    }
}

/// Whether an edit may change the text, rather than only move the cursor.
pub open spec fn rewrites(e: Edit) -> bool {
    e is Backspace || e is Delete || e is DeleteWord || e is Clear
}

/// The indices of the ticked entries among the first `n`, in order.
pub open spec fn ticked_indices(ticked: Seq<bool>, n: int) -> Seq<usize>
    decreases n,
{
    if n <= 0 {
        seq![]
    } else if ticked[n - 1] {
        ticked_indices(ticked, n - 1).push((n - 1) as usize)
    } else {
        ticked_indices(ticked, n - 1)
    }
}

/// The indices of every ticked entry, in order.
pub open spec fn chosen_indices(ticked: Seq<bool>) -> Seq<usize> {
    ticked_indices(ticked, ticked.len() as int)
}

/// One line of the confirmation dialog: where a subtitle is, and what it will
/// be called.
pub open spec fn example_line(op: PreparedOperation, root: Seq<char>) -> Seq<char> {
    shown_path(op.operation.source@, root) + "  →  "@ + shown_name(op.operation.destination@)
}

/// How many renames the confirmation dialog spells out before summarising.
pub open spec fn example_limit() -> int {
    5
}

/// The first few chosen renames, as the confirmation dialog lists them.
pub open spec fn example_lines(p: PreviewView) -> Seq<Seq<char>> {
    let chosen = chosen_indices(p.ticked);
    let shown = if chosen.len() <= example_limit() { chosen } else { chosen.take(example_limit()) };
    shown.map_values(|i: usize| example_line(p.prepared[i as int], p.plan.root@))
}

/// A preview whose checkboxes and highlight fit its renames.
pub open spec fn preview_ok(p: PreviewView) -> bool {
    &&& p.ticked.len() == p.prepared.len()
    &&& p.prepared.len() == p.plan.operations@.len()
    &&& p.prepared.len() <= isize::MAX
    &&& p.selected matches Some(i) ==> i < p.prepared.len()
}

/// What the wizard keeps true between events.
pub open spec fn wizard_ok(s: AppView) -> bool {
    &&& s.directory.1 <= s.directory.0.len() <= usize::MAX / 3
    &&& s.focus < controls_of(s.step).len()
    &&& s.scanning ==> s.step == Step::Preview && s.preview is None
    &&& s.applying ==> s.step == Step::Apply
    &&& s.progress.0 <= s.progress.1
    &&& s.preview matches Some(p) ==> preview_ok(p)
}

/// The control that holds the keyboard.
pub open spec fn focused(s: AppView) -> Control {
    controls_of(s.step)[s.focus as int]
}

/// Where `c` sits among the controls of `step`, if it is one of them.
pub open spec fn control_index(step: Step, c: Control) -> Option<usize> {
    match step {
        Step::Folder => match c {
            Control::Path => Some(0usize),
            Control::Browse => Some(1usize),
            Control::Advance => Some(2usize),
            _ => None,
        },
        Step::Rules => match c {
            Control::Level => Some(0usize),
            Control::Recursive => Some(1usize),
            Control::Back => Some(2usize),
            Control::Advance => Some(3usize),
            _ => None,
        },
        Step::Preview => match c {
            Control::List => Some(0usize),
            Control::Back => Some(1usize),
            Control::Advance => Some(2usize),
            _ => None,
        },
        Step::Apply => match c {
            Control::Again => Some(0usize),
            _ => None,
        },
    }
}

/// The level at position `i`, as [`MatchLevel::from_index`] reads it.
pub open spec fn level_at(i: int) -> MatchLevel {
    if i == 0 {
        MatchLevel::Relaxed
    } else if i == 1 {
        MatchLevel::Balanced
    } else if i == 2 {
        MatchLevel::Cautious
    } else {
        MatchLevel::Balanced
    }
}

pub open spec fn with_status(s: AppView, text: Seq<char>, kind: StatusKind) -> AppView {
    AppView { status: (text, kind), ..s }
}

/// A changed option drops the preview and abandons a scan in flight, whose
/// answer would describe the old options.
pub open spec fn invalidated(s: AppView) -> AppView {
    let t = AppView {
        scanning: false,
        preview: None,
        generation: if s.scanning { next_generation(s.generation) } else { s.generation },
        ..s
    };
    if s.scanning || s.preview is Some {
        with_status(t, "Options changed — preview again"@, StatusKind::Ready)
    } else {
        t
    }
}

/// The scan every preview starts with: the typed folder, the chosen rules, and
/// never a suffix invented for a taken name nor an overwrite.
pub open spec fn scan_command(s: AppView, generation: u64) -> CommandView {
    CommandView::Scan {
        generation,
        directory: trimmed(s.directory.0),
        recursive: s.recursive,
        strict: true,
        overwrite: false,
        min_score: level_score(s.level),
        video_exts: video_extensions_spec(),
        sub_exts: subtitle_extensions_spec(),
    }
}

/// On to the preview step, scanning afresh.
pub open spec fn previewing(s: AppView) -> (AppView, CommandView) {
    let g = next_generation(s.generation);
    (
        AppView {
            step: Step::Preview,
            focus: 0,
            generation: g,
            scanning: true,
            preview: None,
            outcome: None,
            status: ("Scanning…"@, StatusKind::Working),
            ..s
        },
        scan_command(s, g),
    )
}

/// Back to an earlier step, abandoning a scan in flight.
pub open spec fn retreated(s: AppView, step: Step) -> AppView {
    AppView {
        step,
        focus: 0,
        scanning: false,
        generation: if s.scanning { next_generation(s.generation) } else { s.generation },
        ..s
    }
}

/// One step back; the first and the last step have nowhere to go back to.
pub open spec fn went_back(s: AppView) -> AppView {
    match s.step {
        Step::Rules => retreated(s, Step::Folder),
        Step::Preview => retreated(s, Step::Rules),
        _ => s,
    }
}

/// Whether the apply step can start now.
pub open spec fn can_apply_view(s: AppView) -> bool {
    &&& !s.scanning
    &&& !s.applying
    &&& s.preview matches Some(p) && chosen_indices(p.ticked).len() > 0
}

/// Ask before renaming, or say why there is nothing to ask about.
pub open spec fn confirming(s: AppView) -> AppView {
    if s.scanning || s.applying {
        s
    } else {
        match s.preview {
            None => with_status(s, "Nothing to apply — preview first"@, StatusKind::Error),
            Some(p) => if chosen_indices(p.ticked).len() == 0 {
                with_status(s, "Tick at least one subtitle"@, StatusKind::Error)
            } else {
                AppView {
                    modal: Some(ModalView::Confirm { count: chosen_indices(p.ticked).len() as usize, examples: example_lines(p) }),
                    ..s
                }
            },
        }
    }
}

/// The confirmation answered yes: rename the ticked entries, checking every
/// path again first and never overwriting.
pub open spec fn applying_now(s: AppView) -> (AppView, CommandView) {
    if s.modal matches Some(ModalView::Confirm { .. }) {
        match s.preview {
            Some(p) => if can_apply_view(s) {
                let chosen = chosen_indices(p.ticked);
                (
                    AppView {
                        modal: None,
                        applying: true,
                        progress: (0usize, chosen.len() as usize),
                        step: Step::Apply,
                        focus: 0,
                        outcome: None,
                        status: ("Applying…"@, StatusKind::Working),
                        ..s
                    },
                    CommandView::Apply { chosen, root: p.plan.root@, force: false, verify: true },
                )
            } else {
                (AppView { modal: None, ..s }, CommandView::Nothing)
            },
            None => (AppView { modal: None, ..s }, CommandView::Nothing),
        }
    } else {
        (s, CommandView::Nothing)
    }
}

/// Forward from the current step.
pub open spec fn advanced(s: AppView) -> (AppView, CommandView) {
    match s.step {
        Step::Folder => if trimmed(s.directory.0).len() == 0 {
            (with_status(s, "Enter a folder path first"@, StatusKind::Error), CommandView::Nothing)
        } else {
            (s, CommandView::CheckFolder(trimmed(s.directory.0)))
        },
        Step::Rules => previewing(s),
        Step::Preview => (confirming(s), CommandView::Nothing),
        Step::Apply => if s.applying {
            (s, CommandView::Nothing)
        } else {
            previewing(s)
        },
    }
}

/// A new match level; only a real change drops the preview.
pub open spec fn level_set(s: AppView, level: MatchLevel) -> AppView {
    if level == s.level {
        s
    } else {
        invalidated(AppView { level, ..s })
    }
}

pub open spec fn recursion_toggled(s: AppView) -> AppView {
    invalidated(AppView { recursive: !s.recursive, ..s })
}

/// A character typed into the path field, while the field has room for it.
pub open spec fn typed(s: AppView, ch: char) -> AppView {
    let (t, c, o) = s.directory;
    if t.len() < usize::MAX / 3 {
        invalidated(AppView { directory: (t.insert(c as int, ch), (c + 1) as usize, o), ..s })
    } else {
        s
    }
}

pub open spec fn edited_path(s: AppView, e: Edit) -> AppView {
    let moved = AppView { directory: edited(s.directory, e), ..s };
    if rewrites(e) {
        invalidated(moved)
    } else {
        moved
    }
}

pub open spec fn with_preview(s: AppView, p: PreviewView) -> AppView {
    AppView { preview: Some(p), ..s }
}

/// The highlight moved through the renames.
pub open spec fn moved_in_list(s: AppView, delta: int) -> AppView {
    match s.preview {
        Some(p) => if s.step == Step::Preview {
            with_preview(s, PreviewView { selected: moved_selection(p.selected, p.prepared.len() as int, delta), ..p })
        } else {
            s
        },
        None => s,
    }
}

/// The highlighted rename ticked or unticked.
pub open spec fn ticked_one(s: AppView) -> AppView {
    match s.preview {
        Some(p) => match p.selected {
            Some(i) => if s.step == Step::Preview && i < p.ticked.len() {
                with_preview(s, PreviewView { ticked: p.ticked.update(i as int, !p.ticked[i as int]), ..p })
            } else {
                s
            },
            None => s,
        },
        None => s,
    }
}

/// Every rename ticked, or none.
pub open spec fn ticked_every(s: AppView, value: bool) -> AppView {
    match s.preview {
        Some(p) => if s.step == Step::Preview {
            with_preview(s, PreviewView { ticked: Seq::new(p.ticked.len(), |k: int| value), ..p })
        } else {
            s
        },
        None => s,
    }
}

/// The list of skipped subtitles, when there are any.
pub open spec fn skipped_shown(s: AppView) -> AppView {
    match s.preview {
        Some(p) => if s.step == Step::Preview && p.plan.skipped@.len() > 0 {
            AppView { modal: Some(ModalView::Skipped { selected: Some(0usize) }), ..s }
        } else {
            s
        },
        None => s,
    }
}

pub open spec fn skipped_moved(s: AppView, delta: int) -> AppView {
    match (s.modal, s.preview) {
        (Some(ModalView::Skipped { selected }), Some(p)) => if p.plan.skipped@.len() <= isize::MAX {
            AppView { modal: Some(ModalView::Skipped { selected: moved_selection(selected, p.plan.skipped@.len() as int, delta) }), ..s }
        } else {
            s
        },
        _ => s,
    }
}

/// Quit, unless renames are under way.
pub open spec fn quitting(s: AppView) -> AppView {
    if s.applying {
        with_status(s, "Applying… wait for it to finish before quitting"@, StatusKind::Working)
    } else {
        AppView { should_quit: true, ..s }
    }
}

pub open spec fn browsing(s: AppView) -> (AppView, CommandView) {
    (AppView { modal: Some(ModalView::Picker), ..s }, CommandView::Browse(trimmed(s.directory.0)))
}

/// What pressing a control does.
pub open spec fn pressed(s: AppView, c: Control) -> (AppView, CommandView) {
    match c {
        Control::Path => (s, CommandView::Nothing),
        Control::Browse => browsing(s),
        Control::Level => (level_set(s, level_at((level_position(s.level) + 1) % 3)), CommandView::Nothing),
        Control::Recursive => (recursion_toggled(s), CommandView::Nothing),
        Control::List => (ticked_one(s), CommandView::Nothing),
        Control::Back => (went_back(s), CommandView::Nothing),
        Control::Advance => advanced(s),
        Control::Again => advanced(s),
    }
}

/// A click on a control moves the keyboard there and presses it.
pub open spec fn clicked(s: AppView, c: Control) -> (AppView, CommandView) {
    match control_index(s.step, c) {
        Some(k) => pressed(AppView { focus: k, ..s }, c),
        None => (s, CommandView::Nothing),
    }
}

/// The first click on a row highlights it, a second one ticks it.
pub open spec fn row_clicked(s: AppView, i: usize) -> AppView {
    match s.preview {
        Some(p) => if s.step == Step::Preview && i < p.prepared.len() {
            let again = s.focus == 0 && p.selected == Some(i);
            let highlighted = AppView { focus: 0, preview: Some(PreviewView { selected: Some(i), ..p }), ..s };
            if again {
                ticked_one(highlighted)
            } else {
                highlighted
            }
        } else {
            s
        },
        None => s,
    }
}

/// A dot walks back to a step already done.
pub open spec fn dot_clicked(s: AppView, i: usize) -> (AppView, CommandView) {
    if i == 0 && step_index(s.step) > 0 && step_index(s.step) < 3 {
        (retreated(s, Step::Folder), CommandView::Nothing)
    } else if i == 1 && s.step == Step::Preview {
        (retreated(s, Step::Rules), CommandView::Nothing)
    } else if i < 3 && s.step == Step::Apply && !s.applying {
        if i == 0 {
            (retreated(AppView { outcome: None, ..s }, Step::Folder), CommandView::Nothing)
        } else if i == 1 {
            (retreated(AppView { outcome: None, ..s }, Step::Rules), CommandView::Nothing)
        } else {
            previewing(s)
        }
    } else {
        (s, CommandView::Nothing)
    }
}

pub open spec fn focus_moved(s: AppView, forward: bool) -> AppView {
    let n = controls_of(s.step).len() as int;
    AppView { focus: (if forward { (s.focus + 1) % n } else { (s.focus + n - 1) % n }) as usize, ..s }
}

/// What an action does to the wizard, and what it asks of the front-end.
pub open spec fn act(s: AppView, a: Action) -> (AppView, CommandView) {
    match a {
        Action::Nothing => (s, CommandView::Nothing),
        Action::Quit => (quitting(s), CommandView::Nothing),
        Action::OpenHelp => (AppView { modal: Some(ModalView::Help), ..s }, CommandView::Nothing),
        Action::CloseModal => (AppView { modal: None, ..s }, CommandView::Nothing),
        Action::FocusNext => (focus_moved(s, true), CommandView::Nothing),
        Action::FocusPrevious => (focus_moved(s, false), CommandView::Nothing),
        Action::FocusPath => (if s.step == Step::Folder { AppView { focus: 0, ..s } } else { s }, CommandView::Nothing),
        Action::Type(ch) => (if s.step == Step::Folder { typed(s, ch) } else { s }, CommandView::Nothing),
        Action::Edit(e) => (if s.step == Step::Folder { edited_path(s, e) } else { s }, CommandView::Nothing),
        Action::Press(c) => pressed(s, c),
        Action::Click(c) => clicked(s, c),
        Action::Advance => advanced(s),
        Action::Back => (went_back(s), CommandView::Nothing),
        Action::Browse => if s.step == Step::Folder { browsing(s) } else { (s, CommandView::Nothing) },
        Action::LevelUp => (if level_position(s.level) > 0 { level_set(s, level_at(level_position(s.level) - 1)) } else { s }, CommandView::Nothing),
        Action::LevelDown => (if level_position(s.level) < 2 { level_set(s, level_at(level_position(s.level) + 1)) } else { s }, CommandView::Nothing),
        Action::SetLevel(i) => (if s.step == Step::Rules && i < 3 { level_set(AppView { focus: 0, ..s }, level_at(i as int)) } else { s }, CommandView::Nothing),
        Action::Move(delta) => (moved_in_list(s, delta as int), CommandView::Nothing),
        Action::ClickRow(i) => (row_clicked(s, i), CommandView::Nothing),
        Action::Tick => (ticked_one(s), CommandView::Nothing),
        Action::TickAll(value) => (ticked_every(s, value), CommandView::Nothing),
        Action::ShowSkipped => (skipped_shown(s), CommandView::Nothing),
        Action::SkippedBy(delta) => (skipped_moved(s, delta as int), CommandView::Nothing),
        Action::Confirm => (confirming(s), CommandView::Nothing),
        Action::ApplyConfirmed => applying_now(s),
        Action::GoBackTo(i) => dot_clicked(s, i),
        Action::Picker(m) => if s.modal == Some(ModalView::Picker) { (s, CommandView::Picker(m)) } else { (s, CommandView::Nothing) },
    }
}

// ------------------------------------------------------------------ the keymap

/// `k` is the plain character `c`.
pub open spec fn plain(k: KeyPress, c: char) -> bool {
    k.key == Key::Char(c) && !k.control
}

/// `k` is `c` held with control.
pub open spec fn with_control(k: KeyPress, c: char) -> bool {
    k.key == Key::Char(c) && k.control
}

/// Keys while the path field holds the keyboard: letters type, and the control
/// keys are the ones a shell prompt answers to.
pub open spec fn path_key(k: KeyPress) -> Action {
    match k.key {
        Key::Enter => Action::Advance,
        Key::Esc => Action::FocusNext,
        Key::Down => Action::FocusNext,
        Key::Up => Action::FocusPrevious,
        Key::Char(c) => if k.control {
            if c == 'a' {
                Action::Edit(Edit::Home)
            } else if c == 'e' {
                Action::Edit(Edit::End)
            } else if c == 'u' {
                Action::Edit(Edit::Clear)
            } else if c == 'w' {
                Action::Edit(Edit::DeleteWord)
            } else if c == 'o' {
                Action::Browse
            } else {
                Action::Nothing
            }
        } else {
            Action::Type(c)
        },
        Key::Backspace => if k.alt { Action::Edit(Edit::DeleteWord) } else { Action::Edit(Edit::Backspace) },
        Key::Delete => Action::Edit(Edit::Delete),
        Key::Left => Action::Edit(Edit::Left),
        Key::Right => Action::Edit(Edit::Right),
        Key::Home => Action::Edit(Edit::Home),
        Key::End => Action::Edit(Edit::End),
        _ => Action::Nothing,
    }
}

/// Keys on the first step, away from the path field.
pub open spec fn folder_key(c: Control, k: KeyPress) -> Action {
    if k.key == Key::Enter {
        Action::Advance
    } else if plain(k, ' ') {
        Action::Press(c)
    } else if plain(k, 'o') {
        Action::Browse
    } else if plain(k, 'i') || k.key == Key::Esc {
        Action::FocusPath
    } else if k.key == Key::Up || plain(k, 'k') {
        Action::FocusPrevious
    } else if k.key == Key::Down || plain(k, 'j') {
        Action::FocusNext
    } else if plain(k, '?') {
        Action::OpenHelp
    } else if plain(k, 'q') {
        Action::Quit
    } else {
        Action::Nothing
    }
}

/// Keys on the rules step: up and down walk the levels while they have the
/// keyboard, and the controls otherwise.
pub open spec fn rules_key(c: Control, k: KeyPress) -> Action {
    if k.key == Key::Up || plain(k, 'k') {
        if c == Control::Level { Action::LevelUp } else { Action::FocusPrevious }
    } else if k.key == Key::Down || plain(k, 'j') {
        if c == Control::Level { Action::LevelDown } else { Action::FocusNext }
    } else if plain(k, ' ') {
        Action::Press(c)
    } else if k.key == Key::Enter {
        if c == Control::Back { Action::Back } else { Action::Advance }
    } else if k.key == Key::Right || plain(k, 'l') {
        Action::Advance
    } else if k.key == Key::Left || plain(k, 'h') || k.key == Key::Esc {
        Action::Back
    } else if plain(k, '?') {
        Action::OpenHelp
    } else if plain(k, 'q') {
        Action::Quit
    } else {
        Action::Nothing
    }
}

/// Keys on the preview step: arrows and their vim twins move the highlight,
/// space ticks, and single letters act.
pub open spec fn preview_key(c: Control, k: KeyPress) -> Action {
    if with_control(k, 'a') {
        Action::TickAll(true)
    } else if with_control(k, 'r') {
        Action::TickAll(false)
    } else if with_control(k, 'd') {
        Action::Move(5isize)
    } else if with_control(k, 'u') {
        Action::Move(-5isize)
    } else if with_control(k, 'f') {
        Action::Move(10isize)
    } else if with_control(k, 'b') {
        Action::Move(-10isize)
    } else if k.key == Key::Up || plain(k, 'k') {
        if c == Control::List { Action::Move(-1isize) } else { Action::FocusPrevious }
    } else if k.key == Key::Down || plain(k, 'j') {
        if c == Control::List { Action::Move(1isize) } else { Action::FocusNext }
    } else if k.key == Key::PageUp {
        Action::Move(-10isize)
    } else if k.key == Key::PageDown {
        Action::Move(10isize)
    } else if k.key == Key::Home || plain(k, 'g') {
        Action::Move(isize::MIN)
    } else if k.key == Key::End || plain(k, 'G') {
        Action::Move(isize::MAX)
    } else if plain(k, ' ') {
        Action::Press(c)
    } else if k.key == Key::Enter {
        if c == Control::Back { Action::Back } else { Action::Confirm }
    } else if plain(k, 's') {
        Action::ShowSkipped
    } else if plain(k, 'a') {
        Action::Confirm
    } else if k.key == Key::Left || plain(k, 'h') || k.key == Key::Esc {
        Action::Back
    } else if plain(k, '?') {
        Action::OpenHelp
    } else if plain(k, 'q') {
        Action::Quit
    } else {
        Action::Nothing
    }
}

/// Keys on the last step, once the renames are done.
pub open spec fn apply_key(k: KeyPress) -> Action {
    if k.key == Key::Enter || plain(k, ' ') {
        Action::Advance
    } else if plain(k, 'q') || k.key == Key::Esc {
        Action::Quit
    } else if plain(k, '?') {
        Action::OpenHelp
    } else {
        Action::Nothing
    }
}

/// Keys while a dialog is open: only the dialog answers.
pub open spec fn modal_key(m: ModalView, k: KeyPress) -> Action {
    match m {
        ModalView::Help => if k.key == Key::Esc || k.key == Key::Enter || plain(k, '?') || plain(k, 'q') {
            Action::CloseModal
        } else {
            Action::Nothing
        },
        ModalView::Confirm { .. } => if k.key == Key::Enter || plain(k, 'y') {
            Action::ApplyConfirmed
        } else if k.key == Key::Esc || plain(k, 'n') || plain(k, 'q') {
            Action::CloseModal
        } else {
            Action::Nothing
        },
        ModalView::Skipped { .. } => if k.key == Key::Esc || plain(k, 's') || plain(k, 'q') {
            Action::CloseModal
        } else if k.key == Key::Up || plain(k, 'k') {
            Action::SkippedBy(-1isize)
        } else if k.key == Key::Down || plain(k, 'j') {
            Action::SkippedBy(1isize)
        } else if k.key == Key::PageUp {
            Action::SkippedBy(-10isize)
        } else if k.key == Key::PageDown {
            Action::SkippedBy(10isize)
        } else {
            Action::Nothing
        },
        ModalView::Picker => if k.key == Key::Up || plain(k, 'k') {
            Action::Picker(PickerMove::By(-1isize))
        } else if k.key == Key::Down || plain(k, 'j') {
            Action::Picker(PickerMove::By(1isize))
        } else if k.key == Key::PageUp {
            Action::Picker(PickerMove::By(-10isize))
        } else if k.key == Key::PageDown {
            Action::Picker(PickerMove::By(10isize))
        } else if with_control(k, 'u') {
            Action::Picker(PickerMove::By(-5isize))
        } else if with_control(k, 'd') {
            Action::Picker(PickerMove::By(5isize))
        } else if k.key == Key::Home || plain(k, 'g') {
            Action::Picker(PickerMove::By(isize::MIN))
        } else if k.key == Key::End || plain(k, 'G') {
            Action::Picker(PickerMove::By(isize::MAX))
        } else if k.key == Key::Enter || k.key == Key::Right || plain(k, 'l') {
            Action::Picker(PickerMove::Enter)
        } else if k.key == Key::Backspace || k.key == Key::Left || plain(k, 'h') {
            Action::Picker(PickerMove::Leave)
        } else if plain(k, 's') || plain(k, ' ') {
            Action::Picker(PickerMove::Use)
        } else if k.key == Key::Esc || plain(k, 'q') {
            Action::CloseModal
        } else {
            Action::Nothing
        },
    }
}

/// What a key asks for: control-c always quits (unless renames are under
/// way), a dialog takes every key while it is open, and otherwise the step and
/// the control holding the keyboard decide.
pub open spec fn key_action(s: AppView, k: KeyPress) -> Action {
    if with_control(k, 'c') {
        Action::Quit
    } else if s.applying {
        if plain(k, 'q') { Action::Quit } else { Action::Nothing }
    } else {
        match s.modal {
            Some(m) => modal_key(m, k),
            None => if k.key == Key::Tab {
                Action::FocusNext
            } else if k.key == Key::BackTab {
                Action::FocusPrevious
            } else if k.key == Key::F(1) {
                Action::OpenHelp
            } else if focused(s) == Control::Path {
                path_key(k)
            } else {
                match s.step {
                    Step::Folder => folder_key(focused(s), k),
                    Step::Rules => rules_key(focused(s), k),
                    Step::Preview => preview_key(focused(s), k),
                    Step::Apply => apply_key(k),
                }
            },
        }
    }
}

/// What a click asks for: inside a dialog only the dialog's own targets answer.
pub open spec fn hit_action(s: AppView, h: Hit) -> Action {
    if s.applying {
        if h == Hit::Quit { Action::Quit } else { Action::Nothing }
    } else {
        match s.modal {
            Some(m) => match h {
                Hit::CloseModal => Action::CloseModal,
                Hit::PickerCancel => if m is Picker { Action::CloseModal } else { Action::Nothing },
                Hit::PickerRow(i) => Action::Picker(PickerMove::Select(i)),
                Hit::PickerParent => Action::Picker(PickerMove::Leave),
                Hit::PickerUse => Action::Picker(PickerMove::Use),
                Hit::ConfirmApply => if m is Confirm { Action::ApplyConfirmed } else { Action::Nothing },
                Hit::ConfirmCancel => if m is Confirm { Action::CloseModal } else { Action::Nothing },
                _ => Action::Nothing,
            },
            None => match h {
                Hit::Dot(i) => Action::GoBackTo(i),
                Hit::Control(c) => Action::Click(c),
                Hit::LevelRow(i) => Action::SetLevel(i),
                Hit::Row(i) => Action::ClickRow(i),
                Hit::Skipped => Action::ShowSkipped,
                Hit::TickAll => Action::TickAll(true),
                Hit::TickNone => Action::TickAll(false),
                Hit::Help => Action::OpenHelp,
                Hit::Quit => Action::Quit,
                _ => Action::Nothing,
            },
        }
    }
}

/// What a turn of the wheel asks for: it moves whatever list is in front.
pub open spec fn scroll_action(s: AppView, delta: isize) -> Action {
    if s.applying {
        Action::Nothing
    } else {
        match s.modal {
            Some(ModalView::Picker) => Action::Picker(PickerMove::By(delta)),
            Some(ModalView::Skipped { .. }) => Action::SkippedBy(delta),
            Some(_) => Action::Nothing,
            None => if s.step == Step::Preview { Action::Move(delta) } else { Action::Nothing },
        }
    }
}

// ------------------------------------------------------------ reports back

/// The answer to a folder check.
pub open spec fn folder_answer(s: AppView, is_folder: bool) -> AppView {
    if s.step != Step::Folder {
        s
    } else if is_folder {
        AppView { step: Step::Rules, focus: 0, status: ("Choose how closely names must match"@, StatusKind::Ready), ..s }
    } else {
        with_status(s, "Not a folder: "@ + trimmed(s.directory.0), StatusKind::Error)
    }
}

/// The status line once a scan has planned something.
pub open spec fn scan_status(plan: RenamePlan) -> (Seq<char>, StatusKind) {
    if plan.video_count == 0 {
        ("No video files in this directory"@, StatusKind::Error)
    } else if plan.subtitle_count == 0 {
        ("No subtitle files in this directory"@, StatusKind::Error)
    } else {
        ("Preview ready"@, StatusKind::Success)
    }
}

/// A fresh preview of `plan`: everything ticked, the first rename highlighted.
pub open spec fn fresh_preview(plan: RenamePlan, prepared: Seq<PreparedOperation>) -> PreviewView {
    PreviewView {
        plan,
        prepared,
        ticked: Seq::new(prepared.len(), |k: int| true),
        selected: if prepared.len() > 0 { Some(0usize) } else { None },
    }
}

/// The answer to a scan. Only the answer to the scan in flight counts; one that
/// an option change or a step back has abandoned changes nothing.
pub open spec fn scan_answer(s: AppView, generation: u64, result: Result<(RenamePlan, Seq<PreparedOperation>), Seq<char>>) -> AppView {
    if !s.scanning || generation != s.generation {
        s
    } else {
        match result {
            Ok((plan, prepared)) => if prepared.len() == plan.operations@.len() && prepared.len() <= isize::MAX {
                AppView { scanning: false, focus: 0, preview: Some(fresh_preview(plan, prepared)), status: scan_status(plan), ..s }
            } else {
                AppView { scanning: false, status: ("Scan failed: the prepared renames do not match the plan"@, StatusKind::Error), ..s }
            },
            Err(message) => AppView { scanning: false, status: ("Scan failed: "@ + message, StatusKind::Error), ..s },
        }
    }
}

/// Renames done so far.
pub open spec fn progress_answer(s: AppView, done: usize) -> AppView {
    if s.applying {
        AppView { progress: (if done < s.progress.1 { done } else { s.progress.1 }, s.progress.1), ..s }
    } else {
        s
    }
}

/// The first failure's message, as the status line quotes it.
pub open spec fn first_failure(r: ApplyResult) -> Seq<char> {
    if r.failed@.len() > 0 && r.failed@[0].error is Some {
        r.failed@[0].error->0@
    } else {
        "unknown error"@
    }
}

/// "file" or "files".
pub open spec fn files_word(n: nat) -> Seq<char> {
    if n == 1 { "file"@ } else { "files"@ }
}

/// The answer to an apply. The old preview describes files that have moved, so
/// it goes; the next run scans again.
pub open spec fn apply_answer(s: AppView, result: Result<ApplyResult, PlanChanged>) -> AppView {
    if !s.applying {
        s
    } else {
        let done = AppView { applying: false, preview: None, ..s };
        match result {
            Ok(r) => {
                let applied = r.applied@.len();
                let failed = r.failed@.len();
                if failed == 0 {
                    AppView {
                        outcome: Some(OutcomeView::Done { applied: applied as usize }),
                        status: ("Renamed "@ + decimal(applied) + " "@ + files_word(applied), StatusKind::Success),
                        ..done
                    }
                } else if applied == 0 {
                    AppView {
                        outcome: Some(OutcomeView::Mixed { applied: 0, failed: failed as usize, error: first_failure(r) }),
                        status: (decimal(failed) + " renames failed: "@ + first_failure(r), StatusKind::Error),
                        ..done
                    }
                } else {
                    AppView {
                        outcome: Some(OutcomeView::Mixed { applied: applied as usize, failed: failed as usize, error: first_failure(r) }),
                        status: ("Renamed "@ + decimal(applied) + ", "@ + decimal(failed) + " failed: "@ + first_failure(r), StatusKind::Error),
                        ..done
                    }
                }
            },
            Err(changed) => AppView {
                outcome: Some(OutcomeView::Refused { reason: joined_changes(views(changed.changes@)) }),
                status: ("Files changed on disk — preview again: "@ + joined_changes(views(changed.changes@)), StatusKind::Error),
                ..done
            },
        }
    }
}

/// The browser's folder taken as the folder to scan.
pub open spec fn folder_used(s: AppView, path: Seq<char>) -> AppView {
    if s.modal != Some(ModalView::Picker) {
        s
    } else if path.len() <= usize::MAX / 3 && s.step == Step::Folder {
        invalidated(AppView { modal: None, directory: (path, path.len() as usize, 0usize), focus: 0, ..s })
    } else {
        AppView { modal: None, ..s }
    }
}

// ------------------------------------------------------------ the machine

/// The view of a scan's answer.
pub open spec fn scan_result_view(result: Result<(RenamePlan, Vec<PreparedOperation>), String>) -> Result<(RenamePlan, Seq<PreparedOperation>), Seq<char>> {
    match result {
        Ok((plan, prepared)) => Ok((plan, prepared@)),
        Err(message) => Err(message@),
    }
}

/// Where the wizard starts: an empty path field on the first step.
pub open spec fn start_view() -> AppView {
    AppView {
        directory: (Seq::empty(), 0usize, 0usize),
        recursive: false,
        level: MatchLevel::Balanced,
        step: Step::Folder,
        focus: 0,
        preview: None,
        modal: None,
        status: ("Type a folder path, then press Enter"@, StatusKind::Ready),
        scanning: false,
        applying: false,
        progress: (0usize, 0usize),
        outcome: None,
        should_quit: false,
        generation: 0,
    }
}

/// Each of the first `n` entries is below `n`.
proof fn lemma_ticked_indices(ticked: Seq<bool>, n: int)
    requires
        0 <= n <= ticked.len(),
    ensures
        ticked_indices(ticked, n).len() <= n,
        forall|k: int| 0 <= k < ticked_indices(ticked, n).len() ==> #[trigger] ticked_indices(ticked, n)[k] < n,
    decreases n,
{
    if n > 0 {
        lemma_ticked_indices(ticked, n - 1);
    }
}

/// The table of control positions agrees with the controls of each step.
pub proof fn lemma_control_index(step: Step, c: Control)
    ensures
        control_index(step, c) matches Some(k) ==> k < controls_of(step).len() && controls_of(step)[k as int] == c,
        control_index(step, c) is None ==> !controls_of(step).contains(c),
{
    if control_index(step, c) is None {
        if controls_of(step).contains(c) {
            let k = choose|k: int| 0 <= k < controls_of(step).len() && controls_of(step)[k] == c;
            assert(controls_of(step)[k] == c);
        }
    }
}

fn bump(g: u64) -> (r: u64)
    ensures
        r == next_generation(g),
{
    if g == u64::MAX {
        0
    } else {
        g + 1
    }
}

fn is_plain(k: KeyPress, c: char) -> (r: bool)
    ensures
        r == plain(k, c),
{
    match k.key {
        Key::Char(x) => x == c && !k.control,
        _ => false,
    }
}

fn is_control(k: KeyPress, c: char) -> (r: bool)
    ensures
        r == with_control(k, c),
{
    match k.key {
        Key::Char(x) => x == c && k.control,
        _ => false,
    }
}

/// The words above the rename list: how many of the renames are ticked.
pub open spec fn tally_text(ticked: nat, total: nat) -> Seq<char> {
    decimal(ticked) + " of "@ + decimal(total) + " ticked"@
}

/// The clickable note beside the tally: how many subtitles were skipped, and
/// the key that lists them.
pub open spec fn skipped_text(skipped: nat) -> Seq<char> {
    "   "@ + decimal(skipped) + " skipped (s)"@
}

impl Preview {
    /// The row of the rename at `index`: where the subtitle is, an arrow, and
    /// the name it will get.
    pub fn row_text(&self, index: usize) -> (r: String)
        requires
            index < self.prepared@.len(),
        ensures
            r@ == example_line(self.prepared@[index as int], self.plan.root@),
    {
        let op = &self.prepared[index];
        let place = display_path(op.source(), self.plan.root.as_str());
        let name = file_name(op.destination());
        let head = concat(place.as_str(), "  →  ");
        proof {
            reveal_strlit("  →  ");
        }
        concat(head.as_str(), name.as_str())
    }

    /// The tally above the rename list, such as `2 of 3 ticked`.
    pub fn tally(&self) -> (r: String)
        ensures
            r@ == tally_text(chosen_indices(self.ticked@).len(), self.prepared@.len()),
    {
        let ticked = self.ticked_count();
        let head = concat(decimal_string(ticked).as_str(), " of ");
        let middle = concat(head.as_str(), decimal_string(self.prepared.len()).as_str());
        proof {
            reveal_strlit(" of ");
            reveal_strlit(" ticked");
        }
        concat(middle.as_str(), " ticked")
    }

    /// The note on the skipped subtitles, such as `   4 skipped (s)`.
    pub fn skipped_note(&self) -> (r: String)
        ensures
            r@ == skipped_text(self.plan.skipped@.len()),
    {
        let head = concat("   ", decimal_string(self.plan.skipped.len()).as_str());
        proof {
            reveal_strlit("   ");
            reveal_strlit(" skipped (s)");
        }
        concat(head.as_str(), " skipped (s)")
    }

    /// How many renames are ticked.
    pub fn ticked_count(&self) -> (r: usize)
        ensures
            r == chosen_indices(self.ticked@).len(),
    {
        let mut count: usize = 0;
        let mut k: usize = 0;
        while k < self.ticked.len()
            invariant
                k <= self.ticked@.len(),
                count == ticked_indices(self.ticked@, k as int).len(),
                count <= k,
            decreases self.ticked.len() - k,
        {
            if self.ticked[k] {
                count += 1;
            }
            k += 1;
        }
        count
    }

    /// The indices of the ticked renames, in order.
    pub fn chosen(&self) -> (r: Vec<usize>)
        ensures
            r@ == chosen_indices(self.ticked@),
    {
        let mut out: Vec<usize> = Vec::new();
        let mut k: usize = 0;
        while k < self.ticked.len()
            invariant
                k <= self.ticked@.len(),
                out@ == ticked_indices(self.ticked@, k as int),
            decreases self.ticked.len() - k,
        {
            if self.ticked[k] {
                out.push(k);
            }
            k += 1;
        }
        out
    }
}

/// The first few chosen renames, as the confirmation dialog lists them.
fn example_lines_of(p: &Preview, chosen: &Vec<usize>) -> (r: Vec<String>)
    requires
        preview_ok(p@),
        chosen@ == chosen_indices(p.ticked@),
    ensures
        views(r@) == example_lines(p@),
{
    proof {
        lemma_ticked_indices(p.ticked@, p.ticked@.len() as int);
    }
    let limit: usize = if chosen.len() <= 5 { chosen.len() } else { 5 };
    let ghost shown = if chosen@.len() <= example_limit() { chosen@ } else { chosen@.take(example_limit()) };
    assert(shown.len() == limit);
    let mut out: Vec<String> = Vec::new();
    let mut k: usize = 0;
    while k < limit
        invariant
            k <= limit <= chosen@.len(),
            limit == shown.len(),
            preview_ok(p@),
            chosen@ == chosen_indices(p.ticked@),
            forall|m: int| 0 <= m < chosen@.len() ==> #[trigger] chosen@[m] < p.ticked@.len(),
            forall|m: int| 0 <= m < shown.len() ==> #[trigger] shown[m] == chosen@[m],
            views(out@) == shown.take(k as int).map_values(|i: usize| example_line(p.prepared@[i as int], p.plan.root@)),
        decreases limit - k,
    {
        let index = chosen[k];
        let line = p.row_text(index);
        assert(line@ == example_line(p.prepared@[index as int], p.plan.root@));
        let ghost before = out@;
        out.push(line);
        assert(views(out@) =~= views(before).push(line@));
        assert(shown.take(k + 1) =~= shown.take(k as int).push(shown[k as int]));
        k += 1;
        assert(views(out@) =~= shown.take(k as int).map_values(|i: usize| example_line(p.prepared@[i as int], p.plan.root@)));
    }
    assert(shown.take(limit as int) =~= shown);
    out
}

impl App {
    pub open spec fn wf(&self) -> bool {
        wizard_ok(self@)
    }

    pub fn new() -> (r: App)
        ensures
            r.wf(),
            r@ == start_view(),
    {
        App {
            directory: TextInput::new(),
            recursive: false,
            level: MatchLevel::Balanced,
            step: Step::Folder,
            focus: 0,
            preview: None,
            modal: None,
            status: Status::new("Type a folder path, then press Enter", StatusKind::Ready),
            scanning: false,
            applying: false,
            progress: (0, 0),
            outcome: None,
            should_quit: false,
            generation: 0,
        }
    }

    /// Start with a folder already filled in, as the command line may supply;
    /// a path too long for the field is left out.
    pub fn with_directory(self, directory: &str) -> (r: App)
        requires
            self.wf(),
        ensures
            r.wf(),
            directory@.len() <= usize::MAX / 3 ==> r@ == (AppView { directory: (directory@, directory@.len() as usize, 0usize), ..self@ }),
            directory@.len() > usize::MAX / 3 ==> r@ == self@,
    {
        let mut app = self;
        let characters = chars_of(directory);
        if characters.len() <= usize::MAX / 3 {
            app.directory.set_value(directory);
        }
        app
    }

    pub fn busy(&self) -> (r: bool)
        ensures
            r == (self.scanning || self.applying),
    {
        self.scanning || self.applying
    }

    /// Whether the apply step can start now.
    pub fn can_apply(&self) -> (r: bool)
        ensures
            r == can_apply_view(self@),
    {
        if self.scanning || self.applying {
            return false;
        }
        match &self.preview {
            Some(p) => p.ticked_count() > 0,
            None => false,
        }
    }

    /// The controls of the current step.
    pub fn controls(&self) -> (r: Vec<Control>)
        ensures
            r@ == controls_of(self.step),
    {
        controls(self.step)
    }

    /// The control that holds the keyboard.
    pub fn control(&self) -> (r: Control)
        requires
            self.wf(),
        ensures
            r == focused(self@),
    {
        let all = controls(self.step);
        all[self.focus]
    }

    pub fn is_focused(&self, control: Control) -> (r: bool)
        requires
            self.wf(),
        ensures
            r == (focused(self@) == control),
    {
        self.control() == control
    }

    fn set_status(&mut self, text: &str, kind: StatusKind)
        ensures
            final(self)@ == with_status(old(self)@, text@, kind),
    {
        self.status = Status::new(text, kind);
    }

    fn trimmed_directory(&self) -> (r: String)
        ensures
            r@ == trimmed(self.directory.state().0),
    {
        let value = self.directory.value();
        trim_text(value.as_str())
    }

    fn invalidate(&mut self)
        requires
            old(self).wf(),
        ensures
            final(self).wf(),
            final(self)@ == invalidated(old(self)@),
    {
        let changed = self.scanning || self.preview.is_some();
        if self.scanning {
            self.generation = bump(self.generation);
            self.scanning = false;
        }
        self.preview = None;
        if changed {
            self.set_status("Options changed — preview again", StatusKind::Ready);
        }
    }

    fn scan_command(&self, generation: u64) -> (r: Command)
        ensures
            r@ == scan_command(self@, generation),
    {
        let defaults = PlanOptions::default();
        let options = PlanOptions {
            recursive: self.recursive,
            strict: true,
            overwrite_existing: false,
            min_score: self.level.score(),
            video_exts: defaults.video_exts,
            sub_exts: defaults.sub_exts,
        };
        Command::Scan { generation, directory: self.trimmed_directory(), options }
    }

    fn start_preview(&mut self) -> (r: Command)
        requires
            old(self).wf(),
            !old(self).applying,
        ensures
            final(self).wf(),
            (final(self)@, r@) == previewing(old(self)@),
    {
        let generation = bump(self.generation);
        let command = self.scan_command(generation);
        self.step = Step::Preview;
        self.focus = 0;
        self.generation = generation;
        self.scanning = true;
        self.preview = None;
        self.outcome = None;
        self.set_status("Scanning…", StatusKind::Working);
        command
    }

    fn retreat(&mut self, step: Step)
        requires
            old(self).wf(),
            !old(self).applying,
        ensures
            final(self).wf(),
            final(self)@ == retreated(old(self)@, step),
    {
        if self.scanning {
            self.generation = bump(self.generation);
        }
        self.step = step;
        self.focus = 0;
        self.scanning = false;
    }

    fn go_back(&mut self)
        requires
            old(self).wf(),
        ensures
            final(self).wf(),
            final(self)@ == went_back(old(self)@),
    {
        match self.step {
            Step::Rules => self.retreat(Step::Folder),
            Step::Preview => self.retreat(Step::Rules),
            _ => {},
        }
    }

    fn quit(&mut self)
        requires
            old(self).wf(),
        ensures
            final(self).wf(),
            final(self)@ == quitting(old(self)@),
    {
        if self.applying {
            self.set_status("Applying… wait for it to finish before quitting", StatusKind::Working);
        } else {
            self.should_quit = true;
        }
    }

    fn move_focus(&mut self, forward: bool)
        requires
            old(self).wf(),
        ensures
            final(self).wf(),
            final(self)@ == focus_moved(old(self)@, forward),
    {
        let n = controls(self.step).len();
        self.focus = if forward { (self.focus + 1) % n } else { (self.focus + n - 1) % n };
    }

    fn type_character(&mut self, character: char)
        requires
            old(self).wf(),
            old(self).step == Step::Folder,
        ensures
            final(self).wf(),
            final(self)@ == typed(old(self)@, character),
    {
        if self.directory.len() < usize::MAX / 3 {
            self.directory.insert(character);
            self.invalidate();
        }
    }

    fn edit_path(&mut self, edit: Edit)
        requires
            old(self).wf(),
        ensures
            final(self).wf(),
            final(self)@ == edited_path(old(self)@, edit),
    {
        match edit {
            Edit::Backspace => self.directory.backspace(),
            Edit::Delete => self.directory.delete(),
            Edit::Left => self.directory.move_left(),
            Edit::Right => self.directory.move_right(),
            Edit::Home => self.directory.move_home(),
            Edit::End => self.directory.move_end(),
            Edit::DeleteWord => self.directory.delete_previous_word(),
            Edit::Clear => {
                proof {
                    reveal_strlit("");
                }
                self.directory.set_value("");
                assert(""@ =~= Seq::<char>::empty());
            },
        }
        let rewritten = match edit {
            Edit::Backspace | Edit::Delete | Edit::DeleteWord | Edit::Clear => true,
            _ => false,
        };
        if rewritten {
            self.invalidate();
        }
    }

    fn set_level(&mut self, level: MatchLevel)
        requires
            old(self).wf(),
        ensures
            final(self).wf(),
            final(self)@ == level_set(old(self)@, level),
    {
        if self.level != level {
            self.level = level;
            self.invalidate();
        }
    }

    fn toggle_recursive(&mut self)
        requires
            old(self).wf(),
        ensures
            final(self).wf(),
            final(self)@ == recursion_toggled(old(self)@),
    {
        self.recursive = !self.recursive;
        self.invalidate();
    }
}

impl App {
    fn move_in_list(&mut self, delta: isize)
        requires
            old(self).wf(),
        ensures
            final(self).wf(),
            final(self)@ == moved_in_list(old(self)@, delta as int),
    {
        if self.step == Step::Preview {
            let current = self.preview.take();
            match current {
                Some(mut p) => {
                    p.selected = move_selection(p.selected, p.prepared.len(), delta);
                    self.preview = Some(p);
                },
                None => {},
            }
        }
    }

    fn tick_highlighted(&mut self)
        requires
            old(self).wf(),
        ensures
            final(self).wf(),
            final(self)@ == ticked_one(old(self)@),
    {
        if self.step == Step::Preview {
            let current = self.preview.take();
            match current {
                Some(mut p) => {
                    match p.selected {
                        Some(i) => {
                            if i < p.ticked.len() {
                                let value = p.ticked[i];
                                p.ticked.set(i, !value);
                            }
                        },
                        None => {},
                    }
                    self.preview = Some(p);
                },
                None => {},
            }
        }
    }

    fn tick_all(&mut self, value: bool)
        requires
            old(self).wf(),
        ensures
            final(self).wf(),
            final(self)@ == ticked_every(old(self)@, value),
    {
        if self.step == Step::Preview {
            let current = self.preview.take();
            match current {
                Some(mut p) => {
                    let n = p.ticked.len();
                    let mut fresh: Vec<bool> = Vec::new();
                    while fresh.len() < n
                        invariant
                            fresh@.len() <= n,
                            forall|m: int| 0 <= m < fresh@.len() ==> #[trigger] fresh@[m] == value,
                        decreases n - fresh@.len(),
                    {
                        fresh.push(value);
                    }
                    assert(fresh@ =~= Seq::new(n as nat, |m: int| value));
                    p.ticked = fresh;
                    self.preview = Some(p);
                },
                None => {},
            }
        }
    }

    fn show_skipped(&mut self)
        requires
            old(self).wf(),
        ensures
            final(self).wf(),
            final(self)@ == skipped_shown(old(self)@),
    {
        let any = match &self.preview {
            Some(p) => self.step == Step::Preview && p.plan.skipped.len() > 0,
            None => false,
        };
        if any {
            self.modal = Some(Modal::Skipped { selected: Some(0) });
        }
    }

    fn move_in_skipped(&mut self, delta: isize)
        requires
            old(self).wf(),
        ensures
            final(self).wf(),
            final(self)@ == skipped_moved(old(self)@, delta as int),
    {
        let next = match (&self.modal, &self.preview) {
            (Some(Modal::Skipped { selected }), Some(p)) => {
                if p.plan.skipped.len() <= isize::MAX as usize {
                    Some(move_selection(*selected, p.plan.skipped.len(), delta))
                } else {
                    None
                }
            },
            _ => None,
        };
        match next {
            Some(selected) => {
                self.modal = Some(Modal::Skipped { selected });
            },
            None => {},
        }
    }

    fn confirm(&mut self)
        requires
            old(self).wf(),
        ensures
            final(self).wf(),
            final(self)@ == confirming(old(self)@),
    {
        if self.scanning || self.applying {
            return;
        }
        let dialog = match &self.preview {
            None => None,
            Some(p) => {
                let chosen = p.chosen();
                if chosen.len() == 0 {
                    None
                } else {
                    Some(Modal::Confirm { count: chosen.len(), examples: example_lines_of(p, &chosen) })
                }
            },
        };
        match dialog {
            Some(modal) => {
                self.modal = Some(modal);
            },
            None => {
                if self.preview.is_none() {
                    self.set_status("Nothing to apply — preview first", StatusKind::Error);
                } else {
                    self.set_status("Tick at least one subtitle", StatusKind::Error);
                }
            },
        }
    }

    fn start_apply(&mut self) -> (r: Command)
        requires
            old(self).wf(),
        ensures
            final(self).wf(),
            (final(self)@, r@) == applying_now(old(self)@),
    {
        let confirming = match &self.modal {
            Some(Modal::Confirm { .. }) => true,
            _ => false,
        };
        if !confirming {
            return Command::Nothing;
        }
        let ready = self.can_apply();
        let work = match &self.preview {
            Some(p) => if ready {
                Some((p.chosen(), p.plan.root.clone()))
            } else {
                None
            },
            None => None,
        };
        self.modal = None;
        match work {
            Some((chosen, root)) => {
                let count = chosen.len();
                self.applying = true;
                self.progress = (0, count);
                self.step = Step::Apply;
                self.focus = 0;
                self.outcome = None;
                self.set_status("Applying…", StatusKind::Working);
                Command::Apply { chosen, root, force: false, verify: true }
            },
            None => Command::Nothing,
        }
    }

    fn advance(&mut self) -> (r: Command)
        requires
            old(self).wf(),
        ensures
            final(self).wf(),
            (final(self)@, r@) == advanced(old(self)@),
    {
        match self.step {
            Step::Folder => {
                let path = self.trimmed_directory();
                if path.as_str().is_empty() {
                    self.set_status("Enter a folder path first", StatusKind::Error);
                    Command::Nothing
                } else {
                    Command::CheckFolder(path)
                }
            },
            Step::Rules => self.start_preview(),
            Step::Preview => {
                self.confirm();
                Command::Nothing
            },
            Step::Apply => if self.applying {
                Command::Nothing
            } else {
                self.start_preview()
            },
        }
    }

    fn browse(&mut self) -> (r: Command)
        requires
            old(self).wf(),
        ensures
            final(self).wf(),
            (final(self)@, r@) == browsing(old(self)@),
    {
        self.modal = Some(Modal::Picker);
        Command::Browse(self.trimmed_directory())
    }

    fn press(&mut self, control: Control) -> (r: Command)
        requires
            old(self).wf(),
        ensures
            final(self).wf(),
            (final(self)@, r@) == pressed(old(self)@, control),
    {
        match control {
            Control::Path => Command::Nothing,
            Control::Browse => self.browse(),
            Control::Level => {
                let next = (self.level.index() + 1) % 3;
                self.set_level(MatchLevel::from_index(next));
                Command::Nothing
            },
            Control::Recursive => {
                self.toggle_recursive();
                Command::Nothing
            },
            Control::List => {
                self.tick_highlighted();
                Command::Nothing
            },
            Control::Back => {
                self.go_back();
                Command::Nothing
            },
            Control::Advance => self.advance(),
            Control::Again => self.advance(),
        }
    }

    fn index_of_control(&self, control: Control) -> (r: Option<usize>)
        ensures
            r == control_index(self.step, control),
    {
        match self.step {
            Step::Folder => match control {
                Control::Path => Some(0),
                Control::Browse => Some(1),
                Control::Advance => Some(2),
                _ => None,
            },
            Step::Rules => match control {
                Control::Level => Some(0),
                Control::Recursive => Some(1),
                Control::Back => Some(2),
                Control::Advance => Some(3),
                _ => None,
            },
            Step::Preview => match control {
                Control::List => Some(0),
                Control::Back => Some(1),
                Control::Advance => Some(2),
                _ => None,
            },
            Step::Apply => match control {
                Control::Again => Some(0),
                _ => None,
            },
        }
    }

    fn click_control(&mut self, control: Control) -> (r: Command)
        requires
            old(self).wf(),
        ensures
            final(self).wf(),
            (final(self)@, r@) == clicked(old(self)@, control),
    {
        match self.index_of_control(control) {
            Some(k) => {
                proof {
                    lemma_control_index(self.step, control);
                }
                self.focus = k;
                self.press(control)
            },
            None => Command::Nothing,
        }
    }

    fn click_row(&mut self, index: usize)
        requires
            old(self).wf(),
        ensures
            final(self).wf(),
            final(self)@ == row_clicked(old(self)@, index),
    {
        if self.step != Step::Preview {
            return;
        }
        let again = match &self.preview {
            Some(p) => {
                if index < p.prepared.len() {
                    Some(self.focus == 0 && p.selected == Some(index))
                } else {
                    None
                }
            },
            None => None,
        };
        match again {
            Some(twice) => {
                let current = self.preview.take();
                match current {
                    Some(mut p) => {
                        p.selected = Some(index);
                        self.preview = Some(p);
                    },
                    None => {},
                }
                self.focus = 0;
                if twice {
                    self.tick_highlighted();
                }
            },
            None => {},
        }
    }

    fn click_dot(&mut self, index: usize) -> (r: Command)
        requires
            old(self).wf(),
        ensures
            final(self).wf(),
            (final(self)@, r@) == dot_clicked(old(self)@, index),
    {
        let position = self.step.index();
        if index == 0 && position > 0 && position < 3 {
            self.retreat(Step::Folder);
            Command::Nothing
        } else if index == 1 && self.step == Step::Preview {
            self.retreat(Step::Rules);
            Command::Nothing
        } else if index < 3 && self.step == Step::Apply && !self.applying {
            if index == 0 {
                self.outcome = None;
                self.retreat(Step::Folder);
                Command::Nothing
            } else if index == 1 {
                self.outcome = None;
                self.retreat(Step::Rules);
                Command::Nothing
            } else {
                self.start_preview()
            }
        } else {
            Command::Nothing
        }
    }
}

fn path_key_of(k: KeyPress) -> (r: Action)
    ensures
        r == path_key(k),
{
    match k.key {
        Key::Enter => Action::Advance,
        Key::Esc => Action::FocusNext,
        Key::Down => Action::FocusNext,
        Key::Up => Action::FocusPrevious,
        Key::Char(c) => if k.control {
            if c == 'a' {
                Action::Edit(Edit::Home)
            } else if c == 'e' {
                Action::Edit(Edit::End)
            } else if c == 'u' {
                Action::Edit(Edit::Clear)
            } else if c == 'w' {
                Action::Edit(Edit::DeleteWord)
            } else if c == 'o' {
                Action::Browse
            } else {
                Action::Nothing
            }
        } else {
            Action::Type(c)
        },
        Key::Backspace => if k.alt { Action::Edit(Edit::DeleteWord) } else { Action::Edit(Edit::Backspace) },
        Key::Delete => Action::Edit(Edit::Delete),
        Key::Left => Action::Edit(Edit::Left),
        Key::Right => Action::Edit(Edit::Right),
        Key::Home => Action::Edit(Edit::Home),
        Key::End => Action::Edit(Edit::End),
        _ => Action::Nothing,
    }
}

fn folder_key_of(c: Control, k: KeyPress) -> (r: Action)
    ensures
        r == folder_key(c, k),
{
    if k.key == Key::Enter {
        Action::Advance
    } else if is_plain(k, ' ') {
        Action::Press(c)
    } else if is_plain(k, 'o') {
        Action::Browse
    } else if is_plain(k, 'i') || k.key == Key::Esc {
        Action::FocusPath
    } else if k.key == Key::Up || is_plain(k, 'k') {
        Action::FocusPrevious
    } else if k.key == Key::Down || is_plain(k, 'j') {
        Action::FocusNext
    } else if is_plain(k, '?') {
        Action::OpenHelp
    } else if is_plain(k, 'q') {
        Action::Quit
    } else {
        Action::Nothing
    }
}

fn rules_key_of(c: Control, k: KeyPress) -> (r: Action)
    ensures
        r == rules_key(c, k),
{
    if k.key == Key::Up || is_plain(k, 'k') {
        if c == Control::Level { Action::LevelUp } else { Action::FocusPrevious }
    } else if k.key == Key::Down || is_plain(k, 'j') {
        if c == Control::Level { Action::LevelDown } else { Action::FocusNext }
    } else if is_plain(k, ' ') {
        Action::Press(c)
    } else if k.key == Key::Enter {
        if c == Control::Back { Action::Back } else { Action::Advance }
    } else if k.key == Key::Right || is_plain(k, 'l') {
        Action::Advance
    } else if k.key == Key::Left || is_plain(k, 'h') || k.key == Key::Esc {
        Action::Back
    } else if is_plain(k, '?') {
        Action::OpenHelp
    } else if is_plain(k, 'q') {
        Action::Quit
    } else {
        Action::Nothing
    }
}

fn preview_key_of(c: Control, k: KeyPress) -> (r: Action)
    ensures
        r == preview_key(c, k),
{
    if is_control(k, 'a') {
        Action::TickAll(true)
    } else if is_control(k, 'r') {
        Action::TickAll(false)
    } else if is_control(k, 'd') {
        Action::Move(5)
    } else if is_control(k, 'u') {
        Action::Move(-5)
    } else if is_control(k, 'f') {
        Action::Move(10)
    } else if is_control(k, 'b') {
        Action::Move(-10)
    } else if k.key == Key::Up || is_plain(k, 'k') {
        if c == Control::List { Action::Move(-1) } else { Action::FocusPrevious }
    } else if k.key == Key::Down || is_plain(k, 'j') {
        if c == Control::List { Action::Move(1) } else { Action::FocusNext }
    } else if k.key == Key::PageUp {
        Action::Move(-10)
    } else if k.key == Key::PageDown {
        Action::Move(10)
    } else if k.key == Key::Home || is_plain(k, 'g') {
        Action::Move(isize::MIN)
    } else if k.key == Key::End || is_plain(k, 'G') {
        Action::Move(isize::MAX)
    } else if is_plain(k, ' ') {
        Action::Press(c)
    } else if k.key == Key::Enter {
        if c == Control::Back { Action::Back } else { Action::Confirm }
    } else if is_plain(k, 's') {
        Action::ShowSkipped
    } else if is_plain(k, 'a') {
        Action::Confirm
    } else if k.key == Key::Left || is_plain(k, 'h') || k.key == Key::Esc {
        Action::Back
    } else if is_plain(k, '?') {
        Action::OpenHelp
    } else if is_plain(k, 'q') {
        Action::Quit
    } else {
        Action::Nothing
    }
}

fn apply_key_of(k: KeyPress) -> (r: Action)
    ensures
        r == apply_key(k),
{
    if k.key == Key::Enter || is_plain(k, ' ') {
        Action::Advance
    } else if is_plain(k, 'q') || k.key == Key::Esc {
        Action::Quit
    } else if is_plain(k, '?') {
        Action::OpenHelp
    } else {
        Action::Nothing
    }
}

fn modal_key_of(m: &Modal, k: KeyPress) -> (r: Action)
    ensures
        r == modal_key(m@, k),
{
    match m {
        Modal::Help => if k.key == Key::Esc || k.key == Key::Enter || is_plain(k, '?') || is_plain(k, 'q') {
            Action::CloseModal
        } else {
            Action::Nothing
        },
        Modal::Confirm { .. } => if k.key == Key::Enter || is_plain(k, 'y') {
            Action::ApplyConfirmed
        } else if k.key == Key::Esc || is_plain(k, 'n') || is_plain(k, 'q') {
            Action::CloseModal
        } else {
            Action::Nothing
        },
        Modal::Skipped { .. } => if k.key == Key::Esc || is_plain(k, 's') || is_plain(k, 'q') {
            Action::CloseModal
        } else if k.key == Key::Up || is_plain(k, 'k') {
            Action::SkippedBy(-1)
        } else if k.key == Key::Down || is_plain(k, 'j') {
            Action::SkippedBy(1)
        } else if k.key == Key::PageUp {
            Action::SkippedBy(-10)
        } else if k.key == Key::PageDown {
            Action::SkippedBy(10)
        } else {
            Action::Nothing
        },
        Modal::Picker => if k.key == Key::Up || is_plain(k, 'k') {
            Action::Picker(PickerMove::By(-1))
        } else if k.key == Key::Down || is_plain(k, 'j') {
            Action::Picker(PickerMove::By(1))
        } else if k.key == Key::PageUp {
            Action::Picker(PickerMove::By(-10))
        } else if k.key == Key::PageDown {
            Action::Picker(PickerMove::By(10))
        } else if is_control(k, 'u') {
            Action::Picker(PickerMove::By(-5))
        } else if is_control(k, 'd') {
            Action::Picker(PickerMove::By(5))
        } else if k.key == Key::Home || is_plain(k, 'g') {
            Action::Picker(PickerMove::By(isize::MIN))
        } else if k.key == Key::End || is_plain(k, 'G') {
            Action::Picker(PickerMove::By(isize::MAX))
        } else if k.key == Key::Enter || k.key == Key::Right || is_plain(k, 'l') {
            Action::Picker(PickerMove::Enter)
        } else if k.key == Key::Backspace || k.key == Key::Left || is_plain(k, 'h') {
            Action::Picker(PickerMove::Leave)
        } else if is_plain(k, 's') || is_plain(k, ' ') {
            Action::Picker(PickerMove::Use)
        } else if k.key == Key::Esc || is_plain(k, 'q') {
            Action::CloseModal
        } else {
            Action::Nothing
        },
    }
}

impl App {
    /// What `key` asks for in the current state.
    pub fn key_action(&self, key: KeyPress) -> (r: Action)
        requires
            self.wf(),
        ensures
            r == key_action(self@, key),
    {
        if is_control(key, 'c') {
            return Action::Quit;
        }
        if self.applying {
            return if is_plain(key, 'q') { Action::Quit } else { Action::Nothing };
        }
        match &self.modal {
            Some(m) => modal_key_of(m, key),
            None => {
                if key.key == Key::Tab {
                    Action::FocusNext
                } else if key.key == Key::BackTab {
                    Action::FocusPrevious
                } else if key.key == Key::F(1) {
                    Action::OpenHelp
                } else {
                    let control = self.control();
                    if control == Control::Path {
                        path_key_of(key)
                    } else {
                        match self.step {
                            Step::Folder => folder_key_of(control, key),
                            Step::Rules => rules_key_of(control, key),
                            Step::Preview => preview_key_of(control, key),
                            Step::Apply => apply_key_of(key),
                        }
                    }
                }
            },
        }
    }

    /// What a click on `hit` asks for in the current state.
    pub fn hit_action(&self, hit: Hit) -> (r: Action)
        ensures
            r == hit_action(self@, hit),
    {
        if self.applying {
            return if hit == Hit::Quit { Action::Quit } else { Action::Nothing };
        }
        match &self.modal {
            Some(m) => {
                let picker = match m {
                    Modal::Picker => true,
                    _ => false,
                };
                let confirm = match m {
                    Modal::Confirm { .. } => true,
                    _ => false,
                };
                match hit {
                    Hit::CloseModal => Action::CloseModal,
                    Hit::PickerCancel => if picker { Action::CloseModal } else { Action::Nothing },
                    Hit::PickerRow(i) => Action::Picker(PickerMove::Select(i)),
                    Hit::PickerParent => Action::Picker(PickerMove::Leave),
                    Hit::PickerUse => Action::Picker(PickerMove::Use),
                    Hit::ConfirmApply => if confirm { Action::ApplyConfirmed } else { Action::Nothing },
                    Hit::ConfirmCancel => if confirm { Action::CloseModal } else { Action::Nothing },
                    _ => Action::Nothing,
                }
            },
            None => match hit {
                Hit::Dot(i) => Action::GoBackTo(i),
                Hit::Control(c) => Action::Click(c),
                Hit::LevelRow(i) => Action::SetLevel(i),
                Hit::Row(i) => Action::ClickRow(i),
                Hit::Skipped => Action::ShowSkipped,
                Hit::TickAll => Action::TickAll(true),
                Hit::TickNone => Action::TickAll(false),
                Hit::Help => Action::OpenHelp,
                Hit::Quit => Action::Quit,
                _ => Action::Nothing,
            },
        }
    }

    /// What a turn of the wheel asks for in the current state.
    pub fn scroll_action(&self, delta: isize) -> (r: Action)
        ensures
            r == scroll_action(self@, delta),
    {
        if self.applying {
            return Action::Nothing;
        }
        match &self.modal {
            Some(Modal::Picker) => Action::Picker(PickerMove::By(delta)),
            Some(Modal::Skipped { .. }) => Action::SkippedBy(delta),
            Some(_) => Action::Nothing,
            None => if self.step == Step::Preview { Action::Move(delta) } else { Action::Nothing },
        }
    }

    /// Carry out `action`, and say what the front-end has to do for it.
    pub fn perform(&mut self, action: Action) -> (r: Command)
        requires
            old(self).wf(),
        ensures
            final(self).wf(),
            (final(self)@, r@) == act(old(self)@, action),
    {
        match action {
            Action::Nothing => Command::Nothing,
            Action::Quit => {
                self.quit();
                Command::Nothing
            },
            Action::OpenHelp => {
                self.modal = Some(Modal::Help);
                Command::Nothing
            },
            Action::CloseModal => {
                self.modal = None;
                Command::Nothing
            },
            Action::FocusNext => {
                self.move_focus(true);
                Command::Nothing
            },
            Action::FocusPrevious => {
                self.move_focus(false);
                Command::Nothing
            },
            Action::FocusPath => {
                if self.step == Step::Folder {
                    self.focus = 0;
                }
                Command::Nothing
            },
            Action::Type(character) => {
                if self.step == Step::Folder {
                    self.type_character(character);
                }
                Command::Nothing
            },
            Action::Edit(edit) => {
                if self.step == Step::Folder {
                    self.edit_path(edit);
                }
                Command::Nothing
            },
            Action::Press(control) => self.press(control),
            Action::Click(control) => self.click_control(control),
            Action::Advance => self.advance(),
            Action::Back => {
                self.go_back();
                Command::Nothing
            },
            Action::Browse => if self.step == Step::Folder {
                self.browse()
            } else {
                Command::Nothing
            },
            Action::LevelUp => {
                let position = self.level.index();
                if position > 0 {
                    self.set_level(MatchLevel::from_index(position - 1));
                }
                Command::Nothing
            },
            Action::LevelDown => {
                let position = self.level.index();
                if position < 2 {
                    self.set_level(MatchLevel::from_index(position + 1));
                }
                Command::Nothing
            },
            Action::SetLevel(index) => {
                if self.step == Step::Rules && index < 3 {
                    self.focus = 0;
                    self.set_level(MatchLevel::from_index(index));
                }
                Command::Nothing
            },
            Action::Move(delta) => {
                self.move_in_list(delta);
                Command::Nothing
            },
            Action::ClickRow(index) => {
                self.click_row(index);
                Command::Nothing
            },
            Action::Tick => {
                self.tick_highlighted();
                Command::Nothing
            },
            Action::TickAll(value) => {
                self.tick_all(value);
                Command::Nothing
            },
            Action::ShowSkipped => {
                self.show_skipped();
                Command::Nothing
            },
            Action::SkippedBy(delta) => {
                self.move_in_skipped(delta);
                Command::Nothing
            },
            Action::Confirm => {
                self.confirm();
                Command::Nothing
            },
            Action::ApplyConfirmed => self.start_apply(),
            Action::GoBackTo(index) => self.click_dot(index),
            Action::Picker(movement) => {
                let picker = match &self.modal {
                    Some(Modal::Picker) => true,
                    _ => false,
                };
                if picker {
                    Command::Picker(movement)
                } else {
                    Command::Nothing
                }
            },
        }
    }

    /// A key press: what it asks for, carried out.
    pub fn handle_key(&mut self, key: KeyPress) -> (r: Command)
        requires
            old(self).wf(),
        ensures
            final(self).wf(),
            (final(self)@, r@) == act(old(self)@, key_action(old(self)@, key)),
    {
        let action = self.key_action(key);
        self.perform(action)
    }

    /// A left click on `hit`: what it asks for, carried out.
    pub fn handle_click(&mut self, hit: Hit) -> (r: Command)
        requires
            old(self).wf(),
        ensures
            final(self).wf(),
            (final(self)@, r@) == act(old(self)@, hit_action(old(self)@, hit)),
    {
        let action = self.hit_action(hit);
        self.perform(action)
    }

    /// A turn of the wheel by `delta` rows.
    pub fn handle_scroll(&mut self, delta: isize) -> (r: Command)
        requires
            old(self).wf(),
        ensures
            final(self).wf(),
            (final(self)@, r@) == act(old(self)@, scroll_action(old(self)@, delta)),
    {
        let action = self.scroll_action(delta);
        self.perform(action)
    }
}

impl App {
    /// The answer to [`Command::CheckFolder`].
    pub fn folder_checked(&mut self, is_folder: bool)
        requires
            old(self).wf(),
        ensures
            final(self).wf(),
            final(self)@ == folder_answer(old(self)@, is_folder),
    {
        if self.step != Step::Folder {
            return;
        }
        if is_folder {
            self.step = Step::Rules;
            self.focus = 0;
            self.set_status("Choose how closely names must match", StatusKind::Ready);
        } else {
            let path = self.trimmed_directory();
            let text = concat("Not a folder: ", path.as_str());
            self.status = Status { text, kind: StatusKind::Error };
        }
    }

    /// The answer to [`Command::Scan`]: the plan and its prepared renames, or
    /// why the folder could not be planned.
    pub fn scan_finished(&mut self, generation: u64, result: Result<(RenamePlan, Vec<PreparedOperation>), String>)
        requires
            old(self).wf(),
        ensures
            final(self).wf(),
            final(self)@ == scan_answer(old(self)@, generation, scan_result_view(result)),
    {
        if !self.scanning || generation != self.generation {
            return;
        }
        match result {
            Ok((plan, prepared)) => {
                let n = prepared.len();
                if n == plan.operations.len() && n <= isize::MAX as usize {
                    let mut ticked: Vec<bool> = Vec::new();
                    while ticked.len() < n
                        invariant
                            ticked@.len() <= n,
                            forall|m: int| 0 <= m < ticked@.len() ==> #[trigger] ticked@[m],
                        decreases n - ticked@.len(),
                    {
                        ticked.push(true);
                    }
                    assert(ticked@ =~= Seq::new(n as nat, |m: int| true));
                    let selected = if n > 0 { Some(0) } else { None };
                    let status = if plan.video_count == 0 {
                        Status::new("No video files in this directory", StatusKind::Error)
                    } else if plan.subtitle_count == 0 {
                        Status::new("No subtitle files in this directory", StatusKind::Error)
                    } else {
                        Status::new("Preview ready", StatusKind::Success)
                    };
                    self.scanning = false;
                    self.focus = 0;
                    self.status = status;
                    self.preview = Some(Preview { plan, prepared, ticked, selected });
                } else {
                    self.scanning = false;
                    self.set_status("Scan failed: the prepared renames do not match the plan", StatusKind::Error);
                }
            },
            Err(message) => {
                self.scanning = false;
                let text = concat("Scan failed: ", message.as_str());
                self.status = Status { text, kind: StatusKind::Error };
            },
        }
    }

    /// How many renames are done.
    pub fn apply_progress(&mut self, done: usize)
        requires
            old(self).wf(),
        ensures
            final(self).wf(),
            final(self)@ == progress_answer(old(self)@, done),
    {
        if self.applying {
            let total = self.progress.1;
            self.progress = (if done < total { done } else { total }, total);
        }
    }

    /// The answer to [`Command::Apply`]: what was renamed and what failed, or
    /// the changes on disk that stopped the whole batch.
    pub fn apply_finished(&mut self, result: Result<ApplyResult, PlanChanged>)
        requires
            old(self).wf(),
        ensures
            final(self).wf(),
            final(self)@ == apply_answer(old(self)@, result),
    {
        if !self.applying {
            return;
        }
        self.applying = false;
        self.preview = None;
        match &result {
            Ok(r) => {
                let applied = r.applied.len();
                let failed = r.failed.len();
                if failed == 0 {
                    let count = decimal_string(applied);
                    let head = concat("Renamed ", count.as_str());
                    let spaced = concat(head.as_str(), " ");
                    let text = concat(spaced.as_str(), plural(applied, "file", "files"));
                    self.outcome = Some(Outcome::Done { applied });
                    self.status = Status { text, kind: StatusKind::Success };
                } else if applied == 0 {
                    let error = first_error(r);
                    let count = decimal_string(failed);
                    let head = concat(count.as_str(), " renames failed: ");
                    let text = concat(head.as_str(), error.as_str());
                    self.outcome = Some(Outcome::Mixed { applied: 0, failed, error });
                    self.status = Status { text, kind: StatusKind::Error };
                } else {
                    let error = first_error(r);
                    let done = decimal_string(applied);
                    let missed = decimal_string(failed);
                    let part1 = concat("Renamed ", done.as_str());
                    let part2 = concat(part1.as_str(), ", ");
                    let part3 = concat(part2.as_str(), missed.as_str());
                    let part4 = concat(part3.as_str(), " failed: ");
                    let text = concat(part4.as_str(), error.as_str());
                    self.outcome = Some(Outcome::Mixed { applied, failed, error });
                    self.status = Status { text, kind: StatusKind::Error };
                }
            },
            Err(changed) => {
                let reason = changed.message();
                let text = concat("Files changed on disk — preview again: ", reason.as_str());
                self.outcome = Some(Outcome::Refused { reason });
                self.status = Status { text, kind: StatusKind::Error };
            },
        }
    }

    /// The folder the browser shows, taken as the folder to scan.
    pub fn use_folder(&mut self, path: &str)
        requires
            old(self).wf(),
        ensures
            final(self).wf(),
            final(self)@ == folder_used(old(self)@, path@),
    {
        let picker = match &self.modal {
            Some(Modal::Picker) => true,
            _ => false,
        };
        if !picker {
            return;
        }
        let characters = chars_of(path);
        self.modal = None;
        if characters.len() <= usize::MAX / 3 && self.step == Step::Folder {
            self.directory.set_value(path);
            self.focus = 0;
            self.invalidate();
        }
    }
}

// ------------------------------------------------------------------ hints

/// The keys the control holding the keyboard answers to right now, as pairs of
/// a key and what it does; while work runs, only the way back.
pub open spec fn hint_list(s: AppView) -> Seq<(Seq<char>, Seq<char>)> {
    if s.scanning || s.applying {
        seq![("esc"@, "back"@)]
    } else if focused(s) == Control::Path {
        seq![("↵"@, "next"@), ("^o"@, "browse"@), ("↓"@, "leave"@)]
    } else {
        match s.step {
            Step::Folder => seq![("↹"@, "move"@), ("␣"@, "press"@), ("↵"@, "next"@)],
            Step::Rules => if focused(s) == Control::Level {
                seq![("↑↓"@, "level"@), ("←"@, "back"@), ("↵"@, "preview"@)]
            } else {
                seq![("␣"@, "toggle"@), ("←"@, "back"@), ("↵"@, "preview"@)]
            },
            Step::Preview => if focused(s) == Control::List {
                seq![("␣"@, "tick"@), ("^a/^r"@, "all/none"@), ("s"@, "skipped"@), ("←"@, "back"@), ("a"@, "apply"@)]
            } else {
                seq![("↹"@, "move"@), ("←"@, "back"@), ("a"@, "apply"@)]
            },
            Step::Apply => seq![("↵"@, "start over"@), ("q"@, "quit"@)],
        }
    }
}

pub open spec fn hint_views(hints: Seq<(&str, &str)>) -> Seq<(Seq<char>, Seq<char>)> {
    hints.map_values(|h: (&str, &str)| (h.0@, h.1@))
}

impl App {
    /// The key hints for the footer.
    pub fn hints(&self) -> (r: Vec<(&'static str, &'static str)>)
        requires
            self.wf(),
        ensures
            hint_views(r@) == hint_list(self@),
    {
        let r = if self.scanning || self.applying {
            vec![("esc", "back")]
        } else {
            let control = self.control();
            if control == Control::Path {
                vec![("↵", "next"), ("^o", "browse"), ("↓", "leave")]
            } else {
                match self.step {
                    Step::Folder => vec![("↹", "move"), ("␣", "press"), ("↵", "next")],
                    Step::Rules => if control == Control::Level {
                        vec![("↑↓", "level"), ("←", "back"), ("↵", "preview")]
                    } else {
                        vec![("␣", "toggle"), ("←", "back"), ("↵", "preview")]
                    },
                    Step::Preview => if control == Control::List {
                        vec![("␣", "tick"), ("^a/^r", "all/none"), ("s", "skipped"), ("←", "back"), ("a", "apply")]
                    } else {
                        vec![("↹", "move"), ("←", "back"), ("a", "apply")]
                    },
                    Step::Apply => vec![("↵", "start over"), ("q", "quit")],
                }
            }
        };
        assert(hint_views(r@) =~= hint_list(self@));
        r
    }
}

// ------------------------------------------------------------------ laws

/// Every scan the wizard asks for uses the chosen rules in strict mode and
/// never overwrites: the interface never invents a suffix for a taken name and
/// never replaces an existing file.
#[verifier::spinoff_prover]
pub proof fn lemma_scans_are_strict(s: AppView, a: Action)
    ensures
        act(s, a).1 matches CommandView::Scan { generation, recursive, strict, overwrite, min_score, .. } ==> {
            &&& strict
            &&& !overwrite
            &&& recursive == s.recursive
            &&& min_score == level_score(s.level)
            &&& generation == act(s, a).0.generation
            &&& act(s, a).0.scanning
        },
{
    match a {
        Action::Nothing => {},
        Action::Quit => {},
        Action::OpenHelp => {},
        Action::CloseModal => {},
        Action::FocusNext => {},
        Action::FocusPrevious => {},
        Action::FocusPath => {},
        Action::Type(_) => {},
        Action::Edit(_) => {},
        Action::Press(c) => {
            match c {
                Control::Path => {},
                Control::Browse => {},
                Control::Level => {},
                Control::Recursive => {},
                Control::List => {},
                Control::Back => {},
                Control::Advance => {},
                Control::Again => {},
            }
        },
        Action::Click(c) => {
            match c {
                Control::Path => {},
                Control::Browse => {},
                Control::Level => {},
                Control::Recursive => {},
                Control::List => {},
                Control::Back => {},
                Control::Advance => {},
                Control::Again => {},
            }
        },
        Action::Advance => {},
        Action::Back => {},
        Action::Browse => {},
        Action::LevelUp => {},
        Action::LevelDown => {},
        Action::SetLevel(_) => {},
        Action::Move(_) => {},
        Action::ClickRow(_) => {},
        Action::Tick => {},
        Action::TickAll(_) => {},
        Action::ShowSkipped => {},
        Action::SkippedBy(_) => {},
        Action::Confirm => {},
        Action::ApplyConfirmed => {},
        Action::GoBackTo(_) => {},
        Action::Picker(_) => {},
    }
}

/// Renames happen only after the confirmation dialog, only from a finished
/// preview with something ticked, exactly for the ticked renames in order, and
/// always re-checked and without overwriting.
#[verifier::spinoff_prover]
pub proof fn lemma_apply_only_what_is_ticked(s: AppView, a: Action)
    ensures
        act(s, a).1 matches CommandView::Apply { chosen, root, force, verify } ==> {
            &&& !force
            &&& verify
            &&& s.modal matches Some(ModalView::Confirm { .. })
            &&& !s.scanning
            &&& !s.applying
            &&& s.preview matches Some(p) && chosen == chosen_indices(p.ticked) && root == p.plan.root@
            &&& chosen.len() > 0
            &&& act(s, a).0.applying
        },
{
    match a {
        Action::Nothing => {},
        Action::Quit => {},
        Action::OpenHelp => {},
        Action::CloseModal => {},
        Action::FocusNext => {},
        Action::FocusPrevious => {},
        Action::FocusPath => {},
        Action::Type(_) => {},
        Action::Edit(_) => {},
        Action::Press(c) => {
            match c {
                Control::Path => {},
                Control::Browse => {},
                Control::Level => {},
                Control::Recursive => {},
                Control::List => {},
                Control::Back => {},
                Control::Advance => {},
                Control::Again => {},
            }
        },
        Action::Click(c) => {
            match c {
                Control::Path => {},
                Control::Browse => {},
                Control::Level => {},
                Control::Recursive => {},
                Control::List => {},
                Control::Back => {},
                Control::Advance => {},
                Control::Again => {},
            }
        },
        Action::Advance => {},
        Action::Back => {},
        Action::Browse => {},
        Action::LevelUp => {},
        Action::LevelDown => {},
        Action::SetLevel(_) => {},
        Action::Move(_) => {},
        Action::ClickRow(_) => {},
        Action::Tick => {},
        Action::TickAll(_) => {},
        Action::ShowSkipped => {},
        Action::SkippedBy(_) => {},
        Action::Confirm => {},
        Action::ApplyConfirmed => {},
        Action::GoBackTo(_) => {},
        Action::Picker(_) => {},
    }
}

/// Changing the folder, the match level or the subfolder switch drops the
/// preview, so nothing planned under the old options can be applied.
#[verifier::spinoff_prover]
pub proof fn lemma_changed_options_drop_the_preview(s: AppView, a: Action)
    ensures
        ({
            let t = act(s, a).0;
            (t.recursive != s.recursive || t.level != s.level || t.directory.0 != s.directory.0) ==> t.preview is None && !t.scanning
        }),
{
    match a {
        Action::Nothing => {},
        Action::Quit => {},
        Action::OpenHelp => {},
        Action::CloseModal => {},
        Action::FocusNext => {},
        Action::FocusPrevious => {},
        Action::FocusPath => {},
        Action::Type(_) => {},
        Action::Edit(_) => {},
        Action::Press(c) => {
            match c {
                Control::Path => {},
                Control::Browse => {},
                Control::Level => {},
                Control::Recursive => {},
                Control::List => {},
                Control::Back => {},
                Control::Advance => {},
                Control::Again => {},
            }
        },
        Action::Click(c) => {
            match c {
                Control::Path => {},
                Control::Browse => {},
                Control::Level => {},
                Control::Recursive => {},
                Control::List => {},
                Control::Back => {},
                Control::Advance => {},
                Control::Again => {},
            }
        },
        Action::Advance => {},
        Action::Back => {},
        Action::Browse => {},
        Action::LevelUp => {},
        Action::LevelDown => {},
        Action::SetLevel(_) => {},
        Action::Move(_) => {},
        Action::ClickRow(_) => {},
        Action::Tick => {},
        Action::TickAll(_) => {},
        Action::ShowSkipped => {},
        Action::SkippedBy(_) => {},
        Action::Confirm => {},
        Action::ApplyConfirmed => {},
        Action::GoBackTo(_) => {},
        Action::Picker(_) => {},
    }
}

/// A scan abandoned by an option change or a step back reports into the void:
/// only the answer carrying the current generation is taken.
pub proof fn lemma_abandoned_scans_change_nothing(s: AppView, generation: u64, result: Result<(RenamePlan, Seq<PreparedOperation>), Seq<char>>)
    requires
        generation != s.generation || !s.scanning,
    ensures
        scan_answer(s, generation, result) == s,
{
}

/// Stepping back while a scan runs abandons it: its answer no longer counts.
pub proof fn lemma_stepping_back_abandons_the_scan(s: AppView, result: Result<(RenamePlan, Seq<PreparedOperation>), Seq<char>>)
    requires
        wizard_ok(s),
        s.scanning,
    ensures
        ({
            let t = act(s, Action::Back).0;
            &&& !t.scanning
            &&& t.step == Step::Rules
            &&& scan_answer(t, s.generation, result) == t
        }),
{
}

/// Once renames finish, the old preview is gone and the outcome is on screen;
/// a new preview needs a new scan.
pub proof fn lemma_finished_applies_drop_the_preview(s: AppView, result: Result<ApplyResult, PlanChanged>)
    requires
        s.applying,
    ensures
        apply_answer(s, result).preview is None,
        !apply_answer(s, result).applying,
        apply_answer(s, result).outcome is Some,
        result is Err ==> apply_answer(s, result).outcome matches Some(OutcomeView::Refused { .. }),
{
}

} // verus!
