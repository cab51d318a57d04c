use beaver::applying::{prepare_operations, ApplyResult, FileState, PlanChanged, PreparedOperation};
use beaver::planning::{plan_virtual_files, MatchReason, PlanOptions, RenamePlan};
use beaver::presentation::MatchLevel;
use beaver::tui::app::{
    App, Command, Control, Hit, Key, KeyPress, Modal, Outcome, PickerMove, Step, StatusKind,
};

fn library() -> Vec<&'static str> {
    vec![
        "Nebula.Archive.S01E01.1080p.mkv",
        "Nebula.Archive.S01E02.1080p.mkv",
        "[Group] Nebula Archive - S01E01.chs.ass",
        "[Group] Nebula Archive - S01E02.chs.ass",
        "Unrelated.Bonus.srt",
    ]
}

/// A misspelt pair that only the looser match levels accept: the two stems score
/// 0.76, which sits above "balanced" but below "cautious".
fn fuzzy_library() -> Vec<&'static str> {
    vec!["Deep Field Report 2031.mkv", "Deep Feild Raport.srt"]
}

fn long_library() -> Vec<String> {
    let mut names = Vec::new();
    for episode in 1..=14 {
        names.push(format!("Harbour.S01E{episode:02}.mkv"));
        names.push(format!("[G] Harbour - S01E{episode:02}.chs.ass"));
    }
    names
}

fn key(key: Key) -> KeyPress {
    KeyPress { key, control: false, alt: false }
}

fn press(app: &mut App, code: Key) -> Command {
    app.handle_key(key(code))
}

fn press_control(app: &mut App, character: char) -> Command {
    app.handle_key(KeyPress { key: Key::Char(character), control: true, alt: false })
}

fn type_text(app: &mut App, text: &str) {
    for character in text.chars() {
        press(app, Key::Char(character));
    }
}

/// What the front-end does with a scan command: plan the names, as if they
/// were the folder's listing, and report back.
fn answer_scan(app: &mut App, command: Command, names: &[&str]) {
    let Command::Scan { generation, options, .. } = command else {
        panic!("expected a scan");
    };
    app.scan_finished(generation, Ok(planned(names, &options)));
}

fn planned(names: &[&str], options: &PlanOptions) -> (RenamePlan, Vec<PreparedOperation>) {
    let plan = plan_virtual_files(names, options);
    let states = vec![(FileState::missing(), FileState::missing()); plan.operations.len()];
    let prepared = prepare_operations(&plan, &states);
    (plan, prepared)
}

/// Step one to a settled preview, which is where most tests start.
fn walk_to_preview(app: &mut App, names: &[&str]) {
    if let Command::CheckFolder(_) = press(app, Key::Enter) {
        app.folder_checked(true);
    }
    assert_eq!(app.step, Step::Rules, "{}", app.status.text);
    let command = press(app, Key::Enter);
    answer_scan(app, command, names);
}

fn ticked(app: &App) -> (usize, usize) {
    let preview = app.preview.as_ref().unwrap();
    (preview.ticked_count(), preview.prepared.len())
}

fn selected(app: &App) -> Option<usize> {
    app.preview.as_ref().unwrap().selected
}

fn at_library() -> App {
    App::new().with_directory("/library")
}

#[test]
fn the_whole_wizard_types_previews_ticks_and_renames() {
    let mut app = App::new();
    type_text(&mut app, "/library");
    assert_eq!(app.directory.value(), "/library");

    let command = press(&mut app, Key::Enter);
    let Command::CheckFolder(path) = command else {
        panic!("expected a folder check");
    };
    assert_eq!(path, "/library");
    app.folder_checked(true);
    assert_eq!(app.step, Step::Rules);

    let command = press(&mut app, Key::Enter);
    let Command::Scan { directory, options, .. } = &command else {
        panic!("expected a scan");
    };
    assert_eq!(directory, "/library");
    // The interface never invents a suffix and never overwrites.
    assert!(options.strict);
    assert!(!options.overwrite_existing);
    assert!(app.scanning);
    answer_scan(&mut app, command, &library());
    assert_eq!(app.step, Step::Preview);

    assert_eq!(ticked(&app), (2, 2));
    let preview = app.preview.as_ref().unwrap();
    assert_eq!(preview.plan.skipped.len(), 1);
    assert!(matches!(&preview.prepared[0].operation.reason, MatchReason::Episode(key) if key == "S01E01"));
    assert!(preview.prepared[0].destination().ends_with("Nebula.Archive.S01E01.1080p.ass"));
    assert!(preview.prepared[1].destination().ends_with("Nebula.Archive.S01E02.1080p.ass"));
    assert_eq!(app.status.text, "Preview ready");
    assert!(app.is_focused(Control::List));
    assert!(app.can_apply());

    // Untick the highlighted rename; only the other one may be applied.
    press(&mut app, Key::Char(' '));
    assert_eq!(ticked(&app), (1, 2));

    press(&mut app, Key::Char('a'));
    let Some(Modal::Confirm { count, examples }) = app.modal.as_ref() else {
        panic!("expected the confirmation");
    };
    assert_eq!(*count, 1);
    assert_eq!(examples.len(), 1);
    assert!(examples[0].ends_with("Nebula.Archive.S01E02.1080p.ass"), "{}", examples[0]);

    let command = press(&mut app, Key::Enter);
    let Command::Apply { chosen, force, verify, .. } = command else {
        panic!("expected renames");
    };
    assert_eq!(chosen, vec![1]);
    assert!(!force);
    assert!(verify);
    assert_eq!(app.step, Step::Apply);
    assert!(app.applying);

    let mut result = ApplyResult::new();
    let operation = app.preview.as_ref().unwrap().prepared[1].duplicate();
    result.record(&operation, "/library", None);
    app.apply_progress(1);
    assert_eq!(app.progress, (1, 1));
    app.apply_finished(Ok(result));
    assert_eq!(app.step, Step::Apply);
    assert!(app.preview.is_none());
    assert!(matches!(app.outcome, Some(Outcome::Done { applied: 1 })));
    assert_eq!(app.status.text, "Renamed 1 file");

    // Start over scans again.
    let command = press(&mut app, Key::Enter);
    assert!(matches!(command, Command::Scan { .. }));
    assert_eq!(app.step, Step::Preview);
}

#[test]
fn the_wizard_walks_both_ways() {
    // An empty path is not a folder, so step one refuses to be left.
    let mut app = App::new();
    assert!(matches!(press(&mut app, Key::Enter), Command::Nothing));
    assert_eq!(app.step, Step::Folder);
    assert!(app.status.text.contains("Enter a folder path first"));

    // Nor is a path that points at nothing.
    let mut app = App::new().with_directory("/no/such/folder/here");
    assert!(matches!(press(&mut app, Key::Enter), Command::CheckFolder(_)));
    app.folder_checked(false);
    assert_eq!(app.step, Step::Folder);
    assert!(app.status.text.contains("Not a folder"), "{}", app.status.text);

    let mut app = at_library();
    press(&mut app, Key::Enter);
    app.folder_checked(true);
    assert_eq!(app.step, Step::Rules);
    press(&mut app, Key::Left);
    assert_eq!(app.step, Step::Folder);

    walk_to_preview(&mut app, &library());
    assert_eq!(app.step, Step::Preview);
    press(&mut app, Key::Left);
    assert_eq!(app.step, Step::Rules);
}

#[test]
fn changing_a_rule_drops_the_preview_and_rescans() {
    let mut app = at_library();
    walk_to_preview(&mut app, &library());
    assert!(app.can_apply());

    // Back to the rules, then onto the subfolder switch and flip it.
    press(&mut app, Key::Left);
    press(&mut app, Key::Tab);
    assert!(app.is_focused(Control::Recursive));
    press(&mut app, Key::Char(' '));
    assert!(app.recursive);
    assert!(app.preview.is_none());

    // The level does the same.
    let command = press(&mut app, Key::Enter);
    let Command::Scan { options, .. } = &command else {
        panic!("expected a scan");
    };
    assert!(options.recursive);
    answer_scan(&mut app, command, &library());
    press(&mut app, Key::Left);
    assert!(app.is_focused(Control::Level));
    press(&mut app, Key::Down);
    assert_eq!(app.level, MatchLevel::Cautious);
    assert!(app.preview.is_none());

    let command = press(&mut app, Key::Enter);
    let Command::Scan { options, .. } = &command else {
        panic!("expected a scan");
    };
    assert_eq!(options.min_score, MatchLevel::Cautious.score());
    answer_scan(&mut app, command, &library());
    assert_eq!(app.step, Step::Preview);
    assert_eq!(ticked(&app), (2, 2));
}

#[test]
fn bulk_ticking_moves_the_summary_line() {
    let mut app = at_library();
    walk_to_preview(&mut app, &library());

    press_control(&mut app, 'r');
    assert_eq!(ticked(&app), (0, 2));
    assert!(!app.can_apply());

    press_control(&mut app, 'a');
    assert_eq!(ticked(&app), (2, 2));
    assert!(app.can_apply());
}

#[test]
fn the_skipped_list_opens_and_closes() {
    let mut app = at_library();
    walk_to_preview(&mut app, &library());

    press(&mut app, Key::Char('s'));
    assert!(matches!(app.modal, Some(Modal::Skipped { selected: Some(0) })));
    let preview = app.preview.as_ref().unwrap();
    assert_eq!(preview.plan.skipped.len(), 1);
    assert!(preview.plan.skipped[0].path.ends_with("Unrelated.Bonus.srt"));

    press(&mut app, Key::Esc);
    assert!(app.modal.is_none());
}

#[test]
fn the_match_level_decides_whether_a_fuzzy_pair_matches() {
    let mut app = at_library();
    walk_to_preview(&mut app, &fuzzy_library());
    assert_eq!(ticked(&app), (1, 1));
    let preview = app.preview.as_ref().unwrap();
    assert!(matches!(preview.prepared[0].operation.reason, MatchReason::Fuzzy(_)));
    assert!(preview.prepared[0].destination().ends_with("Deep Field Report 2031.srt"));

    // Cautious asks for more than 0.76, so the pair falls out.
    press(&mut app, Key::Left);
    press(&mut app, Key::Down);
    assert_eq!(app.level, MatchLevel::Cautious);
    let command = press(&mut app, Key::Enter);
    answer_scan(&mut app, command, &fuzzy_library());
    assert_eq!(ticked(&app), (0, 0));
    assert!(!app.can_apply());

    // Relaxed takes it back.
    press(&mut app, Key::Left);
    press(&mut app, Key::Up);
    press(&mut app, Key::Up);
    assert_eq!(app.level, MatchLevel::Relaxed);
    let command = press(&mut app, Key::Enter);
    answer_scan(&mut app, command, &fuzzy_library());
    assert_eq!(ticked(&app), (1, 1));
}

#[test]
fn the_folder_picker_walks_and_fills_the_path_in() {
    let mut app = at_library();

    press(&mut app, Key::Esc);
    let command = press(&mut app, Key::Char('o'));
    let Command::Browse(start) = command else {
        panic!("expected the browser");
    };
    assert_eq!(start, "/library");
    assert!(matches!(app.modal, Some(Modal::Picker)));

    assert!(matches!(press(&mut app, Key::Down), Command::Picker(PickerMove::By(1))));
    assert!(matches!(press(&mut app, Key::Down), Command::Picker(PickerMove::By(1))));
    assert!(matches!(press(&mut app, Key::Up), Command::Picker(PickerMove::By(-1))));
    assert!(matches!(press(&mut app, Key::Enter), Command::Picker(PickerMove::Enter)));

    assert!(matches!(press(&mut app, Key::Char('s')), Command::Picker(PickerMove::Use)));
    app.use_folder("/library/season 2");
    assert!(app.modal.is_none());
    assert_eq!(app.step, Step::Folder);
    assert!(app.directory.value().ends_with("season 2"), "{}", app.directory.value());

    // The Use this folder button does the same as s.
    press(&mut app, Key::Esc);
    press(&mut app, Key::Char('o'));
    assert!(matches!(app.handle_click(Hit::PickerUse), Command::Picker(PickerMove::Use)));
    app.use_folder("/library/season 2");
    assert!(app.modal.is_none());
    assert!(app.directory.value().ends_with("season 2"));
}

#[test]
fn the_help_modal_lists_the_shortcuts_and_closes() {
    let mut app = at_library();
    press(&mut app, Key::Esc);
    press(&mut app, Key::Char('?'));
    assert!(matches!(app.modal, Some(Modal::Help)));

    press(&mut app, Key::Esc);
    assert!(app.modal.is_none());
}

#[test]
fn the_mouse_selects_ticks_toggles_and_steps_back() {
    let mut app = at_library();
    walk_to_preview(&mut app, &library());

    // The first click moves the highlight without touching any tick.
    app.handle_click(Hit::Row(1));
    assert!(app.is_focused(Control::List));
    assert_eq!(selected(&app), Some(1));
    assert!(app.preview.as_ref().unwrap().ticked[1]);

    // The second click on the same row unticks it.
    app.handle_click(Hit::Row(1));
    assert!(!app.preview.as_ref().unwrap().ticked[1]);
    assert_eq!(ticked(&app), (1, 2));

    // The wheel moves the highlight in the list underneath the pointer.
    app.handle_scroll(-3);
    assert_eq!(selected(&app), Some(0));

    // A dot behind the current step walks back to it.
    app.handle_click(Hit::Dot(0));
    assert_eq!(app.step, Step::Folder);

    // The subfolder switch flips under the pointer.
    if let Command::CheckFolder(_) = press(&mut app, Key::Enter) {
        app.folder_checked(true);
    }
    assert_eq!(app.step, Step::Rules);
    app.handle_click(Hit::Control(Control::Recursive));
    assert!(app.recursive);
    app.handle_click(Hit::Control(Control::Recursive));
    assert!(!app.recursive);
}

#[test]
fn the_step_bar_names_all_four_steps() {
    let labels: Vec<&str> = Step::all().into_iter().map(Step::label).collect();
    assert_eq!(labels, ["Folder", "Rules", "Preview", "Apply"]);
    assert_eq!(App::new().step.index() + 1, 1);
}

#[test]
fn the_jump_keys_keep_the_highlight_inside_a_long_list() {
    let names = long_library();
    let names: Vec<&str> = names.iter().map(String::as_str).collect();
    let mut app = at_library();
    walk_to_preview(&mut app, &names);

    assert_eq!(ticked(&app), (14, 14));
    assert_eq!(selected(&app), Some(0));

    press(&mut app, Key::Char('G'));
    assert_eq!(selected(&app), Some(13));
    press(&mut app, Key::Char('G'));
    assert_eq!(selected(&app), Some(13));
    press(&mut app, Key::Char('g'));
    assert_eq!(selected(&app), Some(0));

    press_control(&mut app, 'd');
    assert_eq!(selected(&app), Some(5));
    press_control(&mut app, 'u');
    assert_eq!(selected(&app), Some(0));
    press_control(&mut app, 'u');
    assert_eq!(selected(&app), Some(0));

    press(&mut app, Key::PageDown);
    assert_eq!(selected(&app), Some(10));
    press(&mut app, Key::PageDown);
    assert_eq!(selected(&app), Some(13));
    press(&mut app, Key::PageUp);
    assert_eq!(selected(&app), Some(3));
    press(&mut app, Key::PageUp);
    assert_eq!(selected(&app), Some(0));
}

#[test]
fn a_modal_is_reachable_and_dismissable_by_the_mouse() {
    let mut app = at_library();

    app.handle_click(Hit::Help);
    assert!(matches!(app.modal, Some(Modal::Help)));
    app.handle_click(Hit::CloseModal);
    assert!(app.modal.is_none());

    app.handle_click(Hit::Quit);
    assert!(app.should_quit);
}

#[test]
fn stepping_back_abandons_an_in_flight_scan() {
    let mut app = at_library();
    press(&mut app, Key::Enter);
    app.folder_checked(true);
    let command = press(&mut app, Key::Enter);
    assert!(app.scanning);

    press(&mut app, Key::Left);
    assert!(!app.scanning);
    assert_eq!(app.step, Step::Rules);

    // The late answer reports into the void.
    answer_scan(&mut app, command, &library());
    assert!(app.preview.is_none());
    assert!(!app.can_apply());
}

#[test]
fn a_batch_refused_for_changes_on_disk_reports_why() {
    let mut app = at_library();
    walk_to_preview(&mut app, &library());
    press(&mut app, Key::Char('a'));
    press(&mut app, Key::Enter);
    assert!(app.applying);
    assert_eq!(app.status.text, "Applying…");
    assert_eq!(app.status.kind, StatusKind::Working);

    // Quitting waits for the renames.
    press(&mut app, Key::Char('q'));
    assert!(!app.should_quit);
    assert_eq!(app.status.kind, StatusKind::Working);

    app.apply_finished(Err(PlanChanged {
        changes: vec!["source changed: a.srt".to_string(), "target changed: b.srt".to_string()],
    }));
    assert!(!app.applying);
    assert!(app.preview.is_none());
    let Some(Outcome::Refused { reason }) = app.outcome.as_ref() else {
        panic!("expected a refusal");
    };
    assert_eq!(reason, "source changed: a.srt; target changed: b.srt");
    assert_eq!(
        app.status.text,
        "Files changed on disk — preview again: source changed: a.srt; target changed: b.srt"
    );
}

#[test]
fn a_partly_failed_batch_quotes_the_first_error() {
    let mut app = at_library();
    walk_to_preview(&mut app, &library());
    press(&mut app, Key::Char('a'));
    press(&mut app, Key::Enter);

    let preview = app.preview.as_ref().unwrap();
    let first = preview.prepared[0].duplicate();
    let second = preview.prepared[1].duplicate();
    let mut result = ApplyResult::new();
    result.record(&first, "/library", None);
    result.record(&second, "/library", Some("target already exists: x.ass".to_string()));
    app.apply_finished(Ok(result));
    assert!(matches!(app.outcome, Some(Outcome::Mixed { applied: 1, failed: 1, .. })));
    assert_eq!(app.status.text, "Renamed 1, 1 failed: target already exists: x.ass");
}

#[test]
fn nothing_ticked_means_nothing_to_confirm() {
    let mut app = at_library();
    walk_to_preview(&mut app, &library());
    press_control(&mut app, 'r');
    press(&mut app, Key::Char('a'));
    assert!(app.modal.is_none());
    assert_eq!(app.status.text, "Tick at least one subtitle");
}

#[test]
fn the_preview_spells_out_its_rows_and_counts() {
    let mut app = at_library();
    walk_to_preview(&mut app, &library());
    press(&mut app, Key::Char(' '));
    let preview = app.preview.as_ref().unwrap();
    assert_eq!(preview.tally(), "1 of 2 ticked");
    assert_eq!(preview.skipped_note(), "   1 skipped (s)");
    assert_eq!(
        preview.row_text(0),
        "[Group] Nebula Archive - S01E01.chs.ass  →  Nebula.Archive.S01E01.1080p.ass"
    );
}
