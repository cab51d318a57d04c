use beaver::applying::{
    prepare_operations, ApplyResult, FileState,
};
use beaver::cli::{
    after_answer, after_plan, apply_report, confirmed, flag_conflict, opens_interface, Exit, NextStep,
    Said,
};
use beaver::planning::{plan_virtual_files, PlanOptions};

fn library() -> Vec<&'static str> {
    vec![
        "Nebula.Archive.S01E01.1080p.mkv",
        "[Group] Nebula Archive - S01E01.chs.ass",
        "Unrelated.Bonus.srt",
    ]
}

#[test]
fn without_a_folder_the_interface_opens() {
    assert!(opens_interface(false, false));
    assert!(opens_interface(true, true));
    assert!(!opens_interface(false, true));
}

#[test]
fn dry_run_and_apply_contradict_each_other() {
    let message = flag_conflict(true, true).unwrap();
    assert_eq!(message, "Error: use either --dry-run or --apply, not both.");
    assert!(flag_conflict(true, false).is_none());
    assert!(flag_conflict(false, true).is_none());
    assert!(flag_conflict(false, false).is_none());
}

#[test]
fn a_preview_ends_after_the_plan() {
    let plan = plan_virtual_files(&library(), &PlanOptions::default());
    assert_eq!(plan.operations.len(), 1);
    for yes in [false, true] {
        let NextStep::Finish { exit, said } = after_plan(&plan, false, yes) else {
            panic!("a preview must not rename");
        };
        assert_eq!(exit, Exit::Success);
        assert!(matches!(said, Said::Nothing));
    }
}

#[test]
fn applying_asks_first_unless_told_yes() {
    let plan = plan_virtual_files(&library(), &PlanOptions::default());
    let NextStep::Confirm { prompt } = after_plan(&plan, true, false) else {
        panic!("expected a question");
    };
    assert_eq!(prompt, "Apply 1 renames? [y/N] ");
    assert!(matches!(after_plan(&plan, true, true), NextStep::Apply));
}

#[test]
fn a_folder_without_videos_or_subtitles_fails() {
    let no_videos = plan_virtual_files(&["a.srt"], &PlanOptions::default());
    let NextStep::Finish { exit, said: Said::Error(text) } = after_plan(&no_videos, true, true) else {
        panic!("expected a failure");
    };
    assert_eq!(exit, Exit::Failure);
    assert_eq!(text, "No video files found.");

    let no_subtitles = plan_virtual_files(&["a.mkv"], &PlanOptions::default());
    let NextStep::Finish { exit, said: Said::Error(text) } = after_plan(&no_subtitles, true, true) else {
        panic!("expected a failure");
    };
    assert_eq!(exit, Exit::Failure);
    assert_eq!(text, "No subtitle files found.");
}

#[test]
fn only_a_yes_answer_agrees() {
    for answer in ["y", "Y", "yes", " YeS \n", "y\n"] {
        assert!(confirmed(answer), "{answer:?}");
    }
    for answer in ["", "n", "no", "yess", "ye", "y es"] {
        assert!(!confirmed(answer), "{answer:?}");
    }
    assert!(matches!(after_answer(true), NextStep::Apply));
    let NextStep::Finish { exit, said: Said::Out(text) } = after_answer(false) else {
        panic!("expected to stop");
    };
    assert_eq!(exit, Exit::Failure);
    assert_eq!(text, "Aborted.");
}

#[test]
fn a_finished_run_reports_every_failure() {
    let plan = plan_virtual_files(&library(), &PlanOptions::default());
    let states = vec![(FileState::missing(), FileState::missing()); plan.operations.len()];
    let prepared = prepare_operations(&plan, &states);

    let mut result = ApplyResult::new();
    result.record(&prepared[0], &plan.root, None);
    let report = apply_report(&result, 1);
    assert_eq!(report.summary, "Renamed 1 of 1.");
    assert!(report.failures.is_empty());
    assert_eq!(report.exit, Exit::Success);

    let mut result = ApplyResult::new();
    result.record(&prepared[0], &plan.root, Some("target already exists: x.ass".to_string()));
    let report = apply_report(&result, 1);
    assert_eq!(report.summary, "Renamed 0 of 1.");
    assert_eq!(report.failures.len(), 1);
    assert!(report.failures[0].starts_with("- [Group] Nebula Archive - S01E01.chs.ass -> "), "{}", report.failures[0]);
    assert!(report.failures[0].ends_with(": target already exists: x.ass"));
    assert_eq!(report.exit, Exit::Failure);
}
