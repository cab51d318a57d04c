use beaver::applying::{
    detect_state_changes, first_error, prepare_operations, rename_refusal, target_is_occupied,
    ApplyResult, ApplyStatus, FileIdentity, FileState, PlanChanged,
};
use beaver::planning::{plan_virtual_files, PlanOptions};

fn here(inode: u64) -> FileState {
    FileState::found(true, Some(FileIdentity { device: 1, inode }), 10, Some(5))
}

#[test]
fn an_untouched_plan_reports_no_changes() {
    let plan = plan_virtual_files(
        &["Nebula.S01E01.mkv", "random.S01E01.chs.ass"],
        &PlanOptions::default(),
    );
    let states = vec![(here(1), FileState::missing())];
    let prepared = prepare_operations(&plan, &states);
    assert_eq!(prepared.len(), 1);
    assert_eq!(prepared[0].id, 1);
    assert!(detect_state_changes(&prepared, &states).is_empty());
}

#[test]
fn a_moved_source_is_reported_by_name() {
    let plan = plan_virtual_files(
        &["Nebula.S01E01.mkv", "random.S01E01.chs.ass"],
        &PlanOptions::default(),
    );
    let prepared = prepare_operations(&plan, &vec![(here(1), FileState::missing())]);
    let now = vec![(FileState::missing(), here(2))];
    let changes = detect_state_changes(&prepared, &now);
    assert_eq!(
        changes,
        ["source changed: random.S01E01.chs.ass", "target changed: Nebula.S01E01.ass"]
    );
    let changed = PlanChanged { changes };
    assert_eq!(
        changed.message(),
        "source changed: random.S01E01.chs.ass; target changed: Nebula.S01E01.ass"
    );
}

#[test]
fn status_follows_the_outcomes() {
    let plan = plan_virtual_files(
        &["Nebula.S01E01.mkv", "random.S01E01.chs.ass"],
        &PlanOptions::default(),
    );
    let prepared = prepare_operations(&plan, &vec![(here(1), FileState::missing())]);
    let mut result = ApplyResult::new();
    assert_eq!(result.status(), ApplyStatus::Completed);
    result.record(&prepared[0], &plan.root, Some("target already exists: x".to_string()));
    assert_eq!(result.status(), ApplyStatus::Failed);
    assert_eq!(first_error(&result), "target already exists: x");
    result.record(&prepared[0], &plan.root, None);
    assert_eq!(result.status(), ApplyStatus::Partial);
    assert_eq!(result.applied[0].source, "random.S01E01.chs.ass");
    assert_eq!(result.applied[0].target, "Nebula.S01E01.ass");
    assert_eq!(first_error(&ApplyResult::new()), "unknown error");
}

#[test]
fn an_occupied_target_is_refused_without_force() {
    assert!(!target_is_occupied(&FileState::missing(), &here(1), false));
    assert!(target_is_occupied(&here(2), &FileState::missing(), true));
    assert!(target_is_occupied(&here(2), &here(1), true));
    assert!(!target_is_occupied(&here(1), &here(1), false));
    assert_eq!(
        rename_refusal(false, true, "/x/Nebula.S01E01.ass", true).as_deref(),
        Some("target already exists: Nebula.S01E01.ass")
    );
    assert_eq!(rename_refusal(true, true, "/x/Nebula.S01E01.ass", true), None);
    assert_eq!(
        rename_refusal(true, true, "/x/Nebula.S01E01.ass", false).as_deref(),
        Some("target folder is gone: /x")
    );
}
