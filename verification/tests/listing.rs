use beaver::listing::format_plan;
use beaver::planning::{plan_virtual_files, MatchReason, PlanOptions, RenamePlan, SkipReason};
use beaver::presentation::demo_plan;
use beaver::similarity::Score;

fn decimal(score: Score) -> f64 {
    score.numerator as f64 / score.denominator as f64
}

fn badges(plan: &RenamePlan) -> Vec<String> {
    plan.operations
        .iter()
        .map(|operation| match &operation.reason {
            MatchReason::Episode(key) => format!("episode {key}"),
            MatchReason::Fuzzy(score) => format!("fuzzy {:.2}", decimal(*score)),
        })
        .collect()
}

fn labels(plan: &RenamePlan) -> Vec<String> {
    plan.skipped
        .iter()
        .map(|skipped| match &skipped.reason {
            SkipReason::Unmatched { best_score } => {
                format!("No matching video (best {:.2})", decimal(*best_score))
            }
            _ => "Left alone".to_string(),
        })
        .collect()
}

fn listing(plan: &RenamePlan) -> String {
    format_plan(plan, &badges(plan), &labels(plan))
}

#[test]
fn formats_a_plan_grouped_by_directory() {
    let output = listing(&demo_plan());
    assert!(output.starts_with("Directory: .\n"), "{output}");
    assert!(output.contains("Nebula.Archive.S01E01.zh-en.srt  ->  Nebula.Archive.S01E01.2160p.WEB-DL.srt  (episode S01E01)"), "{output}");
    assert!(output.contains("Skipped 1:"), "{output}");
    assert!(output.contains("Unsorted.Bonus.Feature.srt: No matching video"), "{output}");
}

#[test]
fn says_so_when_there_is_nothing_to_do() {
    let plan = plan_virtual_files(&["only.mkv"], &PlanOptions::default());
    assert_eq!(listing(&plan), "No renames planned.\n");
}

#[test]
fn groups_follow_the_folders_in_path_order() {
    let plan = plan_virtual_files(
        &[
            "b/Show.S01E01.mkv",
            "b/[G] Show - S01E01.srt",
            "a/Show.S02E01.mkv",
            "a/[G] Show - S02E01.srt",
        ],
        &PlanOptions::default(),
    );
    let output = listing(&plan);
    let first = output.find("Directory: a").expect(&output);
    let second = output.find("Directory: b").expect(&output);
    assert!(first < second, "{output}");
    assert!(output.contains("- [G] Show - S02E01.srt  ->  Show.S02E01.srt  (episode S02E01)\n"), "{output}");
    assert!(!output.contains("Skipped"), "{output}");
}
