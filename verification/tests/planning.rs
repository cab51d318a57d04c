use std::collections::HashSet;
use std::path::Path;

use beaver::planning::{
    extension_matches, normalize_extension, too_close, plan_virtual_files, MatchReason, PlanError,
    PlanOptions, RenamePlan, SkipReason, trim_text,
};
use beaver::similarity::Score;

fn plan(names: &[&str]) -> RenamePlan {
    plan_virtual_files(names, &PlanOptions::default())
}

fn plan_with(names: &[&str], options: PlanOptions) -> RenamePlan {
    plan_virtual_files(names, &options)
}

fn destinations(plan: &RenamePlan) -> Vec<String> {
    plan.operations
        .iter()
        .map(|operation| {
            Path::new(&operation.destination)
                .file_name()
                .unwrap()
                .to_string_lossy()
                .into_owned()
        })
        .collect()
}

fn value(score: Score) -> f64 {
    score.numerator as f64 / score.denominator as f64
}

#[test]
fn matches_on_episode_id() {
    let plan = plan(&[
        "Nebula.S01E01.1080p.mkv",
        "some.other.release.S01E02.mkv",
        "some.other.release.S01E01.chs.ass",
    ]);
    assert_eq!(destinations(&plan), ["Nebula.S01E01.1080p.ass"]);
    assert_eq!(
        plan.operations[0].reason,
        MatchReason::Episode("S01E01".into())
    );
    assert_eq!(plan.video_count, 2);
    assert_eq!(plan.subtitle_count, 1);
}

#[test]
fn does_not_fuzzy_match_when_episode_id_has_no_matching_video() {
    let plan = plan(&["Nebula.S01E01.mkv", "Nebula.S01E02.srt"]);

    assert!(plan.operations.is_empty());
    assert_eq!(
        plan.skipped[0].reason,
        SkipReason::NoMatchingEpisode("S01E02".into())
    );
}

#[test]
fn matches_on_stem_similarity_when_no_episode_id() {
    let plan = plan(&["Deep Field Report.mkv", "Deep Field Report.eng.srt"]);
    assert_eq!(destinations(&plan), ["Deep Field Report.srt"]);
    assert!(matches!(plan.operations[0].reason, MatchReason::Fuzzy(score) if value(score) > 0.9));
}

#[test]
fn refuses_a_fuzzy_match_that_is_too_close_to_the_runner_up() {
    let plan = plan(&["Report A.mkv", "Report B.mkv", "Report C.srt"]);
    assert!(plan.operations.is_empty());
    assert!(matches!(
        plan.skipped[0].reason,
        SkipReason::Unmatched { .. }
    ));
}

#[test]
fn reports_an_episode_id_claimed_by_two_videos() {
    let plan = plan(&["A.S01E01.mkv", "B.S01E01.mkv", "Subs.S01E01.srt"]);
    assert!(plan.operations.is_empty());
    assert_eq!(
        plan.skipped[0].reason,
        SkipReason::AmbiguousEpisode("S01E01".into())
    );
}

#[test]
fn leaves_a_subtitle_that_already_matches() {
    let plan = plan(&["Nebula.S01E01.mkv", "Nebula.S01E01.srt"]);
    assert!(plan.operations.is_empty());
    assert_eq!(plan.skipped[0].reason, SkipReason::AlreadyMatches);
}

#[test]
fn separates_two_subtitles_for_one_video_by_language() {
    let plan = plan(&[
        "Nebula.S01E01.mkv",
        "Deep.Release.S01E01.chs.srt",
        "Other.Release.S01E01.eng.srt",
    ]);
    let mut destinations = destinations(&plan);
    destinations.sort();
    assert_eq!(destinations, ["Nebula.S01E01.eng.srt", "Nebula.S01E01.srt"]);
}

#[test]
fn leaves_a_subtitle_that_is_already_at_a_language_tagged_name() {
    // The plain name is taken, and this file already sits at the name it would
    // be given, so there is nothing to do.
    let plan = plan(&[
        "Nebula.S01E01.mkv",
        "Nebula.S01E01.srt",
        "Nebula.S01E01.eng.srt",
    ]);
    assert!(plan.operations.is_empty());
    assert!(plan
        .skipped
        .iter()
        .all(|skipped| skipped.reason == SkipReason::AlreadyMatches));
}

#[test]
fn falls_back_to_a_number_when_the_language_name_is_taken_too() {
    let plan = plan(&[
        "Nebula.S01E01.mkv",
        "Nebula.S01E01.chs.srt",
        "Other.Release.S01E01.chs.srt",
        "Third.Release.S01E01.chs.srt",
    ]);
    let mut destinations = destinations(&plan);
    destinations.sort();
    assert_eq!(
        destinations,
        [
            "Nebula.S01E01.2.srt",
            "Nebula.S01E01.3.srt",
            "Nebula.S01E01.srt"
        ]
    );
}

#[test]
fn strict_mode_skips_a_collision_instead_of_adding_a_suffix() {
    let options = PlanOptions {
        strict: true,
        ..PlanOptions::default()
    };
    let plan = plan_with(
        &[
            "Nebula.S01E01.mkv",
            "Nebula.S01E01.chs.srt",
            "Nebula.S01E01.eng.srt",
        ],
        options,
    );
    assert_eq!(plan.operations.len(), 1);
    assert_eq!(plan.skipped[0].reason, SkipReason::StrictCollision);
}

#[test]
fn overwrite_existing_uses_the_plain_target() {
    let plan = plan_with(
        &[
            "Nebula.S01E01.mkv",
            "Nebula.S01E01.srt",
            "Other.Release.S01E01.chs.srt",
        ],
        PlanOptions {
            overwrite_existing: true,
            ..PlanOptions::default()
        },
    );

    assert_eq!(destinations(&plan), ["Nebula.S01E01.srt"]);
    assert_eq!(
        Path::new(&plan.operations[0].source).file_name().unwrap(),
        "Other.Release.S01E01.chs.srt"
    );
}

#[test]
fn overwrite_existing_keeps_planned_targets_unique() {
    let plan = plan_with(
        &[
            "Nebula.S01E01.mkv",
            "A.Release.S01E01.chs.srt",
            "B.Release.S01E01.eng.srt",
        ],
        PlanOptions {
            overwrite_existing: true,
            ..PlanOptions::default()
        },
    );

    let destinations = destinations(&plan);
    assert_eq!(destinations, ["Nebula.S01E01.srt", "Nebula.S01E01.eng.srt"]);
    assert_eq!(
        destinations.iter().collect::<HashSet<_>>().len(),
        destinations.len()
    );
}

#[test]
fn reports_a_folder_with_subtitles_but_no_videos() {
    let plan = plan(&["lonely/Nebula.S01E01.srt"]);
    assert_eq!(plan.skipped[0].reason, SkipReason::NoVideo);
}

#[test]
fn never_matches_across_directories() {
    let plan = plan(&["a/Nebula.S01E01.mkv", "b/Nebula.S01E01.srt"]);
    assert!(plan.operations.is_empty());
    assert_eq!(plan.skipped[0].reason, SkipReason::NoVideo);
}

#[test]
fn a_cautious_level_rejects_what_a_relaxed_one_accepts() {
    let names = &["Deep Field Report 2031.mkv", "Deep Feild Raport.srt"];
    let relaxed = plan_with(
        names,
        PlanOptions {
            min_score: Score { numerator: 60, denominator: 100 },
            ..PlanOptions::default()
        },
    );
    let cautious = plan_with(
        names,
        PlanOptions {
            min_score: Score { numerator: 95, denominator: 100 },
            ..PlanOptions::default()
        },
    );
    assert_eq!(relaxed.operations.len(), 1);
    assert!(cautious.operations.is_empty());
}

#[test]
fn full_paths_join_the_folder_and_the_new_name() {
    let plan = plan(&["season/Nebula.S01E01.mkv", "season/x.S01E01.srt"]);
    assert_eq!(plan.root, "/virtual-subtitle-library");
    assert_eq!(plan.operations[0].source, "/virtual-subtitle-library/season/x.S01E01.srt");
    assert_eq!(
        plan.operations[0].destination,
        "/virtual-subtitle-library/season/Nebula.S01E01.srt"
    );
}

#[test]
fn folders_come_out_in_order_of_their_lowercased_paths() {
    let plan = plan(&[
        "b/Show.S01E01.mkv",
        "b/x.S01E01.srt",
        "A/Show.S01E01.mkv",
        "A/x.S01E01.srt",
    ]);
    let sources: Vec<&str> = plan.operations.iter().map(|op| op.source.as_str()).collect();
    assert_eq!(
        sources,
        [
            "/virtual-subtitle-library/A/x.S01E01.srt",
            "/virtual-subtitle-library/b/x.S01E01.srt"
        ]
    );
}

#[test]
fn the_margin_needs_six_hundredths() {
    let best = Score { numerator: 78, denominator: 100 };
    assert!(too_close(best, Score { numerator: 73, denominator: 100 }));
    assert!(!too_close(best, Score { numerator: 71, denominator: 100 }));
    assert!(!too_close(best, Score { numerator: 72, denominator: 100 }));
}

#[test]
fn extensions_are_normalised() {
    assert_eq!(normalize_extension(" .SRT "), "srt");
    assert_eq!(normalize_extension("..Ass"), "ass");
    assert_eq!(normalize_extension("mkv"), "mkv");
    assert_eq!(normalize_extension("   "), "");
}

#[test]
fn extensions_match_ignoring_case() {
    let list = vec!["srt".to_string(), "ass".to_string()];
    assert!(extension_matches(&list, "SRT"));
    assert!(extension_matches(&list, "ass"));
    assert!(!extension_matches(&list, "mkv"));
}

#[test]
fn counts_every_video_and_subtitle() {
    let plan = plan(&["a/x.mkv", "b/y.mkv", "b/z.srt", "notes.txt"]);
    assert_eq!(plan.video_count, 2);
    assert_eq!(plan.subtitle_count, 1);
}

#[test]
fn an_unreadable_listing_name_with_no_extension_is_ignored() {
    let plan = plan(&["README", "Nebula.S01E01.mkv"]);
    assert_eq!(plan.video_count, 1);
    assert_eq!(plan.subtitle_count, 0);
    assert!(plan.operations.is_empty());
    assert!(plan.skipped.is_empty());
}

fn outline(plan: &RenamePlan) -> Vec<String> {
    let mut lines: Vec<String> = plan
        .operations
        .iter()
        .map(|operation| format!("{} -> {} {:?}", operation.source, operation.destination, operation.reason))
        .collect();
    lines.extend(plan.skipped.iter().map(|skipped| format!("{} {:?}", skipped.path, skipped.reason)));
    lines
}

#[test]
fn the_listing_order_does_not_change_the_plan() {
    let names = [
        "b/Show.S01E01.mkv",
        "b/[G] Show - S01E01.srt",
        "b/Show.S01E02.mkv",
        "b/[G] Show - S01E02.chs.srt",
        "a/Deep Field Report 2031.mkv",
        "a/Deep Feild Raport.srt",
        "a/Stray.srt",
    ];
    let forward = plan(&names);
    let mut reversed = names;
    reversed.reverse();
    let backward = plan(&reversed);
    assert_eq!(outline(&forward), outline(&backward));
    assert_eq!(forward.operations.len(), 3);
    // Folders come in order, whatever order they were listed in.
    assert!(forward.operations[0].source.contains("/a/"), "{}", forward.operations[0].source);
}

#[test]
fn episode_ids_match_at_every_level() {
    let names = ["Show.S01E01.mkv", "Entirely Different Words S01E01.srt"];
    for min_score in [
        Score { numerator: 60, denominator: 100 },
        Score { numerator: 84, denominator: 100 },
        Score { numerator: 99, denominator: 100 },
    ] {
        let options = PlanOptions { min_score, ..PlanOptions::default() };
        let plan = plan_with(&names, options);
        assert_eq!(plan.operations.len(), 1);
        assert!(matches!(&plan.operations[0].reason, MatchReason::Episode(key) if key == "S01E01"));
    }
}

#[test]
fn plan_errors_read_as_sentences() {
    let missing = PlanError::NotADirectory("/no/such\u{1b}dir".to_string());
    assert_eq!(missing.message(), "not a directory: /no/such\u{fffd}dir");
    let failed = PlanError::Io(std::io::Error::other("disk on fire"));
    assert_eq!(failed.message(), "disk on fire");
}

#[test]
fn trimming_agrees_with_the_standard_whitespace_list() {
    for code in 0u32..0x3100 {
        if let Some(c) = char::from_u32(code) {
            let text = format!("{c}x{c}");
            assert_eq!(trim_text(&text), text.trim(), "U+{code:04X}");
        }
    }
}
