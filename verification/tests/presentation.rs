use beaver::planning::{MatchReason, SkipReason};
use beaver::presentation::{demo_plan, plural, MatchLevel};

#[test]
fn match_levels_get_stricter_in_order() {
    assert!(MatchLevel::Relaxed.score().less_than(&MatchLevel::Balanced.score()));
    assert!(MatchLevel::Balanced.score().less_than(&MatchLevel::Cautious.score()));
    assert_eq!(MatchLevel::default(), MatchLevel::Balanced);
}

#[test]
fn levels_round_trip_through_their_index() {
    for level in MatchLevel::all() {
        assert_eq!(MatchLevel::from_index(level.index()), level);
    }
    assert_eq!(MatchLevel::from_index(99), MatchLevel::default());
}

#[test]
fn the_demo_plan_shows_every_kind_of_outcome() {
    let plan = demo_plan();
    assert_eq!(plan.video_count, 3);
    assert_eq!(plan.subtitle_count, 4);
    assert_eq!(plan.operations.len(), 3);
    assert!(plan
        .operations
        .iter()
        .all(|operation| matches!(operation.reason, MatchReason::Episode(_))));
    assert_eq!(plan.skipped.len(), 1);
    assert!(matches!(
        plan.skipped[0].reason,
        SkipReason::Unmatched { .. }
    ));
}

#[test]
fn plural_picks_the_wording() {
    assert_eq!(plural(1, "file", "files"), "file");
    assert_eq!(plural(0, "file", "files"), "files");
    assert_eq!(plural(2, "file", "files"), "files");
}

#[test]
fn levels_have_words() {
    assert_eq!(MatchLevel::Relaxed.label(), "Relaxed");
    assert_eq!(MatchLevel::Cautious.hint(), "Only near-certain matches");
    assert_eq!(MatchLevel::Balanced.score().numerator, 72);
}
