use beaver::similarity::{ratio, CharCounts, Scratch, Score, Target};

fn value(score: Score) -> f64 {
    score.numerator as f64 / score.denominator as f64
}

fn close(left: f64, right: f64) -> bool {
    (left - right).abs() < 1e-9
}

#[test]
fn identical_strings_score_one() {
    assert!(close(value(ratio("abcdef", "abcdef")), 1.0));
}

#[test]
fn empty_input_scores_zero() {
    assert!(close(value(ratio("", "abc")), 0.0));
    assert!(close(value(ratio("abc", "")), 0.0));
    assert!(close(value(ratio("", "")), 0.0));
}

#[test]
fn disjoint_strings_score_zero() {
    assert!(close(value(ratio("abc", "xyz")), 0.0));
}

/// Values taken from CPython's `difflib.SequenceMatcher(a=..., b=...).ratio()`.
#[test]
fn matches_cpython_difflib() {
    assert!(close(value(ratio("abcd", "bcde")), 0.75));
    assert!(close(value(ratio("private", "prwatte")), 0.7142857142857143));
    assert!(close(value(ratio("tide", "diet")), 0.25));
    assert!(close(
        value(ratio("nebulaarchives01e01", "nebulaarchives01e02")),
        0.9473684210526315
    ));
    assert!(close(value(ratio("kitten", "sitting")), 0.6153846153846154));
}

#[test]
fn compares_by_character_not_byte() {
    assert!(close(
        value(ratio("星际档案第一集", "星际档案第二集")),
        0.8571428571428571
    ));
}

#[test]
fn long_sequences_use_the_autojunk_heuristic() {
    // Past 200 elements, elements that fill more than 1% of the positions are
    // dropped from the index. Here every character of `b` qualifies, so the
    // score collapses to zero instead of finding the shared "ab".
    let b = "ab".repeat(110);
    assert!(close(value(ratio("bab", &b)), 0.0));
    // The same comparison below the 200-element cutoff keeps its match.
    let short = "ab".repeat(90);
    assert!(value(ratio("bab", &short)) > 0.0);
}

/// The cheap upper bound must never sit below the real score, or a video that
/// should have won would be dropped without being compared.
#[test]
fn the_bound_is_never_below_the_real_ratio() {
    let long = "ab".repeat(110);
    let pairs = [
        ("nebulaarchives01e01", "nebulaarchives01e02"),
        ("deepfieldreport", "deepfieldreport"),
        ("abc", "xyz"),
        ("星际档案第一集", "星际档案第二集"),
        ("bab", long.as_str()),
    ];
    let mut scratch = Scratch::default();
    for (a, b) in pairs {
        let a: Vec<char> = a.chars().collect();
        let target = Target::new(&b.chars().collect::<Vec<_>>());
        let real = value(target.ratio(&a, &mut scratch));
        let bound = value(target.ratio_bound(&CharCounts::new(&a)));
        assert!(bound >= real - 1e-9, "{bound} < {real}");
    }
}

#[test]
fn a_score_is_twice_the_matches_over_both_lengths() {
    // "abcd" against "bcde" matches "bcd": 2 * 3 over 8.
    let score = ratio("abcd", "bcde");
    assert_eq!((score.numerator, score.denominator), (6, 8));
    let disjoint = ratio("abc", "xyz");
    assert_eq!((disjoint.numerator, disjoint.denominator), (0, 6));
}

#[test]
fn the_bound_counts_shared_characters() {
    // "tide" and "diet" share all four letters, though only one matches in order.
    let a: Vec<char> = "tide".chars().collect();
    let target = Target::new(&"diet".chars().collect::<Vec<_>>());
    let bound = target.ratio_bound(&CharCounts::new(&a));
    assert_eq!((bound.numerator, bound.denominator), (8, 8));
    let mut scratch = Scratch::new();
    let score = target.ratio(&a, &mut scratch);
    assert_eq!((score.numerator, score.denominator), (2, 8));
}

#[test]
fn one_scratch_serves_many_comparisons() {
    let mut scratch = Scratch::new();
    let target = Target::new(&"nebulaarchives01e02".chars().collect::<Vec<_>>());
    let first: Vec<char> = "nebulaarchives01e01".chars().collect();
    let second: Vec<char> = "somethingelse".chars().collect();
    let a = target.ratio(&first, &mut scratch);
    let b = target.ratio(&second, &mut scratch);
    let again = target.ratio(&first, &mut scratch);
    assert_eq!(a, again);
    assert!(value(b) < value(a));
}

#[test]
fn scores_compare_as_fractions() {
    let half = Score { numerator: 1, denominator: 2 };
    let also_half = Score { numerator: 2, denominator: 4 };
    let third = Score { numerator: 1, denominator: 3 };
    assert!(!half.less_than(&also_half));
    assert!(half.at_most(&also_half));
    assert!(third.less_than(&half));
    assert!(!half.at_most(&third));
}
