use beaver::names::{episode_key, junk_tokens, language_tag, language_tags, normalize_stem, split_tokens};

#[test]
fn token_tables_are_sorted_for_binary_search() {
    assert!(language_tags().windows(2).all(|pair| pair[0] < pair[1]));
    assert!(junk_tokens().windows(2).all(|pair| pair[0] < pair[1]));
}

#[test]
fn splits_on_anything_that_is_not_alphanumeric() {
    assert_eq!(split_tokens("Show.Name_01-x"), ["Show", "Name", "01", "x"]);
    assert_eq!(split_tokens("星际档案 S01"), ["星际档案", "S01"]);
    assert!(split_tokens("...").is_empty());
}

#[test]
fn normalize_drops_brackets_junk_and_trailing_language() {
    assert_eq!(
        normalize_stem("[Group] Nebula.Archive.S01E02.1080p.WEB-DL.x265.chs"),
        "nebulaarchives01e02"
    );
    assert_eq!(normalize_stem("Nebula Archive - 03"), "nebulaarchive03");
}

#[test]
fn normalize_keeps_a_language_word_that_is_not_at_the_end() {
    assert_eq!(
        normalize_stem("English.Patient.S01E01"),
        "englishpatients01e01"
    );
}

#[test]
fn normalize_leaves_an_unclosed_bracket_alone() {
    assert_eq!(
        normalize_stem("Nebula [Archive S01E01"),
        "nebulaarchives01e01"
    );
}

#[test]
fn finds_episode_ids_in_both_forms() {
    assert_eq!(episode_key("Show.S01E02.mkv").as_deref(), Some("S01E02"));
    assert_eq!(episode_key("Show S1 E2.mkv").as_deref(), Some("S01E02"));
    assert_eq!(episode_key("Show.s01.e02.mkv").as_deref(), Some("S01E02"));
    assert_eq!(episode_key("Show.2x01.mkv").as_deref(), Some("S02E01"));
    assert_eq!(episode_key("Show.10x11.mkv").as_deref(), Some("S10E11"));
}

#[test]
fn rejects_episode_ids_glued_to_other_text() {
    assert_eq!(episode_key("MYS01E02X.mkv"), None);
    assert_eq!(episode_key("Show.S123E45.mkv"), None);
    assert_eq!(episode_key("Show.S01E123.mkv"), None);
    assert_eq!(episode_key("Show.1080p.mkv"), None);
}

#[test]
fn takes_the_leftmost_episode_id() {
    assert_eq!(
        episode_key("S01E01.rip.S02E02.mkv").as_deref(),
        Some("S01E01")
    );
}

#[test]
fn reads_combined_and_single_language_tags() {
    assert_eq!(language_tag("Show.S01E01.zh-en").as_deref(), Some("zhen"));
    assert_eq!(
        language_tag("Show.S01E01.CHS_ENG").as_deref(),
        Some("chseng")
    );
    assert_eq!(language_tag("Show.S01E01.jpn").as_deref(), Some("jpn"));
    assert!(language_tag("Show.S01E01").is_none());
}

#[test]
fn ignores_a_language_tag_buried_far_from_the_end() {
    let stem = "en.a.b.c.d.e.f.g.h.i";
    assert_eq!(language_tag(stem), None);
}

#[test]
fn normalize_folds_case_and_joins_tokens() {
    assert_eq!(normalize_stem("Deep Field Report"), "deepfieldreport");
    assert_eq!(normalize_stem(""), "");
}

#[test]
fn finds_no_language_in_a_plain_stem() {
    assert_eq!(language_tag("Deep Field Report"), None);
}

#[test]
fn composed_and_decomposed_accents_split_alike() {
    // "é" written as one code point, and as "e" followed by a combining acute.
    let composed = split_tokens("Caf\u{e9} Society");
    let decomposed = split_tokens("Cafe\u{301} Society");
    assert_eq!(composed, decomposed);
    assert_eq!(composed, vec!["Caf\u{e9}".to_string(), "Society".to_string()]);
}

#[test]
fn a_bracket_group_closes_only_at_its_own_kind() {
    assert_eq!(normalize_stem("[Group) x] Show"), "show");
    assert_eq!(normalize_stem("(Show] Name"), "showname");
}

#[test]
fn dots_underscores_and_spaces_separate_alike() {
    assert_eq!(
        normalize_stem("Nebula.Archive_S01 E02"),
        normalize_stem("Nebula Archive.S01_E02")
    );
    assert_eq!(normalize_stem("Deep_Field.Report"), "deepfieldreport");
}

#[test]
fn decomposed_accents_normalise_like_composed_ones() {
    assert_eq!(normalize_stem("Cafe\u{301}.Society"), normalize_stem("Caf\u{e9} Society"));
    assert_eq!(normalize_stem("Cafe\u{301}.Society"), "caf\u{e9}society");
}
