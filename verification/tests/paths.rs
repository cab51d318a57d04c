use beaver::paths::{display, display_path, expand_user, extension_of, file_name, join, sanitize, sort_key, stem_of};

#[test]
fn strips_escape_sequences_and_bidi_controls_from_names() {
    // A name that would otherwise erase the line it was printed on.
    assert_eq!(
        file_name("/library/evil\u{1b}[2K\rHarmless.srt"),
        "evil\u{fffd}[2K\u{fffd}Harmless.srt"
    );
    assert_eq!(
        display_path("/library/\u{202e}tpircs.srt", "/library"),
        "\u{fffd}tpircs.srt"
    );
    assert_eq!(file_name("/library/ordinary.srt"), "ordinary.srt");
}

#[test]
fn shows_paths_relative_to_the_scanned_root() {
    let root = "/library";
    assert_eq!(display_path("/library/a/b.srt", root), "a/b.srt");
    assert_eq!(display_path("/elsewhere/b.srt", root), "/elsewhere/b.srt");
}

#[test]
fn sanitize_leaves_ordinary_text_alone() {
    assert_eq!(sanitize("Nebula 星际 S01E01".to_string()), "Nebula 星际 S01E01");
    assert_eq!(sanitize("a\u{85}b\u{feff}c\u{2028}".to_string()), "a\u{fffd}b\u{fffd}c\u{fffd}");
}

#[test]
fn display_sanitizes_the_whole_path() {
    assert_eq!(display("/a/\u{7}b"), "/a/\u{fffd}b");
    assert_eq!(file_name("/"), "/");
}

#[test]
fn names_split_into_stem_and_extension_as_std_does() {
    assert_eq!(stem_of("show.s01e01.srt"), "show.s01e01");
    assert_eq!(extension_of("show.s01e01.srt").as_deref(), Some("srt"));
    assert_eq!(stem_of(".hidden"), ".hidden");
    assert_eq!(extension_of(".hidden"), None);
    assert_eq!(stem_of("plain"), "plain");
    assert_eq!(extension_of("trailing."), Some(String::new()));
    assert_eq!(stem_of(".."), "..");
    assert_eq!(extension_of(".."), None);
}

#[test]
fn joins_as_pathbuf_push_does() {
    assert_eq!(join("/a", "b.srt"), "/a/b.srt");
    assert_eq!(join("/a/", "b.srt"), "/a/b.srt");
    assert_eq!(join("", "b.srt"), "b.srt");
    assert_eq!(join("/a", "/abs"), "/abs");
}

#[test]
fn sort_keys_are_lowercase() {
    assert_eq!(sort_key("/Library/Show"), "/library/show");
}

#[test]
fn expands_a_leading_tilde() {
    let home = "/home/viewer";
    assert_eq!(expand_user("~", Some(home)), "/home/viewer");
    assert_eq!(expand_user("~/videos", Some(home)), "/home/viewer/videos");
    assert_eq!(expand_user("/tmp/~", Some(home)), "/tmp/~");
}

#[test]
fn leaves_another_users_home_and_an_unknown_home_alone() {
    assert_eq!(expand_user("~other/videos", Some("/home/viewer")), "~other/videos");
    assert_eq!(expand_user("~/videos", None), "~/videos");
    assert_eq!(expand_user("~/", Some("/home/viewer/")), "/home/viewer/");
}
