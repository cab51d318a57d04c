use beaver::tui::app::{move_selection, Focus, Status, StatusKind};
use beaver::tui::ui::{fit, pad, step_bar, wrap};

#[test]
fn fit_keeps_the_filename_end() {
    assert_eq!(fit("abcdef", 10), "abcdef");
    assert_eq!(fit("abcdef", 4), "…def");
}

#[test]
fn pad_fills_to_the_width() {
    assert_eq!(pad("ab", 5), "ab   ");
    assert_eq!(pad("abcdef", 3), "abcdef");
}

#[test]
fn wrap_breaks_on_words() {
    assert_eq!(wrap("one two three", 12), vec!["one two", "three"]);
}

#[test]
fn fit_handles_tiny_widths_and_wide_characters() {
    assert_eq!(fit("abcdef", 1), "…");
    assert_eq!(fit("abcdef", 0), "");
    assert_eq!(fit("星际档案", 5), "…档案");
}

#[test]
fn wrap_never_goes_narrower_than_eight() {
    assert_eq!(wrap("aa bb cc dd", 3), vec!["aa bb cc", "dd"]);
    assert!(wrap("   ", 20).is_empty());
}

#[test]
fn the_highlight_stays_inside_the_list() {
    assert_eq!(move_selection(None, 0, 1), None);
    assert_eq!(move_selection(None, 5, 1), Some(1));
    assert_eq!(move_selection(Some(4), 5, 3), Some(4));
    assert_eq!(move_selection(Some(2), 5, -10), Some(0));
    assert_eq!(move_selection(Some(9), 5, 0), Some(4));
}

#[test]
fn focus_wraps_around() {
    assert_eq!(Focus::Directory.step(1), Focus::Recursive);
    assert_eq!(Focus::Directory.step(-1), Focus::Results);
    assert_eq!(Focus::Results.step(1), Focus::Directory);
    assert_eq!(Focus::Strict.step(10), Focus::Strict);
}

#[test]
fn a_status_carries_its_text() {
    let status = Status::new("Preview ready", StatusKind::Success);
    assert_eq!(status.text, "Preview ready");
    assert_eq!(status.kind, StatusKind::Success);
}

#[test]
fn the_step_bar_centres_each_label_on_its_dot() {
    let (lead, spans, width) = step_bar(&vec![6, 5, 7, 5], 12);
    assert_eq!(lead, 2);
    assert_eq!(spans, vec![(0, 6), (12, 17), (23, 30), (36, 41)]);
    assert_eq!(width, 41);
}

#[test]
fn a_wide_label_never_overlaps_the_one_before() {
    let (lead, spans, width) = step_bar(&vec![20, 20], 12);
    assert_eq!(lead, 9);
    assert_eq!(spans, vec![(0, 20), (20, 40)]);
    assert_eq!(width, 40);
}
