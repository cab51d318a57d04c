use beaver::tui::input::TextInput;

fn input(value: &str) -> TextInput {
    let mut input = TextInput::default();
    input.set_value(value);
    input
}

#[test]
fn edits_at_the_cursor() {
    let mut field = input("abc");
    field.move_left();
    field.insert('X');
    assert_eq!(field.value(), "abXc");
    field.backspace();
    assert_eq!(field.value(), "abc");
    field.delete();
    assert_eq!(field.value(), "ab");
}

#[test]
fn deletes_one_path_segment_at_a_time() {
    let mut field = input("/tmp/shows/season one/");
    field.delete_previous_word();
    assert_eq!(field.value(), "/tmp/shows/");
    field.delete_previous_word();
    assert_eq!(field.value(), "/tmp/");
}

#[test]
fn scrolls_to_keep_the_cursor_in_view() {
    let mut field = input("/a/very/long/path/that/does/not/fit");
    let (text, cursor) = field.view(10);
    assert!(text.ends_with("not/fit"));
    assert!(cursor < 10);

    field.move_home();
    let (text, cursor) = field.view(10);
    assert!(text.starts_with("/a/very"));
    assert_eq!(cursor, 0);
}

#[test]
fn measures_wide_characters_by_column() {
    let mut field = input("字幕");
    let (_, cursor) = field.view(10);
    assert_eq!(cursor, 4);
}

#[test]
fn the_cursor_stays_inside_the_text() {
    let mut field = input("ab");
    field.move_right();
    field.move_right();
    field.insert('c');
    assert_eq!(field.value(), "abc");
    field.move_home();
    field.move_left();
    field.backspace();
    assert_eq!(field.value(), "abc");
    field.move_end();
    field.delete();
    assert_eq!(field.value(), "abc");
    assert!(!field.is_empty());
    assert!(TextInput::new().is_empty());
}

#[test]
fn a_zero_width_view_shows_nothing() {
    let mut field = input("abc");
    assert_eq!(field.view(0), (String::new(), 0));
}
