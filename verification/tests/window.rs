use language_model_edit_prediction::text;
use language_model_edit_prediction::window::{split_window, take_fallback};

fn split(s: &str, at: usize, window_lines: u32) -> (String, String) {
    split_window(&text::chars_of(s), at, window_lines)
}

fn pair(prefix: &str, suffix: &str) -> (String, String) {
    (prefix.to_string(), suffix.to_string())
}

#[test]
fn short_text_is_shown_whole() {
    assert_eq!(split("ab\ncd", 4, 2), pair("ab\nc", "d"));
    assert_eq!(split("ab\ncd", 4, 9), pair("ab\nc", "d"));
    assert_eq!(split("", 0, 3), pair("", ""));
}

#[test]
fn window_is_centred_on_the_cursor_row() {
    let text = "0\n1\n2\n3\n4\n5\n6";
    // The cursor stands before the 3: one row above it and one below.
    assert_eq!(split(text, 6, 3), pair("2\n", "3\n4\n"));
    // An even window shows one row more above the cursor than below it.
    assert_eq!(split(text, 6, 4), pair("1\n2\n", "3\n4\n"));
    assert_eq!(split(text, 7, 1), pair("3", "\n"));
}

#[test]
fn window_stays_within_the_text() {
    let text = "0\n1\n2\n3\n4\n5\n6";
    assert_eq!(split(text, 0, 3), pair("", "0\n1\n2\n"));
    assert_eq!(split(text, 13, 3), pair("4\n5\n6", ""));
    assert_eq!(split(text, 11, 3), pair("4\n5", "\n6"));
}

#[test]
fn window_of_no_rows_shows_the_cursor_row() {
    assert_eq!(split("0\n1é\n2", 3, 0), pair("1", "é\n"));
}

#[test]
fn fallback_shows_the_bytes_before_the_cursor() {
    assert_eq!(take_fallback(&text::chars_of("abé"), 4), "abé");
    assert_eq!(take_fallback(&text::chars_of("abé"), 2), "ab");
    let long = format!("{}{}", "x".repeat(3), "é".repeat(512));
    assert_eq!(take_fallback(&text::chars_of(&long), long.len()), "é".repeat(512));
    assert_eq!(
        take_fallback(&text::chars_of(&long), 1025),
        format!("xx{}", "é".repeat(511))
    );
}
