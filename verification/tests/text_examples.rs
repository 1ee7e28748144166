use pi_natives::text::{extract_segments, slice_with_width, truncate_to_width, TextInput};
use pi_natives::width::visible_width;

fn text(s: &str) -> TextInput {
    TextInput::Utf8(s.to_string())
}

#[test]
fn truncate_plain_text_with_ellipsis() {
    let out = truncate_to_width(&text("hello world"), 5, &text("..."), false).unwrap();
    assert_eq!(out, "he\x1b[0m...");
    assert_eq!(visible_width(&out), 5);
}

#[test]
fn truncate_keeps_styling_before_the_cut() {
    let out = truncate_to_width(&text("\x1b[1mhi\x1b[0m there"), 4, &text(".."), false).unwrap();
    assert_eq!(out, "\x1b[1mhi\x1b[0m..");
    assert_eq!(visible_width(&out), 4);
}

#[test]
fn slice_middle_of_plain_text() {
    let slice = slice_with_width(&text("abcdef"), 2, 3, true).unwrap();
    assert_eq!(slice.text, "cde");
    assert_eq!(slice.width, 3);
}

#[test]
fn tab_is_three_columns_wide() {
    assert_eq!(visible_width("\t"), 3);
}

#[test]
fn extract_after_reset_has_no_preamble() {
    let parts = extract_segments(&text("\x1b[31mred\x1b[0mplain"), 0, 3, 5, true).unwrap();
    assert_eq!(parts.before, "");
    assert_eq!(parts.before_width, 0);
    assert_eq!(parts.after, "plain");
    assert_eq!(parts.after_width, 5);
}
