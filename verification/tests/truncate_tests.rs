use pi_natives::segment::scan_line;
use pi_natives::text::{truncate_to_width, TextError, TextInput};
use pi_natives::truncate::{truncate_segments, truncate_text};
use pi_natives::width::visible_width;

#[test]
fn text_that_fits_is_unchanged() {
    assert_eq!(truncate_text("hi", 5, "...", false), "hi");
    assert_eq!(truncate_text("hello", 5, "...", false), "hello");
    assert_eq!(truncate_text("", 0, "...", false), "");
    assert_eq!(truncate_text("\x1b[31mred\x1b[0m", 3, "...", false), "\x1b[31mred\x1b[0m");
}

#[test]
fn text_that_fits_is_padded_on_request() {
    assert_eq!(truncate_text("hi", 5, "...", true), "hi   ");
    assert_eq!(truncate_text("hello", 5, "...", true), "hello");
    assert_eq!(truncate_text("", 2, "...", true), "  ");
    assert_eq!(truncate_text("\x1b[1mhi\x1b[0m", 4, "..", true), "\x1b[1mhi\x1b[0m  ");
}

#[test]
fn long_text_is_cut_with_reset_and_ellipsis() {
    assert_eq!(truncate_text("hello world", 5, "...", false), "he\x1b[0m...");
    assert_eq!(truncate_text("hello world", 8, "...", false), "hello\x1b[0m...");
    assert_eq!(truncate_text("hello world", 8, "", false), "hello wo\x1b[0m");
}

#[test]
fn escape_sequences_before_the_cut_are_kept() {
    assert_eq!(
        truncate_text("\x1b[1mhi\x1b[0m there", 4, "..", false),
        "\x1b[1mhi\x1b[0m.."
    );
    assert_eq!(truncate_text("\x1b[31mabcdef", 4, ".", false), "\x1b[31mabc\x1b[0m.");
}

#[test]
fn escape_sequences_after_the_cut_are_dropped() {
    assert_eq!(truncate_text("ab\x1b[1mcd", 3, ".", false), "ab\x1b[0m.");
}

#[test]
fn clusters_are_never_cut_in_two() {
    assert_eq!(truncate_text("世界世界", 6, "..", false), "世界\x1b[0m..");
    assert_eq!(truncate_text("世界世界", 5, "..", false), "世\x1b[0m..");
    assert_eq!(truncate_text("e\u{301}e\u{301}e\u{301}", 2, ".", false), "e\u{301}\x1b[0m.");
}

#[test]
fn cut_text_is_padded_up_to_the_width() {
    let out = truncate_text("世界世界", 5, "..", true);
    assert_eq!(out, "世\x1b[0m.. ");
    assert_eq!(visible_width(&out), 5);
    let out = truncate_text("hello world", 8, "...", true);
    assert_eq!(out, "hello\x1b[0m...");
    assert_eq!(visible_width(&out), 8);
}

#[test]
fn an_ellipsis_that_leaves_no_room_is_cut_itself() {
    assert_eq!(truncate_text("hello world", 2, "...", false), "..");
    assert_eq!(truncate_text("hello world", 3, "...", false), "...");
    assert_eq!(truncate_text("hello world", 0, "...", false), "");
    assert_eq!(truncate_text("hello world", 2, "...", true), "..");
}

#[test]
fn a_wide_ellipsis_may_exceed_the_width() {
    assert_eq!(truncate_text("ab", 1, "世", false), "世");
    assert_eq!(truncate_text("hello world", 2, "世世世", false), "世世");
}

#[test]
fn truncated_text_is_never_wider_than_asked() {
    let texts = ["hello world", "\x1b[1mbold\x1b[0m and plain", "世界 hello", "a\tb\tc"];
    for text in texts {
        for width in 0..16u32 {
            let out = truncate_text(text, width, "..", false);
            assert!(visible_width(&out) <= width);
        }
    }
}

#[test]
fn truncated_and_padded_text_is_exactly_as_wide_as_asked() {
    let texts = ["hello world", "\x1b[1mbold\x1b[0m and plain", "世界 hello"];
    for text in texts {
        for width in 2..10u32 {
            let out = truncate_text(text, width, "..", true);
            assert_eq!(visible_width(&out), width);
        }
    }
}

#[test]
fn truncate_from_given_segments() {
    let text = "hello world";
    let segments = scan_line(text);
    let ellipsis = "...";
    let ellipsis_segments = scan_line(ellipsis);
    let ends = vec![1usize, 2, 3];
    let out = truncate_segments(text, &segments, 5, ellipsis, &ellipsis_segments, &ends, false);
    assert_eq!(out, "he\x1b[0m...");
    let out = truncate_segments(text, &segments, 2, ellipsis, &ellipsis_segments, &ends, false);
    assert_eq!(out, "..");
}

#[test]
fn host_text_is_truncated() {
    let text = TextInput::Utf8("hello world".to_string());
    let ellipsis = TextInput::Bytes(b"...".to_vec());
    assert_eq!(truncate_to_width(&text, 5, &ellipsis, false), Ok("he\x1b[0m...".to_string()));
}

#[test]
fn bytes_that_are_not_utf8_are_refused() {
    let good = TextInput::Utf8("hello".to_string());
    let bad = TextInput::Bytes(vec![0x68, 0xff, 0x69]);
    assert_eq!(truncate_to_width(&bad, 5, &good, false), Err(TextError::InvalidEncoding));
    assert_eq!(truncate_to_width(&good, 5, &bad, false), Err(TextError::InvalidEncoding));
    assert_eq!(TextError::InvalidEncoding.message(), "Invalid UTF-8");
}

#[test]
fn clusters_without_width_are_kept_while_the_run_lasts() {
    assert_eq!(truncate_text("ab\u{200b}cd", 3, ".", false), "ab\u{200b}\x1b[0m.");
}

#[test]
fn hyperlinks_are_kept_whole() {
    let text = "\x1b]8;;http://x\x07link text\x1b]8;;\x07";
    assert_eq!(truncate_text(text, 5, "..", false), "\x1b]8;;http://x\x07lin\x1b[0m..");
}
